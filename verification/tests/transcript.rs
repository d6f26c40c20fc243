//! What counts as a message, and the chain of frames.

use plannotator::host::{ErrorKind, HostError, Message, Role};
use plannotator::transcript::{
    decode_frames, delegated, event_message, holds_a_reply, message_of, not_zstd, parse_messages,
    read_transcript, Block, Event,
};
use ruzstd::encoding::{compress_to_vec, CompressionLevel};

const PATH: &str =
    "sessions/--work-project--/11111111-1111-4111-8111-111111111111/session.v3.jsonl.zstd";

const FIRST_FLUSH: &str = r#"{"type":"session","id":"11111111-1111-4111-8111-111111111111","delegationDepth":0}
{"type":"user/message","seq":8,"time":1787938000000,"data":{"content":[{"type":"text","text":"user prompt one"}]}}
{"type":"assistant/message","seq":9,"time":1787938010000,"data":{"message":{"id":"a0","content":[{"type":"reasoning","text":"thinking about it"}]}}}
{"type":"assistant/message","seq":10,"time":1787938020000,"data":{"message":{"id":"a1","content":[{"type":"reasoning","text":"thinking more"},{"type":"text","text":"first reply"},{"type":"tool_call","input":{"file_path":"a.rs"}}]}}}
"#;

const SECOND_FLUSH: &str = r#"{"type":"tool/result","seq":11,"data":{"content":[{"type":"text","text":"file_path: a.rs"}]}}
{"type":"turn/end","seq":12}
{"type":"assistant/message","seq":13,"time":1787938060000,"data":{"message":{"id":"a2","content":[{"type":"text","text":"second reply"}]}}}
"#;

fn frame(text: &str) -> Vec<u8> {
    compress_to_vec(text.as_bytes(), CompressionLevel::Fastest)
}

/// A session that was flushed twice.
fn session() -> Vec<u8> {
    let mut bytes = frame(FIRST_FLUSH);
    bytes.extend(frame(SECOND_FLUSH));
    bytes
}

fn texts(role: Role, messages: &[Message]) -> Vec<String> {
    messages.iter().filter(|m| m.role == role).map(|m| m.text.clone()).collect()
}

fn fixture_messages() -> Vec<Message> {
    parse_messages(&read_transcript(PATH, &session()).expect("decodes"), 25)
}

#[test]
fn every_text_block_of_an_event_is_one_message_newest_first() {
    let messages = fixture_messages();
    assert_eq!(texts(Role::Assistant, &messages), vec!["second reply", "first reply"]);
    assert_eq!(texts(Role::Human, &messages), vec!["user prompt one"]);
    assert_eq!(messages[0].id, "a2", "the event's own message id names the message");
    assert_eq!(messages[0].at.as_deref(), Some("2026-08-28T17:27:40.000Z"));
    assert_eq!(messages[2].id, "seq-8", "an event without an id falls back to its sequence");
}

#[test]
fn reasoning_and_tool_blocks_are_not_messages() {
    let messages = fixture_messages();
    assert!(
        messages.iter().all(|m| !m.text.contains("thinking") && !m.text.contains("file_path")),
        "a step whose content is only reasoning is not a message either"
    );
}

#[test]
fn n_caps_the_total() {
    assert_eq!(fixture_messages().len(), 3);
    assert_eq!(parse_messages(&read_transcript(PATH, &session()).expect("decodes"), 1).len(), 1);
}

#[test]
fn the_frame_chain_decodes_every_frame_not_just_the_first() {
    // dsh appends one frame per flush, so the last messages live in later frames.
    let jsonl = read_transcript(PATH, &session()).expect("decodes");
    assert_eq!(jsonl.lines().count(), 7, "both frames, no frame repeated");
    assert!(jsonl.contains("user prompt one"), "the first frame");
    assert!(jsonl.contains("second reply"), "the appended frame");
}

#[test]
fn a_file_that_is_not_a_zstd_session_is_an_error_not_a_panic() {
    let err = read_transcript("session.v3.jsonl.zstd", b"not zstd at all").expect_err("refuses");
    assert!(err.message().contains("not a zstd session"), "{err:?}");
    assert!(err.message().starts_with("session.v3.jsonl.zstd is not a zstd session: "), "{err:?}");
    assert!(matches!(err, HostError::Io { kind: ErrorKind::InvalidData, .. }));
}

#[test]
fn what_is_appended_comes_behind_what_was_there() {
    let mut bytes = frame("one\n");
    assert_eq!(decode_frames(PATH, &bytes).expect("decodes"), b"one\n");
    bytes.extend(frame("two\n"));
    bytes.extend(frame(""));
    assert_eq!(decode_frames(PATH, &bytes).expect("decodes"), b"one\ntwo\n");
    assert_eq!(decode_frames(PATH, b"").expect("decodes"), b"");
    // A frame that is cut off spoils the file.
    let whole = bytes.len();
    bytes.extend(frame("three three three"));
    bytes.truncate(whole + 5);
    assert!(decode_frames(PATH, &bytes).is_err());
    bytes.truncate(whole);
    bytes.extend(b"garbage");
    assert!(decode_frames(PATH, &bytes).is_err());
}

#[test]
fn bytes_that_are_no_text_are_replaced() {
    let bytes = compress_to_vec(&b"a\xffb"[..], CompressionLevel::Uncompressed);
    assert_eq!(read_transcript(PATH, &bytes).expect("decodes"), "a\u{fffd}b");
}

#[test]
fn a_smaller_cap_gives_the_start_of_what_a_larger_one_gives() {
    let jsonl = format!("{FIRST_FLUSH}{SECOND_FLUSH}");
    let all = parse_messages(&jsonl, 25);
    for n in 0..4 {
        assert_eq!(parse_messages(&jsonl, n), all[..n]);
    }
}

#[test]
fn appended_lines_come_first() {
    let before = parse_messages(FIRST_FLUSH, 25);
    let after = parse_messages(&format!("{FIRST_FLUSH}{SECOND_FLUSH}"), 25);
    let appended = parse_messages(SECOND_FLUSH, 25);
    assert_eq!(appended.len(), 1);
    assert_eq!(after[..1], appended);
    assert_eq!(after[1..], before);
}

fn block(kind: &str, text: Option<&str>) -> Block {
    Block { kind: Some(kind.to_owned()), text: text.map(str::to_owned) }
}

fn event(kind: &str, blocks: Vec<Block>) -> Event {
    Event {
        kind: Some(kind.to_owned()),
        reply: Some(blocks),
        prompt: None,
        id: None,
        seq: None,
        time: None,
    }
}

#[test]
fn text_blocks_are_joined_by_line_feeds() {
    let said = message_of(&event(
        "assistant/message",
        vec![
            block("text", Some("a")),
            block("reasoning", Some("hidden")),
            block("text", None),
            block("text", Some("")),
            block("text", Some("b ")),
        ],
    ))
    .expect("a message");
    assert_eq!(
        said,
        Message { id: "seq-0".into(), role: Role::Assistant, text: "a\n\nb ".into(), at: None }
    );
}

#[test]
fn an_event_that_says_nothing_is_no_message() {
    assert_eq!(message_of(&event("assistant/message", vec![])), None);
    assert_eq!(message_of(&event("assistant/message", vec![block("text", Some(" \n\t\u{3000}"))])), None);
    assert_eq!(message_of(&event("assistant/message", vec![block("reasoning", Some("x"))])), None);
    assert_eq!(message_of(&event("user/message", vec![block("text", Some("x"))])), None);
    assert_eq!(message_of(&event("tool/result", vec![block("text", Some("x"))])), None);
}

#[test]
fn a_line_is_one_message_at_most() {
    let line = r#" {"type":"user/message","data":{"content":[{"type":"text","text":"hi"}],"message":{"id":"u1"}}} "#;
    let message = event_message(line).expect("a message");
    assert_eq!((message.id.as_str(), message.role, message.at), ("u1", Role::Human, None));
    for line in [
        "",
        "not json",
        "[]",
        r#"{"type":7}"#,
        r#"{"type":"user/message"}"#,
        r#"{"type":"user/message","data":{"content":"text"}}"#,
        r#"{"type":"user/message","data":{"content":[{"type":"text","text":1}]}}"#,
        r#"{"type":"user/message","data":{"message":{"content":[{"type":"text","text":"x"}]}}}"#,
    ] {
        assert_eq!(event_message(line), None, "{line}");
    }
}

#[test]
fn only_the_header_says_whether_a_session_is_delegated() {
    assert!(delegated("{\"delegationDepth\":1}\n"));
    assert!(delegated(" {\"delegationDepth\":2} \r\nmore"));
    assert!(!delegated("{\"delegationDepth\":0}"));
    assert!(!delegated("{\"delegationDepth\":-1}"));
    assert!(!delegated("{\"delegationDepth\":\"1\"}"));
    assert!(!delegated("{}\n{\"delegationDepth\":1}"));
    assert!(!delegated("not json\n{\"delegationDepth\":1}"));
    assert!(!delegated(""));
}

#[test]
fn a_session_holds_a_reply_once_something_was_said_in_it() {
    assert!(holds_a_reply(&session()));
    assert!(!holds_a_reply(&frame("{\"type\":\"session\"}\n")));
    assert!(!holds_a_reply(&frame(&format!("{{\"delegationDepth\":1}}\n{SECOND_FLUSH}"))));
    // A prompt is no reply yet.
    let prompted = r#"{"type":"session","delegationDepth":0}
{"type":"user/message","seq":1,"data":{"content":[{"type":"text","text":"q"}]}}"#;
    assert_eq!(parse_messages(prompted, 25).len(), 1);
    assert!(!holds_a_reply(&frame(prompted)));
    assert!(holds_a_reply(&frame(&format!("{prompted}\n{SECOND_FLUSH}{prompted}"))));
    assert!(!holds_a_reply(b"not zstd at all"));
    assert!(!holds_a_reply(b""));
}

#[test]
fn an_error_says_that_the_data_is_invalid() {
    assert_eq!(
        not_zstd("/s/x", "boom"),
        HostError::Io {
            kind: ErrorKind::InvalidData,
            message: "/s/x is not a zstd session: boom".to_owned(),
        }
    );
}

#[test]
fn a_line_feed_between_two_texts_keeps_their_messages_apart() {
    let first = FIRST_FLUSH.trim_end();
    for older in ["", "\n", "\r", "\r\n", "not json", first, FIRST_FLUSH, &format!("{first}\r")] {
        for newer in ["", "\n", SECOND_FLUSH, SECOND_FLUSH.trim_end()] {
            let mut expected = parse_messages(newer, usize::MAX);
            expected.extend(parse_messages(older, usize::MAX));
            assert_eq!(
                parse_messages(&format!("{older}\n{newer}"), usize::MAX),
                expected,
                "{older:?} {newer:?}"
            );
        }
    }
}

/// A frame with a raw block of 131072 bytes, and behind it a compressed block without literals
/// and with 32768 matches of the length that `code` stands for.
fn matches_of(code: u8, stream: Vec<u8>) -> Vec<u8> {
    let raw = 131_072usize;
    let mut block = vec![0, 255, 0, 1, 0x54, 0, 16, code];
    block.extend(stream);
    let mut bytes = vec![0x28, 0xb5, 0x2f, 0xfd, 0xa0, 0, 0x80, 0x03, 0];
    for (header, content) in [(8 * raw, vec![b'a'; raw]), (1 + 2 * 2 + 8 * block.len(), block)] {
        bytes.extend([header as u8, (header >> 8) as u8, (header >> 16) as u8]);
        bytes.extend(content);
    }
    bytes
}

#[test]
fn many_short_matches_come_back_whole() {
    let mut stream = vec![0; 65_536];
    stream.push(1);
    let bytes = matches_of(0, stream);
    assert_eq!(read_transcript(PATH, &bytes).expect("decodes"), "a".repeat(131_072 + 98_304));
}

#[test]
fn a_block_that_holds_too_much_is_an_error() {
    let mut stream = vec![0; 65_536];
    stream.push(1);
    let err = decode_frames("x", &matches_of(31, stream)).expect_err("refuses");
    assert!(err.message().starts_with("x is not a zstd session: "), "{err:?}");
}

#[test]
fn a_character_may_start_in_one_frame_and_end_in_the_next() {
    let text = "é".as_bytes();
    let mut bytes = compress_to_vec(&text[..1], CompressionLevel::Uncompressed);
    assert_eq!(read_transcript(PATH, &bytes).expect("decodes"), "\u{fffd}");
    bytes.extend(compress_to_vec(&text[1..], CompressionLevel::Uncompressed));
    assert_eq!(read_transcript(PATH, &bytes).expect("decodes"), "é");
}

#[test]
fn bytes_that_are_not_whole_frames_are_refused() {
    let whole = frame("one two three one two three");
    for n in 1..whole.len() {
        assert!(decode_frames(PATH, &whole[..n]).is_err(), "{n}");
        let mut behind = whole.clone();
        behind.extend(&whole[..n]);
        assert!(decode_frames(PATH, &behind).is_err(), "{n}");
    }
    let mut skippable = vec![0x50, 0x2a, 0x4d, 0x18, 1, 0, 0, 0, 7];
    assert!(decode_frames(PATH, &skippable).is_err());
    skippable[0] = 0x28;
    assert!(decode_frames(PATH, &skippable).is_err());
}

#[test]
fn long_texts_come_back_whole() {
    let text: String =
        (0..60_000u32).map(|n| format!("{} {}\n", n, n.wrapping_mul(2_654_435_761))).collect();
    for level in [CompressionLevel::Uncompressed, CompressionLevel::Fastest] {
        let mut bytes = compress_to_vec(text.as_bytes(), level);
        assert_eq!(read_transcript(PATH, &bytes).expect("decodes"), text);
        bytes.extend(frame("end"));
        assert_eq!(read_transcript(PATH, &bytes).expect("decodes"), format!("{text}end"));
    }
}
