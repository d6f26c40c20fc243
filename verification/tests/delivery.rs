//! Where feedback goes: the clipboard, an agent's pane, or nowhere.

use plannotator::base64::encode;
use plannotator::delivery::{
    agent_of, classify, error_code, error_message, listed_agent, message_or_stderr,
    osc52_sequence, pane_hosts_an_agent, parse_response, paste_outcome, written, Clipboard,
    Delivery, DeliveryError, Discard, HerdrAgent, Output, Turn,
};

fn envelope(code: &str, message: &str) -> String {
    format!(r#"{{"id":"cli:agent:prompt","error":{{"code":"{code}","message":"{message}"}}}}"#)
}

#[test]
fn the_clipboard_sequence_is_osc52_over_the_raw_utf8_bytes() {
    assert_eq!(osc52_sequence("hi"), "\x1b]52;c;aGk=\x07");
    assert_eq!(
        osc52_sequence("hi").as_bytes(),
        &[0x1b, 0x5d, 0x35, 0x32, 0x3b, 0x63, 0x3b, 0x61, 0x47, 0x6b, 0x3d, 0x07]
    );
    assert_eq!(osc52_sequence(""), "\x1b]52;c;\x07");
    assert_eq!(osc52_sequence("한글 · é"), "\x1b]52;c;7ZWc6riAIMK3IMOp\x07");
}

#[test]
fn an_oversized_copy_is_emitted_whole_rather_than_truncated() {
    // 74994 base64 bytes is the payload many terminals stop at; we never cut a copy to fit.
    let text = "a".repeat(80_000);
    let sequence = osc52_sequence(&text);
    assert!(sequence.len() > 74_994);
    assert!(sequence.starts_with("\x1b]52;c;") && sequence.ends_with('\x07'));
    assert!(sequence.contains(&encode(text.as_bytes())));
}

/// A stand-in for `herdr`: it refuses `agent prompt` with the given error, answers `agent get`
/// from the case, takes every paste, and records the arguments of each call.
fn send(
    target: &HerdrAgent,
    feedback: &str,
    prompt_error: &str,
    agent_get: (&str, bool),
) -> (Vec<Vec<String>>, Result<(), DeliveryError>) {
    let mut calls: Vec<Vec<String>> = Vec::new();
    let mut turn = target.deliver(feedback);
    loop {
        match turn {
            Turn::Write(text) => panic!("wrote {text:?}"),
            Turn::Done(outcome) => return (calls, outcome),
            Turn::Run(call) => {
                let args = call.args();
                let answer = match (args[0].as_str(), args[1].as_str()) {
                    ("agent", "prompt") => Output {
                        success: false,
                        stdout: Vec::new(),
                        stderr: prompt_error.as_bytes().to_vec(),
                    },
                    ("agent", "get") => Output {
                        success: agent_get.1,
                        stdout: agent_get.0.as_bytes().to_vec(),
                        stderr: Vec::new(),
                    },
                    ("pane", "run") => {
                        Output { success: true, stdout: Vec::new(), stderr: Vec::new() }
                    }
                    other => panic!("{other:?}"),
                };
                calls.push(args);
                turn = call.resume(Ok(answer));
            }
        }
    }
}

fn log(calls: &[Vec<String>]) -> String {
    calls.iter().map(|args| args.join(" ") + "\n").collect()
}

#[test]
fn an_agent_herdr_cannot_prompt_gets_the_feedback_pasted_into_its_pane() {
    // dsh reports its own lifecycle (`herdr pane report-agent`), so Herdr has no manifest to
    // drive it and refuses the prompt; the pane is the only way in.
    let target = HerdrAgent::new("herdr".into(), "w1:p1".into(), Some("dsh-tui".into()));
    let (calls, outcome) = send(
        &target,
        "feedback text",
        r#"{"error":{"code":"agent_not_ready","message":"agent w1:p1 is not ready for prompts"}}"#,
        (r#"{"result":{"agent":{"agent":"dsh-tui","pane_id":"w1:p1"}}}"#, true),
    );
    assert!(outcome.is_ok(), "{outcome:?}");
    assert_eq!(
        log(&calls),
        "agent prompt w1:p1 feedback text\nagent get w1:p1\npane run w1:p1 feedback text\n"
    );
}

#[test]
fn a_pane_without_an_agent_is_never_pasted_into() {
    // A shell would run the feedback as a command, so the refusal stands.
    let target = HerdrAgent::new("herdr".into(), "w1:p1".into(), None);
    let (calls, outcome) = send(
        &target,
        "feedback text",
        r#"{"error":{"code":"agent_not_found","message":"agent target w1:p1 not found"}}"#,
        (r#"{"error":{"code":"agent_not_found","message":"agent target w1:p1 not found"}}"#, false),
    );
    let err = outcome.expect_err("refused");
    assert!(matches!(err, DeliveryError::Unpromptable(_)), "{err:?}");
    assert_eq!(err.message(), "agent target w1:p1 not found");
    let calls = log(&calls);
    assert!(calls.contains("agent get w1:p1"), "{calls}");
    assert!(!calls.contains("pane run"), "{calls}");
}

#[test]
fn a_dialog_is_not_answered_by_pasting_feedback_into_it() {
    // Herdr refused because the agent is at a dialog: pasting would answer the dialog.
    let target = HerdrAgent::new("herdr".into(), "w1:p1".into(), Some("dsh-tui".into()));
    let (calls, outcome) = send(
        &target,
        "feedback text",
        r#"{"error":{"code":"agent_blocked","message":"agent w1:p1 is blocked"}}"#,
        (r#"{"result":{"agent":{"agent":"dsh-tui","pane_id":"w1:p1"}}}"#, true),
    );
    let err = outcome.expect_err("refused");
    assert!(matches!(&err, DeliveryError::Blocked(m) if m == "agent w1:p1 is blocked"), "{err:?}");
    assert_eq!(log(&calls), "agent prompt w1:p1 feedback text\n");
}

#[test]
fn success_is_ok_regardless_of_output() {
    assert!(parse_response(true, r#"{"id":"x","result":{}}"#, "").is_ok());
}

#[test]
fn blocked_agent_is_blocked_with_herdrs_message() {
    let err = parse_response(false, "", &envelope("agent_blocked", "agent w1:p1 is blocked")).unwrap_err();
    assert!(matches!(&err, DeliveryError::Blocked(m) if m == "agent w1:p1 is blocked"));
}

#[test]
fn an_agent_herdr_cannot_drive_is_a_refusal_before_typing() {
    // Herdr found the pane and typed nothing, so the caller may paste into the pane.
    for code in ["agent_not_found", "agent_not_ready"] {
        let err = parse_response(false, "", &envelope(code, "not ready for prompts")).unwrap_err();
        assert!(matches!(&err, DeliveryError::Unpromptable(m) if m == "not ready for prompts"), "{code}");
    }
}

#[test]
fn a_gone_pane_or_an_empty_prompt_is_unavailable() {
    for code in ["pane_not_found", "empty_agent_prompt"] {
        let err = parse_response(false, "", &envelope(code, "gone")).unwrap_err();
        assert!(matches!(err, DeliveryError::Unavailable(_)), "{code}");
    }
}

#[test]
fn an_agent_get_reply_names_the_agent_only_when_one_is_there() {
    let listed = br#"{"result":{"agent":{"agent":"dsh-tui","pane_id":"w1:p1"}}}"#;
    assert_eq!(listed_agent(listed).as_deref(), Some("dsh-tui"));
    let refused = br#"{"error":{"code":"agent_not_found","message":"none"}}"#;
    assert_eq!(listed_agent(refused), None);
    assert_eq!(listed_agent(br#"{"result":{"agent":{"agent":"  "}}}"#), None);
    assert_eq!(listed_agent(b"not json"), None);
}

#[test]
fn unknown_code_and_garbage_are_failures_that_keep_the_text() {
    let err = parse_response(false, "", &envelope("socket_error", "boom")).unwrap_err();
    assert!(matches!(&err, DeliveryError::Failed(e) if e.to_string() == "socket_error: boom"));
    let err = parse_response(false, "", "connection refused\n").unwrap_err();
    assert!(matches!(&err, DeliveryError::Failed(e) if e.to_string().contains("connection refused")));
}

#[test]
fn describe_names_the_agent_when_known() {
    let bin = String::from("herdr");
    assert_eq!(
        HerdrAgent::new(bin.clone(), "w1:p1".into(), Some("codex".into())).describe(),
        "codex in w1:p1"
    );
    assert_eq!(HerdrAgent::new(bin, "w1:p1".into(), None).describe(), "w1:p1");
}

#[test]
fn feedback_is_one_argument_whatever_it_holds() {
    let feedback = "line one\n\"quoted\" 100% & ready | café 中文";
    let target = HerdrAgent::new("fake herdr.exe".into(), "w1:p1".into(), Some("codex".into()));
    match target.deliver(feedback) {
        Turn::Run(call) => {
            assert_eq!(call.args(), ["agent", "prompt", "w1:p1", feedback]);
            let done = call.resume(Ok(Output { success: true, stdout: vec![0xff], stderr: vec![0xff] }));
            assert!(matches!(done, Turn::Done(Ok(()))), "{done:?}");
        }
        turn => panic!("{turn:?}"),
    }
}

#[test]
fn a_program_that_does_not_run_leaves_no_agent_to_send_to() {
    let target = HerdrAgent::new("/opt/herdr".into(), "w1:p1".into(), None);
    match target.deliver("text") {
        Turn::Run(call) => match call.resume(Err("No such file or directory".into())) {
            Turn::Done(Err(DeliveryError::Unavailable(message))) => {
                assert_eq!(message, "cannot run /opt/herdr: No such file or directory");
            }
            turn => panic!("{turn:?}"),
        },
        turn => panic!("{turn:?}"),
    }
}

#[test]
fn a_paste_comes_to_what_the_pane_made_of_it() {
    let ok = Output { success: true, stdout: Vec::new(), stderr: b"noise".to_vec() };
    assert!(paste_outcome("herdr", &Ok(ok)).is_ok());
    let refused = Output {
        success: false,
        stdout: Vec::new(),
        stderr: envelope("pane_not_found", "no pane w1:p1").into_bytes(),
    };
    assert_eq!(
        paste_outcome("herdr", &Ok(refused)),
        Err(DeliveryError::Failed("herdr pane run failed: no pane w1:p1".into()))
    );
    assert_eq!(
        paste_outcome("herdr", &Err("denied".into())),
        Err(DeliveryError::Unavailable("cannot run herdr: denied".into()))
    );
    // Bytes that are no text come out as replacement characters.
    let garbled = Output { success: false, stdout: Vec::new(), stderr: vec![b' ', b'a', 0xff, b'\n'] };
    assert_eq!(
        paste_outcome("herdr", &Ok(garbled)),
        Err(DeliveryError::Failed("herdr pane run failed: a\u{fffd}".into()))
    );
}

#[test]
fn only_a_reply_that_lists_an_agent_shows_one() {
    let listed = br#"{"result":{"agent":{"agent":"codex"}}}"#.to_vec();
    let output = |success: bool| Output { success, stdout: listed.clone(), stderr: Vec::new() };
    assert!(pane_hosts_an_agent(&Ok(output(true))));
    assert!(!pane_hosts_an_agent(&Ok(output(false))));
    assert!(!pane_hosts_an_agent(&Err("gone".into())));
    assert_eq!(listed_agent(br#"{"result":{"agent":{"agent":7}}}"#), None);
    assert_eq!(agent_of(Some(" codex\t".into())).as_deref(), Some("codex"));
    assert_eq!(agent_of(None), None);
}

#[test]
fn an_envelope_gives_its_code_and_message() {
    let stderr = format!("  {}\n", envelope("agent_blocked", "busy"));
    assert_eq!(error_code(&stderr).as_deref(), Some("agent_blocked"));
    assert_eq!(error_message(&stderr), "busy");
    assert_eq!(error_code(r#"{"error":{"message":"no code"}}"#), None);
    assert_eq!(error_message(r#" {"error":{"code":"c"}} "#), r#"{"error":{"code":"c"}}"#);
    assert_eq!(error_message(r#"{"error":{"message":""}}"#), "");
    assert_eq!(message_or_stderr(None, " raw \n"), "raw");
    assert_eq!(message_or_stderr(Some("said".into()), " raw \n"), "said");
}

#[test]
fn a_refusal_without_a_code_says_what_there_is() {
    assert_eq!(
        classify(None, String::new()),
        DeliveryError::Failed("herdr agent prompt failed: no output".into())
    );
    assert_eq!(
        classify(None, "boom".into()),
        DeliveryError::Failed("herdr agent prompt failed: boom".into())
    );
    assert_eq!(
        parse_response(false, "", " \n"),
        Err(DeliveryError::Failed("herdr agent prompt failed: no output".into()))
    );
}

#[test]
fn the_clipboard_is_written_once() {
    assert_eq!(Clipboard.describe(), "clipboard");
    assert!(!Clipboard.is_agent());
    assert_eq!(Clipboard.agent_host(), None);
    match Clipboard.deliver("hi") {
        Turn::Write(text) => assert_eq!(text, "\x1b]52;c;aGk=\x07"),
        turn => panic!("{turn:?}"),
    }
    assert!(written(Ok(())).is_ok());
    assert_eq!(written(Err("broken pipe".into())), Err(DeliveryError::Failed("broken pipe".into())));
}

#[test]
fn nothing_leaves_a_headless_run() {
    assert_eq!(Discard.describe(), "nowhere (headless)");
    assert!(!Discard.is_agent());
    assert_eq!(Discard.agent_host(), None);
    assert!(matches!(Discard.deliver("hi"), Turn::Done(Ok(()))));
}

#[test]
fn an_agent_acts_on_feedback() {
    let target = HerdrAgent::new("herdr".into(), "w1:p1".into(), Some("codex".into()));
    assert!(target.is_agent());
    assert_eq!(target.agent_host(), Some("codex"));
    assert_eq!(HerdrAgent::new("herdr".into(), "w1:p1".into(), None).agent_host(), None);
}
