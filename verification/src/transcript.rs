//! DeepSeek Harness (`dsh`) sessions.

use vstd::prelude::*;
use vstd::utf8::{decode_utf8, valid_utf8};
use crate::frame::framed;
use crate::host::{message_views, ErrorKind, HostError, Message, MessageView, Role};
use crate::json::{
    as_items, as_number, as_text, at, field, get, json, json_in_text, lemma_at,
    lemma_pointer_through, parse_text, plain_name, pointer_through, text_at, Json,
};
use crate::text::{
    blank, decimal, decimal_value, joined, lemma_decimal, lemma_first_line, lemma_joined_blank,
    lemma_joined_places, lemma_line_feed_ends_line, lemma_lines_append, lemma_trimmed_blank,
    lemma_trimmed_keeps, lemma_trimmed_without_return, lines, lines_of, lossy,
    optional_text, part_start, pieces, texts, to_decimal, trim, trimmed, utf8_lossy, white_space,
    without_return,
};
use crate::time::{iso_from_unix_ms, iso_text};
use crate::zstd::{decode_frame, zstd_frame};

verus! {

/// What `not_zstd` says.
pub open spec fn not_zstd_message(path: Seq<char>, err: Seq<char>) -> Seq<char> {
    path + " is not a zstd session: "@ + err
}

/// Whether `error` is the one for the file at `path` that does not decode, because of `err`.
pub open spec fn is_not_zstd(error: HostError, path: Seq<char>, err: Seq<char>) -> bool {
    error matches HostError::Io { kind, message } && kind == ErrorKind::InvalidData && message@
        == not_zstd_message(path, err)
}

/// The error for a file that does not decode: invalid data.
pub fn not_zstd(path: &str, err: &str) -> (error: HostError)
    ensures
        is_not_zstd(error, path@, err@),
{
    let mut message = path.to_owned();
    message.append(" is not a zstd session: ");
    message.append(err);
    HostError::Io { kind: ErrorKind::InvalidData, message }
}

/// What is said of a frame that ends where it starts, with `before` bytes left.
pub open spec fn no_progress_message(before: nat) -> Seq<char> {
    "a frame read none of its "@ + decimal(before) + " bytes"@
}

fn no_progress(before: usize) -> (message: String)
    ensures
        message@ == no_progress_message(before as nat),
{
    let mut message = "a frame read none of its ".to_owned();
    message.append(to_decimal(before as u64).as_str());
    message.append(" bytes");
    message
}

/// `content`, and behind it what `rest` decodes to.
pub open spec fn followed_by(
    content: Seq<u8>,
    rest: Result<Seq<u8>, Seq<char>>,
) -> Result<Seq<u8>, Seq<char>> {
    match rest {
        Ok(more) => Ok(content + more),
        Err(message) => Err(message),
    }
}

/// The contents of all the frames in `bytes`, one behind the other, or what is wrong with the
/// first of them that does not decode.
pub open spec fn frames(bytes: Seq<u8>) -> Result<Seq<u8>, Seq<char>>
    decreases bytes.len(),
{
    if bytes.len() == 0 {
        Ok(Seq::empty())
    } else {
        match zstd_frame(bytes) {
            Err(message) => Err(message),
            Ok((content, left)) => if left.len() < bytes.len() {
                followed_by(content, frames(left))
            } else {
                Err(no_progress_message(bytes.len()))
            },
        }
    }
}

/// The contents of all the frames in `bytes`, in order.
///
/// `dsh` appends one frame per flush. Whatever is appended to a file that decodes leaves the
/// text so far as it is and puts its own contents behind it.
/// Bytes that are not whole frames to the end are refused.
pub fn decode_frames(path: &str, bytes: &[u8]) -> (decoded: Result<Vec<u8>, HostError>)
    ensures
        match decoded {
            Ok(content) => {
                &&& framed(bytes@)
                &&& frames(bytes@) == Ok::<Seq<u8>, Seq<char>>(content@)
                &&& forall|more: Seq<u8>| #[trigger]
                    frames(bytes@ + more) == followed_by(content@, frames(more))
            },
            Err(error) => frames(bytes@) matches Err(err) && is_not_zstd(error, path@, err),
        },
{
    let mut content: Vec<u8> = Vec::new();
    let mut rest: &[u8] = bytes;
    assert forall|more: Seq<u8>| #[trigger]
        frames(bytes@ + more) == followed_by(content@, frames(rest@ + more)) by {
        if let Ok(tail) = frames(rest@ + more) {
            assert(content@ + tail == tail);
        }
    }
    while rest.len() > 0
        invariant
            framed(rest@) ==> framed(bytes@),
            forall|more: Seq<u8>| #[trigger]
                frames(bytes@ + more) == followed_by(content@, frames(rest@ + more)),
        decreases rest.len(),
    {
        let before: usize = rest.len();
        proof {
            assert(bytes@ + Seq::<u8>::empty() == bytes@);
            assert(rest@ + Seq::<u8>::empty() == rest@);
            assert(frames(bytes@ + Seq::<u8>::empty()) == followed_by(content@, frames(rest@)));
        }
        let (mut part, left) = match decode_frame(rest) {
            Ok(frame) => frame,
            Err(err) => return Err(not_zstd(path, err.as_str())),
        };
        if left.len() == before {
            return Err(not_zstd(path, no_progress(before).as_str()));
        }
        let ghost old_content = content@;
        let ghost old_rest = rest@;
        let ghost new_part = part@;
        content.append(&mut part);
        rest = left;
        assert forall|more: Seq<u8>| #[trigger]
            frames(bytes@ + more) == followed_by(content@, frames(rest@ + more)) by {
            let head = old_rest.take(old_rest.len() - left@.len());
            assert(old_rest + more == head + (left@ + more));
            assert(zstd_frame(head + (left@ + more)) == Ok::<(Seq<u8>, Seq<u8>), Seq<char>>(
                (new_part, left@ + more),
            ));
            assert(frames(old_rest + more) == followed_by(new_part, frames(left@ + more)));
            if let Ok(tail) = frames(left@ + more) {
                assert(old_content + (new_part + tail) == (old_content + new_part) + tail);
            }
        }
    }
    proof {
        assert forall|more: Seq<u8>| #[trigger]
            frames(bytes@ + more) == followed_by(content@, frames(more)) by {
            assert(rest@ + more == more);
        }
        assert(bytes@ + Seq::<u8>::empty() == bytes@);
        assert(frames(bytes@ + Seq::<u8>::empty()) == Ok::<Seq<u8>, Seq<char>>(content@)) by {
            assert(content@ + Seq::<u8>::empty() == content@);
        }
    }
    Ok(content)
}

/// The transcript as JSONL text: every frame in the file, in order. A character may start in
/// one frame and end in the next.
pub fn read_transcript(path: &str, bytes: &[u8]) -> (text: Result<String, HostError>)
    ensures
        match text {
            Ok(jsonl) => {
                &&& framed(bytes@)
                &&& frames(bytes@) matches Ok(content)
                &&& jsonl@ == utf8_lossy(content)
                &&& valid_utf8(content) ==> jsonl@ == decode_utf8(content)
                &&& forall|more: Seq<u8>| #[trigger]
                    frames(bytes@ + more) == followed_by(content, frames(more))
            },
            Err(error) => frames(bytes@) matches Err(err) && is_not_zstd(error, path@, err),
        },
{
    match decode_frames(path, bytes) {
        Ok(content) => Ok(lossy(content.as_slice())),
        Err(error) => Err(error),
    }
}

/// One block of an event's content.
#[derive(Debug)]
pub struct Block {
    pub kind: Option<String>,
    pub text: Option<String>,
}

/// The view of a `Block`.
pub struct BlockView {
    pub kind: Option<Seq<char>>,
    pub text: Option<Seq<char>>,
}

impl View for Block {
    type V = BlockView;

    open spec fn view(&self) -> BlockView {
        BlockView { kind: optional_text(self.kind), text: optional_text(self.text) }
    }
}

/// The views of a list of blocks.
pub open spec fn block_views(blocks: Seq<Block>) -> Seq<BlockView> {
    blocks.map_values(|b: Block| b@)
}

/// The views of a list of blocks that may be missing.
pub open spec fn optional_blocks(blocks: Option<Vec<Block>>) -> Option<Seq<BlockView>> {
    match blocks {
        Some(list) => Some(block_views(list@)),
        None => None,
    }
}

/// What a line of a transcript says, as far as messages go.
#[derive(Debug)]
pub struct Event {
    /// `type`.
    pub kind: Option<String>,
    /// `data.message.content`: where a reply has its blocks.
    pub reply: Option<Vec<Block>>,
    /// `data.content`: where a prompt has its blocks.
    pub prompt: Option<Vec<Block>>,
    /// `data.message.id`.
    pub id: Option<String>,
    /// `seq`.
    pub seq: Option<u64>,
    /// `time`, in milliseconds since 1970.
    pub time: Option<u64>,
}

/// The view of an `Event`.
pub struct EventView {
    pub kind: Option<Seq<char>>,
    pub reply: Option<Seq<BlockView>>,
    pub prompt: Option<Seq<BlockView>>,
    pub id: Option<Seq<char>>,
    pub seq: Option<u64>,
    pub time: Option<u64>,
}

impl View for Event {
    type V = EventView;

    open spec fn view(&self) -> EventView {
        EventView {
            kind: optional_text(self.kind),
            reply: optional_blocks(self.reply),
            prompt: optional_blocks(self.prompt),
            id: optional_text(self.id),
            seq: self.seq,
            time: self.time,
        }
    }
}

/// The block that `value` describes.
pub open spec fn block_in(value: Json) -> BlockView {
    BlockView {
        kind: as_text(field(value, "type"@)),
        text: as_text(field(value, "text"@)),
    }
}

/// The blocks that `value` lists, where it is an array.
pub open spec fn blocks_in(value: Option<Json>) -> Option<Seq<BlockView>> {
    match as_items(value) {
        Some(items) => Some(items.map_values(|item: Json| block_in(item))),
        None => None,
    }
}

/// The event that `value` describes.
pub open spec fn event_in(value: Json) -> EventView {
    EventView {
        kind: as_text(field(value, "type"@)),
        reply: blocks_in(at(value, seq!["data"@, "message"@, "content"@])),
        prompt: blocks_in(at(value, seq!["data"@, "content"@])),
        id: as_text(at(value, seq!["data"@, "message"@, "id"@])),
        seq: as_number(field(value, "seq"@)),
        time: as_number(field(value, "time"@)),
    }
}

fn text_field(value: &serde_json::Value, name: &str) -> (text: Option<String>)
    ensures
        optional_text(text) == as_text(field(json(*value), name@)),
{
    match get(value, name) {
        Some(inner) => match inner.as_str() {
            Some(s) => Some(s.to_owned()),
            None => None,
        },
        None => None,
    }
}

fn number_field(value: &serde_json::Value, name: &str) -> (number: Option<u64>)
    ensures
        number == as_number(field(json(*value), name@)),
{
    match get(value, name) {
        Some(inner) => inner.as_u64(),
        None => None,
    }
}

fn read_blocks(value: Option<&serde_json::Value>) -> (blocks: Option<Vec<Block>>)
    ensures
        optional_blocks(blocks) == blocks_in(
            match value {
                Some(v) => Some(json(*v)),
                None => None,
            },
        ),
{
    let items = match value {
        Some(v) => match v.as_array() {
            Some(items) => items,
            None => return None,
        },
        None => return None,
    };
    let ghost all = items@.map_values(|v: serde_json::Value| json(v)).map_values(
        |item: Json| block_in(item),
    );
    let mut blocks: Vec<Block> = Vec::new();
    let mut i: usize = 0;
    while i < items.len()
        invariant
            i <= items.len(),
            all == items@.map_values(|v: serde_json::Value| json(v)).map_values(
                |item: Json| block_in(item),
            ),
            block_views(blocks@) == all.take(i as int),
        decreases items.len() - i,
    {
        let ghost before = block_views(blocks@);
        let block = Block {
            kind: text_field(&items[i], "type"),
            text: text_field(&items[i], "text"),
        };
        assert(block@ == all[i as int]);
        blocks.push(block);
        assert(block_views(blocks@) == before.push(all[i as int]));
        i += 1;
    }
    assert(all.take(i as int) == all);
    Some(blocks)
}

proof fn lemma_event_pointers()
    ensures
        "/data/message/content"@ == pointer_through(seq!["data"@, "message"@, "content"@]),
        "/data/content"@ == pointer_through(seq!["data"@, "content"@]),
        "/data/message/id"@ == pointer_through(seq!["data"@, "message"@, "id"@]),
        plain_name("data"@),
        plain_name("message"@),
        plain_name("content"@),
        plain_name("id"@),
{
    reveal_strlit("/data/message/content");
    reveal_strlit("/data/content");
    reveal_strlit("/data/message/id");
    reveal_strlit("data");
    reveal_strlit("message");
    reveal_strlit("content");
    reveal_strlit("id");
    reveal_with_fuel(pointer_through, 4);
    assert("/data/message/content"@ == pointer_through(
        seq!["data"@, "message"@, "content"@],
    ));
    assert("/data/content"@ == pointer_through(seq!["data"@, "content"@]));
    assert("/data/message/id"@ == pointer_through(seq!["data"@, "message"@, "id"@]));
}

/// What of `value` decides about messages.
fn read_event(value: &serde_json::Value) -> (event: Event)
    ensures
        event@ == event_in(json(*value)),
{
    proof {
        lemma_event_pointers();
        lemma_pointer_through(seq!["data"@, "message"@, "content"@]);
        lemma_pointer_through(seq!["data"@, "content"@]);
        lemma_pointer_through(seq!["data"@, "message"@, "id"@]);
    }
    Event {
        kind: text_field(value, "type"),
        reply: read_blocks(value.pointer("/data/message/content")),
        prompt: read_blocks(value.pointer("/data/content")),
        id: text_at(value, "/data/message/id"),
        seq: number_field(value, "seq"),
        time: number_field(value, "time"),
    }
}

/// Whether `block` is one that carries text.
pub open spec fn text_block(block: BlockView) -> bool {
    block.kind == Some("text"@) && block.text is Some
}

/// The texts of those of `blocks` that carry text.
pub open spec fn block_texts(blocks: Seq<BlockView>) -> Seq<Seq<char>> {
    blocks.filter(|block: BlockView| text_block(block)).map_values(
        |block: BlockView| block.text->0,
    )
}

/// Who speaks in `event`, and in which blocks, where it is an event that messages come in.
pub open spec fn speech(event: EventView) -> Option<(Role, Seq<BlockView>)> {
    if event.kind == Some("assistant/message"@) {
        match event.reply {
            Some(blocks) => Some((Role::Assistant, blocks)),
            None => None,
        }
    } else if event.kind == Some("user/message"@) {
        match event.prompt {
            Some(blocks) => Some((Role::Human, blocks)),
            None => None,
        }
    } else {
        None
    }
}

/// What the message in `event` is called: by its own id, else by the event's number.
pub open spec fn message_id(event: EventView) -> Seq<char> {
    match event.id {
        Some(id) => id,
        None => "seq-"@ + decimal(
            match event.seq {
                Some(seq) => seq as nat,
                None => 0,
            },
        ),
    }
}

/// The message in `event`, where it says anything.
pub open spec fn message_in(event: EventView) -> Option<MessageView> {
    match speech(event) {
        Some((role, blocks)) => if blank(joined(block_texts(blocks), '\n')) {
            None
        } else {
            Some(
                MessageView {
                    id: message_id(event),
                    role,
                    text: joined(block_texts(blocks), '\n'),
                    at: match event.time {
                        Some(ms) => Some(iso_text(ms as nat)),
                        None => None,
                    },
                },
            )
        },
        None => None,
    }
}

/// The view of an optional message.
pub open spec fn optional_message(message: Option<Message>) -> Option<MessageView> {
    match message {
        Some(m) => Some(m@),
        None => None,
    }
}

fn is_text(text: &Option<String>, literal: &str) -> (same: bool)
    ensures
        same == (optional_text(*text) == Some(literal@)),
{
    match text {
        Some(s) => *s.as_str() == *literal,
        None => false,
    }
}

fn join_texts(blocks: &Vec<Block>) -> (text: String)
    ensures
        text@ == joined(block_texts(block_views(blocks@)), '\n'),
{
    let mut text = String::new();
    let mut first = true;
    let mut i: usize = 0;
    let ghost all = block_views(blocks@);
    proof {
        reveal(Seq::filter);
        reveal_strlit("\n");
        assert(all.take(0).filter(|block: BlockView| text_block(block)) == Seq::<
            BlockView,
        >::empty());
        assert(block_texts(all.take(0)) == Seq::<Seq<char>>::empty());
    }
    while i < blocks.len()
        invariant
            i <= blocks.len(),
            all == block_views(blocks@),
            first == (block_texts(all.take(i as int)).len() == 0),
            text@ == joined(block_texts(all.take(i as int)), '\n'),
            "\n"@ == seq!['\n'],
        decreases blocks.len() - i,
    {
        let ghost start = text@;
        let ghost before = block_texts(all.take(i as int));
        assert(all[i as int] == blocks@[i as int]@);
        proof {
            reveal(Seq::filter);
            assert(all.take(i + 1).drop_last() == all.take(i as int));
        }
        if is_text(&blocks[i].kind, "text") {
            match &blocks[i].text {
                Some(part) => {
                    assert(block_texts(all.take(i + 1)) == before.push(part@));
                    assert(before.push(part@).drop_last() == before);
                    if !first {
                        text.append("\n");
                    }
                    text.append(part.as_str());
                    first = false;
                    assert(text@ == joined(before.push(part@), '\n'));
                },
                None => {},
            }
        }
        i += 1;
    }
    assert(all.take(i as int) == all);
    text
}

/// The message in `event`: every text block of an event that carries text, with reasoning and
/// tool blocks left out.
pub fn message_of(event: &Event) -> (message: Option<Message>)
    ensures
        optional_message(message) == message_in(event@),
{
    proof {
        reveal_strlit("assistant/message");
        reveal_strlit("user/message");
        assert("assistant/message"@.len() != "user/message"@.len());
    }
    let assistant = is_text(&event.kind, "assistant/message");
    let (role, blocks) = if assistant {
        match &event.reply {
            Some(blocks) => (Role::Assistant, blocks),
            None => return None,
        }
    } else if is_text(&event.kind, "user/message") {
        match &event.prompt {
            Some(blocks) => (Role::Human, blocks),
            None => return None,
        }
    } else {
        return None;
    };
    let text = join_texts(blocks);
    proof {
        lemma_trimmed_blank(text@);
    }
    if trim(text.as_str()).as_str().is_empty() {
        return None;
    }
    let id = match &event.id {
        Some(id) => id.clone(),
        None => {
            let mut id = "seq-".to_owned();
            id.append(to_decimal(match event.seq {
                Some(seq) => seq,
                None => 0,
            }).as_str());
            id
        },
    };
    let at = match event.time {
        Some(ms) => Some(iso_from_unix_ms(ms)),
        None => None,
    };
    Some(Message { id, role, text, at })
}

/// The message on `line` of a transcript. There is none on a blank line.
pub open spec fn message_on(line: Seq<char>) -> Option<MessageView> {
    if trimmed(line).len() == 0 {
        None
    } else {
        match json_in_text(trimmed(line)) {
            Some(value) => message_in(event_in(value)),
            None => None,
        }
    }
}

/// The message on `line` of a transcript, where there is one.
pub fn event_message(line: &str) -> (message: Option<Message>)
    ensures
        optional_message(message) == message_on(line@),
{
    let text = trim(line);
    if text.as_str().is_empty() {
        return None;
    }
    match parse_text(text.as_str()) {
        Some(value) => message_of(&read_event(&value)),
        None => None,
    }
}

/// The messages on `lines`, in order.
pub open spec fn messages_on(lines: Seq<Seq<char>>) -> Seq<MessageView>
    decreases lines.len(),
{
    if lines.len() == 0 {
        Seq::empty()
    } else {
        match message_on(lines.last()) {
            Some(message) => messages_on(lines.drop_last()).push(message),
            None => messages_on(lines.drop_last()),
        }
    }
}

/// The newest `n` of `messages`, newest first.
pub open spec fn newest(messages: Seq<MessageView>, n: nat) -> Seq<MessageView> {
    messages.reverse().take(
        if n < messages.len() {
            n as int
        } else {
            messages.len() as int
        },
    )
}

/// The newest `n` messages, newest first. One event is one message.
pub fn parse_messages(jsonl: &str, n: usize) -> (messages: Vec<Message>)
    ensures
        message_views(messages@) == newest(messages_on(lines_of(jsonl@)), n as nat),
{
    let lines = lines(jsonl);
    let ghost seen = lines_of(jsonl@);
    let ghost all = messages_on(seen);
    let mut messages: Vec<Message> = Vec::new();
    let mut i: usize = lines.len();
    assert(seen.take(i as int) == seen);
    assert(all == messages_on(seen.take(i as int)) + message_views(messages@).reverse());
    while i > 0 && messages.len() < n
        invariant
            i <= lines.len(),
            messages.len() <= n,
            texts(lines@) == seen,
            all == messages_on(seen.take(i as int)) + message_views(messages@).reverse(),
        decreases i,
    {
        let ghost before = message_views(messages@);
        assert(seen.take(i as int).drop_last() == seen.take(i - 1));
        assert(texts(lines@)[i - 1] == lines@[i - 1]@);
        i -= 1;
        match event_message(lines[i].as_str()) {
            Some(message) => {
                let ghost view = message@;
                messages.push(message);
                assert(message_views(messages@) == before.push(view));
                assert(messages_on(seen.take(i as int)).push(view) + before.reverse()
                    == messages_on(seen.take(i as int)) + before.push(view).reverse());
            },
            None => {},
        }
    }
    proof {
        let got = message_views(messages@);
        let rest = messages_on(seen.take(i as int));
        if i == 0 {
            assert(rest.len() == 0);
        }
        assert(all.len() == rest.len() + got.len());
        assert forall|k: int| 0 <= k < got.len() implies all.reverse()[k] == got[k] by {
            assert(all[all.len() - 1 - k] == got.reverse()[got.len() - 1 - k]);
        }
        assert(got == newest(all, n as nat));
    }
    messages
}

/// Whether the header of a transcript gives it a delegation depth above zero.
pub open spec fn delegated_text(jsonl: Seq<char>) -> bool {
    &&& lines_of(jsonl).len() > 0
    &&& json_in_text(trimmed(lines_of(jsonl).first())) matches Some(header)
    &&& as_number(field(header, "delegationDepth"@)) matches Some(depth)
    &&& depth > 0
}

/// Whether the session belongs to a subagent: its header has a delegation depth above zero.
pub fn delegated(jsonl: &str) -> (r: bool)
    ensures
        r == delegated_text(jsonl@),
{
    let lines = lines(jsonl);
    if lines.len() == 0 {
        assert(texts(lines@).len() == 0);
        return false;
    }
    assert(texts(lines@)[0] == lines@[0]@);
    match parse_text(trim(lines[0].as_str()).as_str()) {
        Some(header) => match number_field(&header, "delegationDepth") {
            Some(depth) => depth > 0,
            None => false,
        },
        None => false,
    }
}

/// Whether a reply is among `messages`.
pub open spec fn replied(messages: Seq<MessageView>) -> bool {
    exists|i: int| 0 <= i < messages.len() && (#[trigger] messages[i]).role == Role::Assistant
}

/// Whether `jsonl` is a whole session with a reply in it, rather than a subagent's.
pub open spec fn reply_text(jsonl: Seq<char>) -> bool {
    !delegated_text(jsonl) && replied(messages_on(lines_of(jsonl)))
}

/// Whether `bytes` decode to a whole session with a reply in it.
pub open spec fn reply_bytes(bytes: Seq<u8>) -> bool {
    frames(bytes) matches Ok(content) && reply_text(utf8_lossy(content))
}

fn has_reply(jsonl: &str) -> (r: bool)
    ensures
        r == replied(messages_on(lines_of(jsonl@))),
{
    let lines = lines(jsonl);
    let ghost seen = lines_of(jsonl@);
    let mut i: usize = 0;
    while i < lines.len()
        invariant
            i <= lines.len(),
            seen == lines_of(jsonl@),
            texts(lines@) == seen,
            !replied(messages_on(seen.take(i as int))),
        decreases lines.len() - i,
    {
        let ghost before = messages_on(seen.take(i as int));
        let ghost after = messages_on(seen.take(i + 1));
        assert(seen.take(i + 1).drop_last() == seen.take(i as int));
        assert(texts(lines@)[i as int] == lines@[i as int]@);
        let role = match event_message(lines[i].as_str()) {
            Some(message) => Some(message.role),
            None => None,
        };
        match role {
            Some(Role::Assistant) => {
                proof {
                    let rest = messages_on(seen.skip(i + 1));
                    lemma_messages_append(seen.take(i + 1), seen.skip(i + 1));
                    assert(seen.take(i + 1) + seen.skip(i + 1) == seen);
                    assert(after.last().role == Role::Assistant);
                    assert((after + rest)[after.len() - 1] == after.last());
                }
                return true;
            },
            _ => {},
        }
        proof {
            if replied(after) {
                let k = choose|k: int|
                    0 <= k < after.len() && (#[trigger] after[k]).role == Role::Assistant;
                assert(before[k] == after[k]);
            }
        }
        i += 1;
    }
    assert(seen.take(i as int) == seen);
    false
}

/// Whether a file of these bytes is a whole session with a reply, rather than a subagent's, one
/// that was only opened or prompted, or no session at all.
pub fn holds_a_reply(bytes: &[u8]) -> (r: bool)
    ensures
        r == reply_bytes(bytes@),
{
    match read_transcript("", bytes) {
        Ok(text) => !delegated(text.as_str()) && has_reply(text.as_str()),
        Err(_) => false,
    }
}

/// The view of an event has all that the event has, and its blocks one by one.
pub proof fn lemma_event_view(event: Event, blocks: Seq<Block>, i: int)
    requires
        0 <= i < blocks.len(),
    ensures
        event@.kind == optional_text(event.kind),
        event@.id == optional_text(event.id),
        event@.seq == event.seq,
        event@.time == event.time,
        event@.reply is Some <==> event.reply is Some,
        event@.prompt is Some <==> event.prompt is Some,
        event.reply matches Some(list) ==> event@.reply == Some(block_views(list@)),
        event.prompt matches Some(list) ==> event@.prompt == Some(block_views(list@)),
        block_views(blocks).len() == blocks.len(),
        block_views(blocks)[i].kind == optional_text(blocks[i].kind),
        block_views(blocks)[i].text == optional_text(blocks[i].text),
{
}

/// Blocks that carry no text, such as reasoning and tool calls, are no part of a message: with
/// or without them, the texts are the same.
pub proof fn lemma_other_blocks_are_left_out(blocks: Seq<BlockView>)
    ensures
        block_texts(blocks.filter(|block: BlockView| text_block(block))) == block_texts(blocks),
{
    let keep = |block: BlockView| text_block(block);
    lemma_filter_twice(blocks, keep);
}

proof fn lemma_filter_twice(blocks: Seq<BlockView>, keep: spec_fn(BlockView) -> bool)
    ensures
        blocks.filter(keep).filter(keep) == blocks.filter(keep),
    decreases blocks.len(),
{
    reveal(Seq::filter);
    if blocks.len() > 0 {
        lemma_filter_twice(blocks.drop_last(), keep);
        if keep(blocks.last()) {
            let rest = blocks.drop_last().filter(keep);
            assert(rest.push(blocks.last()).drop_last() == rest);
        }
    }
}

/// An event whose blocks all carry no text, such as a step that is only reasoning, is no
/// message.
pub proof fn lemma_only_other_blocks_is_no_message(event: EventView)
    requires
        speech(event) matches Some((_, blocks)) ==> forall|i: int|
            0 <= i < blocks.len() ==> !text_block(#[trigger] blocks[i]),
    ensures
        message_in(event) is None,
{
    if let Some((_, blocks)) = speech(event) {
        let keep = |block: BlockView| text_block(block);
        lemma_filter_none(blocks, keep);
        assert(block_texts(blocks) == Seq::<Seq<char>>::empty());
    }
}

proof fn lemma_filter_none(blocks: Seq<BlockView>, keep: spec_fn(BlockView) -> bool)
    requires
        forall|i: int| 0 <= i < blocks.len() ==> !keep(#[trigger] blocks[i]),
    ensures
        blocks.filter(keep) == Seq::<BlockView>::empty(),
    decreases blocks.len(),
{
    reveal(Seq::filter);
    if blocks.len() > 0 {
        lemma_filter_none(blocks.drop_last(), keep);
        assert(!keep(blocks[blocks.len() - 1]));
    }
}

/// Lines appended to a transcript add their messages behind those that were there.
pub proof fn lemma_messages_append(lines: Seq<Seq<char>>, more: Seq<Seq<char>>)
    ensures
        messages_on(lines + more) == messages_on(lines) + messages_on(more),
    decreases more.len(),
{
    if more.len() == 0 {
        assert(lines + more == lines);
        assert(messages_on(lines) + messages_on(more) == messages_on(lines));
    } else {
        lemma_messages_append(lines, more.drop_last());
        assert((lines + more).drop_last() == lines + more.drop_last());
        assert((lines + more).last() == more.last());
        if let Some(message) = message_on(more.last()) {
            assert(messages_on(lines) + messages_on(more.drop_last()).push(message) == (
            messages_on(lines) + messages_on(more.drop_last())).push(message));
        }
    }
}

/// One event is one message at most, and every message says something.
pub proof fn lemma_messages_say_something(lines: Seq<Seq<char>>)
    ensures
        messages_on(lines).len() <= lines.len(),
        forall|i: int|
            0 <= i < messages_on(lines).len() ==> !blank((#[trigger] messages_on(lines)[i]).text),
    decreases lines.len(),
{
    if lines.len() > 0 {
        lemma_messages_say_something(lines.drop_last());
        let before = messages_on(lines.drop_last());
        assert forall|i: int| 0 <= i < messages_on(lines).len() implies !blank(
            (#[trigger] messages_on(lines)[i]).text,
        ) by {
            if i < before.len() {
                assert(messages_on(lines)[i] == before[i]);
            }
        }
    }
}

/// `n` caps the total, counting from the newest message: a smaller `n` gives the start of what
/// a larger one gives.
pub proof fn lemma_newest_caps(messages: Seq<MessageView>, n: nat, larger: nat)
    requires
        n <= larger,
    ensures
        newest(messages, n).len() == if n < messages.len() {
            n
        } else {
            messages.len()
        },
        newest(messages, n).is_prefix_of(newest(messages, larger)),
        forall|i: int|
            0 <= i < newest(messages, n).len() ==> newest(messages, n)[i]
                == messages[messages.len() - 1 - i],
{
}

/// The messages of a flush come before all that a session held when it was written: `dsh` ends
/// each flush with a line feed, and appends the next.
pub proof fn lemma_flush_comes_first(jsonl: Seq<char>, flush: Seq<char>, n: nat)
    requires
        jsonl.len() == 0 || jsonl.last() == '\n',
    ensures
        ({
            let older = messages_on(lines_of(jsonl));
            let newer = messages_on(lines_of(flush));
            &&& messages_on(lines_of(jsonl + flush)) == older + newer
            &&& newest(messages_on(lines_of(jsonl + flush)), n) == newest(newer, n) + newest(
                older,
                if n > newer.len() {
                    (n - newer.len()) as nat
                } else {
                    0
                },
            )
        }),
{
    lemma_lines_append(jsonl, flush);
    lemma_messages_append(lines_of(jsonl), lines_of(flush));
}

/// Wherever the next event starts on a line of its own, its messages come before all that the
/// session held, and leave those as they were.
pub proof fn lemma_next_line_comes_first(jsonl: Seq<char>, more: Seq<char>, n: nat)
    ensures
        ({
            let older = messages_on(lines_of(jsonl));
            let newer = messages_on(lines_of(more));
            &&& messages_on(lines_of(jsonl.push('\n') + more)) == older + newer
            &&& newest(messages_on(lines_of(jsonl.push('\n') + more)), n) == newest(newer, n)
                + newest(
                older,
                if n > newer.len() {
                    (n - newer.len()) as nat
                } else {
                    0
                },
            )
        }),
{
    lemma_flush_comes_first(jsonl.push('\n'), more, n);
    lemma_line_feed_ends_line(jsonl);
    let ended = lines_of(jsonl.push('\n'));
    let last = pieces(jsonl, '\n').last();
    lemma_trimmed_without_return(last);
    if last.len() == 0 {
        assert(without_return(last).len() == 0);
        assert(trimmed(without_return(last)).len() == 0);
        assert(ended.drop_last() == lines_of(jsonl));
    } else {
        assert(lines_of(jsonl).drop_last() == ended.drop_last());
        assert(lines_of(jsonl).last() == last);
    }
    assert(ended.last() == without_return(last));
    assert(messages_on(ended) == messages_on(lines_of(jsonl)));
}

proof fn lemma_texts_of_text_blocks(blocks: Seq<BlockView>, said: Seq<Seq<char>>)
    requires
        blocks.len() == said.len(),
        forall|i: int|
            0 <= i < blocks.len() ==> (#[trigger] blocks[i]).kind == Some("text"@) && blocks[i].text
                == Some(said[i]),
    ensures
        block_texts(blocks) == said,
    decreases blocks.len(),
{
    reveal(Seq::filter);
    let keep = |block: BlockView| text_block(block);
    if blocks.len() > 0 {
        let front = blocks.drop_last();
        assert forall|i: int| 0 <= i < front.len() implies (#[trigger] front[i]).kind == Some(
            "text"@,
        ) && front[i].text == Some(said.drop_last()[i]) by {
            assert(blocks[i].kind == Some("text"@));
        }
        lemma_texts_of_text_blocks(front, said.drop_last());
        assert(blocks[blocks.len() - 1].kind == Some("text"@));
        assert(keep(blocks.last()));
        assert(block_texts(blocks) == block_texts(front).push(said.last()));
        assert(said == said.drop_last().push(said.last()));
    } else {
        assert(block_texts(blocks) == said);
    }
}

/// A message says every text block of its event, whole: the `i`th stands behind those before it
/// and one line feed for each of them, and nothing is added or lost. With one text block it is
/// that block's text, line feeds and all. There is a message exactly where one of the texts has
/// a character that is no white space.
pub proof fn lemma_message_is_whole(event: EventView, said: Seq<Seq<char>>)
    requires
        ({
            ||| event.kind == Some("assistant/message"@) && event.reply is Some
            ||| event.kind == Some("user/message"@) && event.prompt is Some
        }),
        ({
            let blocks = if event.kind == Some("assistant/message"@) {
                event.reply->0
            } else {
                event.prompt->0
            };
            &&& blocks.len() == said.len()
            &&& forall|i: int|
                0 <= i < said.len() ==> blocks[i].kind == Some("text"@) && blocks[i].text == Some(
                    #[trigger] said[i],
                )
        }),
    ensures
        message_in(event) is Some <==> exists|i: int, k: int|
            0 <= i < said.len() && 0 <= k < said[i].len() && !white_space(#[trigger] said[i][k]),
        message_in(event) matches Some(message) ==> {
            &&& said.len() == 1 ==> message.text == said[0]
            &&& message.text.len() + 1 == part_start(said, said.len() as int)
            &&& forall|i: int|
                0 <= i < said.len() ==> message.text.subrange(
                    part_start(said, i),
                    part_start(said, i) + said[i].len(),
                ) == #[trigger] said[i]
            &&& forall|i: int|
                0 < i < said.len() ==> message.text[#[trigger] part_start(said, i) - 1] == '\n'
        },
{
    reveal_strlit("assistant/message");
    reveal_strlit("user/message");
    assert("assistant/message"@.len() != "user/message"@.len());
    let blocks = if event.kind == Some("assistant/message"@) {
        event.reply->0
    } else {
        event.prompt->0
    };
    assert forall|i: int| 0 <= i < blocks.len() implies (#[trigger] blocks[i]).kind == Some(
        "text"@,
    ) && blocks[i].text == Some(said[i]) by {
        assert(said[i] == said[i]);
    }
    lemma_texts_of_text_blocks(blocks, said);
    lemma_joined_blank(said, '\n');
    let all = joined(said, '\n');
    assert(blank(all) <==> forall|i: int, k: int|
        0 <= i < said.len() && 0 <= k < said[i].len() ==> white_space(#[trigger] said[i][k])) by {
        if blank(all) {
            assert forall|i: int, k: int|
                0 <= i < said.len() && 0 <= k < said[i].len() implies white_space(
                #[trigger] said[i][k],
            ) by {
                assert(blank(said[i]));
            }
        } else {
            let i = choose|i: int| 0 <= i < said.len() && !blank(#[trigger] said[i]);
            let k = choose|k: int| 0 <= k < said[i].len() && !white_space(#[trigger] said[i][k]);
            assert(!white_space(said[i][k]));
        }
    }
    if said.len() > 0 {
        lemma_joined_places(said, '\n');
        assert forall|i: int| 0 < i < said.len() implies all[#[trigger] part_start(said, i) - 1]
            == '\n' by {
            assert(said[i] == said[i]);
        }
    }
}

/// A block of another kind, or one without text, changes nothing wherever it stands: the message
/// is the one without it.
pub proof fn lemma_other_block_changes_nothing(
    event: EventView,
    before: Seq<BlockView>,
    block: BlockView,
    behind: Seq<BlockView>,
)
    requires
        block.kind != Some("text"@) || block.text is None,
    ensures
        message_in(EventView { reply: Some(before + seq![block] + behind), ..event })
            == message_in(EventView { reply: Some(before + behind), ..event }),
        message_in(EventView { prompt: Some(before + seq![block] + behind), ..event })
            == message_in(EventView { prompt: Some(before + behind), ..event }),
{
    let keep = |b: BlockView| text_block(b);
    Seq::filter_distributes_over_add(before, seq![block], keep);
    Seq::filter_distributes_over_add(before + seq![block], behind, keep);
    Seq::filter_distributes_over_add(before, behind, keep);
    lemma_filter_none(seq![block], keep);
    assert(before.filter(keep) + Seq::<BlockView>::empty() == before.filter(keep));
    assert(block_texts(before + seq![block] + behind) == block_texts(before + behind));
}

/// A reply is the assistant's and a prompt the human's; no other event is a message, nor is one
/// without its blocks. A message goes by its own id, else by the event's number in decimal, and
/// has a time exactly where the event has one.
pub proof fn lemma_message_comes_from(event: EventView)
    ensures
        event.kind != Some("assistant/message"@) && event.kind != Some("user/message"@)
            ==> message_in(event) is None,
        event.kind == Some("assistant/message"@) && event.reply is None ==> message_in(event)
            is None,
        event.kind == Some("user/message"@) && event.prompt is None ==> message_in(event) is None,
        message_in(event) matches Some(message) ==> {
            &&& message.role == Role::Assistant <==> event.kind == Some("assistant/message"@)
            &&& message.role == Role::Human <==> event.kind == Some("user/message"@)
            &&& event.id matches Some(id) ==> message.id == id
            &&& event.id is None ==> {
                &&& message.id.take(4) == seq!['s', 'e', 'q', '-']
                &&& message.id.len() > 4
                &&& decimal_value(message.id.skip(4)) == match event.seq {
                    Some(seq) => seq as int,
                    None => 0,
                }
                &&& message.id[4] == '0' ==> message.id.len() == 5
                &&& forall|i: int|
                    4 <= i < message.id.len() ==> '0' <= #[trigger] message.id[i] && message.id[i]
                        <= '9'
            }
            &&& event.time matches Some(ms) ==> message.at == Some(iso_text(ms as nat))
            &&& event.time is None ==> message.at is None
        },
{
    reveal_strlit("assistant/message");
    reveal_strlit("user/message");
    assert("assistant/message"@.len() != "user/message"@.len());
    reveal_strlit("seq-");
    let n: nat = match event.seq {
        Some(seq) => seq as nat,
        None => 0,
    };
    lemma_decimal(n);
    let name = "seq-"@ + decimal(n);
    assert(name.take(4) == seq!['s', 'e', 'q', '-']);
    assert(name.skip(4) == decimal(n));
}

/// An event is read off the fields of an object: its kind, number and time off its own, its
/// reply and id off those of its data's message, and its prompt off its data's.
pub proof fn lemma_event_in(
    fields: Map<Seq<char>, Json>,
    data: Map<Seq<char>, Json>,
    message: Map<Seq<char>, Json>,
)
    requires
        fields.contains_key("data"@) && fields["data"@] == Json::Object(data),
        data.contains_key("message"@) && data["message"@] == Json::Object(message),
    ensures
        ({
            let event = event_in(Json::Object(fields));
            &&& event.kind == if fields.contains_key("type"@) && fields["type"@] is Text {
                Some(fields["type"@]->Text_0)
            } else {
                None
            }
            &&& event.seq == if fields.contains_key("seq"@) && fields["seq"@] is Number {
                fields["seq"@]->Number_0
            } else {
                None
            }
            &&& event.time == if fields.contains_key("time"@) && fields["time"@] is Number {
                fields["time"@]->Number_0
            } else {
                None
            }
            &&& event.id == if message.contains_key("id"@) && message["id"@] is Text {
                Some(message["id"@]->Text_0)
            } else {
                None
            }
            &&& event.reply is Some <==> message.contains_key("content"@)
                && message["content"@] is Array
            &&& event.reply matches Some(blocks) ==> blocks.len()
                == message["content"@]->Array_0.len() && forall|i: int|
                0 <= i < blocks.len() ==> #[trigger] blocks[i] == block_in(
                    message["content"@]->Array_0[i],
                )
        }),
{
    reveal_with_fuel(at, 4);
    let value = Json::Object(fields);
    let to_content = seq!["data"@, "message"@, "content"@];
    let to_id = seq!["data"@, "message"@, "id"@];
    assert(to_content.drop_first() == seq!["message"@, "content"@]);
    assert(to_content.drop_first().drop_first() == seq!["content"@]);
    assert(to_content.drop_first().drop_first().drop_first().len() == 0);
    assert(to_id.drop_first() == seq!["message"@, "id"@]);
    assert(to_id.drop_first().drop_first() == seq!["id"@]);
    assert(to_id.drop_first().drop_first().drop_first().len() == 0);
}

/// A prompt is read off its event's data.
pub proof fn lemma_prompt_in(fields: Map<Seq<char>, Json>, data: Map<Seq<char>, Json>)
    requires
        fields.contains_key("data"@) && fields["data"@] == Json::Object(data),
    ensures
        ({
            let event = event_in(Json::Object(fields));
            &&& event.prompt is Some <==> data.contains_key("content"@)
                && data["content"@] is Array
            &&& event.prompt matches Some(blocks) ==> blocks.len()
                == data["content"@]->Array_0.len() && forall|i: int|
                0 <= i < blocks.len() ==> #[trigger] blocks[i] == block_in(
                    data["content"@]->Array_0[i],
                )
            &&& !(data.contains_key("message"@) && data["message"@] is Object) ==> event.reply
                is None && event.id is None
        }),
{
    reveal_with_fuel(at, 4);
    let to_content = seq!["data"@, "content"@];
    assert(to_content.drop_first() == seq!["content"@]);
    assert(to_content.drop_first().drop_first().len() == 0);
    let to_reply = seq!["data"@, "message"@, "content"@];
    let to_id = seq!["data"@, "message"@, "id"@];
    assert(to_reply.drop_first() == seq!["message"@, "content"@]);
    assert(to_id.drop_first() == seq!["message"@, "id"@]);
}

/// A block is read off the fields of an object, and nothing is read off anything else.
pub proof fn lemma_block_in(value: Json)
    ensures
        value matches Json::Object(fields) ==> {
            &&& block_in(value).kind == if fields.contains_key("type"@) && fields["type"@] is Text {
                Some(fields["type"@]->Text_0)
            } else {
                None
            }
            &&& block_in(value).text == if fields.contains_key("text"@) && fields["text"@] is Text {
                Some(fields["text"@]->Text_0)
            } else {
                None
            }
        },
        !(value is Object) ==> block_in(value).kind is None && block_in(value).text is None
            && event_in(value).kind is None,
{
}

/// A line is read as JSON without the white space around it, and is the message of the event
/// that it describes; where it is blank or no JSON it is none.
pub proof fn lemma_message_on(before: Seq<char>, text: Seq<char>, behind: Seq<char>)
    requires
        forall|i: int| 0 <= i < before.len() ==> white_space(#[trigger] before[i]),
        forall|i: int| 0 <= i < behind.len() ==> white_space(#[trigger] behind[i]),
        text.len() > 0,
        !white_space(text.first()),
        !white_space(text.last()),
    ensures
        message_on(before + text + behind) == match json_in_text(text) {
            Some(value) => message_in(event_in(value)),
            None => None,
        },
        message_on(before) is None,
{
    lemma_trimmed_keeps(before, text, behind);
    lemma_trimmed_blank(before);
}

/// One line gives its message and nothing else.
pub proof fn lemma_messages_on_one_line(line: Seq<char>)
    ensures
        messages_on(seq![line]) == match message_on(line) {
            Some(message) => seq![message],
            None => Seq::<MessageView>::empty(),
        },
{
    assert(seq![line].drop_last() == Seq::<Seq<char>>::empty());
    assert(messages_on(Seq::<Seq<char>>::empty()) == Seq::<MessageView>::empty());
    if let Some(message) = message_on(line) {
        assert(Seq::<MessageView>::empty().push(message) == seq![message]);
    }
}

/// Without an object for its data an event has no blocks and no id.
pub proof fn lemma_no_data(value: Json)
    requires
        !(value matches Json::Object(fields) && fields.contains_key("data"@)
            && fields["data"@] is Object),
    ensures
        event_in(value).reply is None,
        event_in(value).prompt is None,
        event_in(value).id is None,
        message_in(event_in(value)) is None,
{
    let none = Seq::<Seq<char>>::empty();
    let to_content = seq!["message"@, "content"@];
    let to_id = seq!["message"@, "id"@];
    assert(seq!["data"@, "message"@, "content"@] == seq!["data"@] + to_content);
    assert(seq!["data"@, "message"@, "id"@] == seq!["data"@] + to_id);
    assert(seq!["data"@, "content"@] == seq!["data"@] + seq!["content"@]);
    assert(to_content == seq!["message"@] + seq!["content"@]);
    assert(to_id == seq!["message"@] + seq!["id"@]);
    assert(seq!["content"@] == seq!["content"@] + none);
    lemma_at(value, "data"@, to_content);
    lemma_at(value, "data"@, to_id);
    lemma_at(value, "data"@, seq!["content"@]);
    if let Json::Object(fields) = value {
        if fields.contains_key("data"@) {
            let data = fields["data"@];
            lemma_at(data, "message"@, seq!["content"@]);
            lemma_at(data, "message"@, seq!["id"@]);
            lemma_at(data, "content"@, none);
        }
    }
}

/// What a file says of its delegation stands in its first line alone: it is a subagent's exactly
/// where that, without the white space around it, is an object with a delegation depth above
/// zero.
pub proof fn lemma_delegated(
    before: Seq<char>,
    header: Seq<char>,
    behind: Seq<char>,
    rest: Seq<char>,
)
    requires
        forall|i: int| 0 <= i < before.len() ==> white_space(#[trigger] before[i]),
        forall|i: int| 0 <= i < behind.len() ==> white_space(#[trigger] behind[i]),
        !before.contains('\n') && !header.contains('\n') && !behind.contains('\n'),
        header.len() > 0,
        !white_space(header.first()),
        !white_space(header.last()),
    ensures
        ({
            let deep = {
                &&& json_in_text(header) matches Some(Json::Object(fields))
                &&& fields.contains_key("delegationDepth"@)
                &&& fields["delegationDepth"@] matches Json::Number(Some(depth))
                &&& depth >= 1
            };
            let line = before + header + behind;
            &&& delegated_text(line) <==> deep
            &&& delegated_text(line + seq!['\r', '\n'] + rest) <==> deep
            &&& line.last() != '\r' ==> (delegated_text(line + seq!['\n'] + rest) <==> deep)
        }),
        !delegated_text(Seq::<char>::empty()),
{
    let line = before + header + behind;
    assert(!line.contains('\n')) by {
        if line.contains('\n') {
            let i = choose|i: int| 0 <= i < line.len() && line[i] == '\n';
            if i < before.len() {
                assert(before[i] == '\n');
            } else if i < before.len() + header.len() {
                assert(header[i - before.len()] == '\n');
            } else {
                assert(behind[i - before.len() - header.len()] == '\n');
            }
        }
    }
    lemma_first_line(line, rest);
    lemma_trimmed_keeps(before, header, behind);
    assert((seq![line] + lines_of(rest)).first() == line);
    assert(seq![line].first() == line);
}

/// A session holds a reply exactly where it is not a subagent's and one of its messages is the
/// assistant's; prompts alone are none. A file holds what its frames decode to, and nothing where
/// they do not decode.
pub proof fn lemma_reply_text(jsonl: Seq<char>, bytes: Seq<u8>)
    ensures
        reply_text(jsonl) <==> !delegated_text(jsonl) && exists|i: int|
            0 <= i < messages_on(lines_of(jsonl)).len() && (#[trigger] messages_on(
                lines_of(jsonl),
            )[i]).role == Role::Assistant,
        frames(bytes) matches Ok(content) ==> reply_bytes(bytes) == reply_text(utf8_lossy(content)),
        frames(bytes) is Err ==> !reply_bytes(bytes),
{
}

/// A session that holds a reply still holds one after another flush.
pub proof fn lemma_reply_stays(jsonl: Seq<char>, flush: Seq<char>)
    requires
        reply_text(jsonl),
        jsonl.last() == '\n',
    ensures
        reply_text(jsonl + flush),
{
    let older = messages_on(lines_of(jsonl));
    if jsonl.len() == 0 {
        assert(pieces(jsonl, '\n') == seq![jsonl]);
        assert(lines_of(jsonl).len() == 0);
        assert(older.len() == 0);
    } else {
        lemma_flush_comes_first(jsonl, flush, 0);
        lemma_lines_append(jsonl, flush);
        lemma_messages_say_something(lines_of(jsonl));
        assert(lines_of(jsonl).len() > 0);
        assert((lines_of(jsonl) + lines_of(flush)).first() == lines_of(jsonl).first());
        let i = choose|i: int|
            0 <= i < older.len() && (#[trigger] older[i]).role == Role::Assistant;
        let all = messages_on(lines_of(jsonl + flush));
        assert(all[i] == older[i]);
    }
}

/// A file is decoded frame by frame: the content of its first frame, and behind it what the
/// bytes behind that frame decode to. The first frame that does not decode gives the error.
pub proof fn lemma_frame_by_frame(bytes: Seq<u8>)
    ensures
        frames(Seq::<u8>::empty()) == Ok::<Seq<u8>, Seq<char>>(Seq::<u8>::empty()),
        bytes.len() > 0 ==> (zstd_frame(bytes) matches Err(message) ==> frames(bytes) == Err::<
            Seq<u8>,
            Seq<char>,
        >(message)),
        bytes.len() > 0 ==> (zstd_frame(bytes) matches Ok((content, left)) ==> left.len()
            < bytes.len() ==> match frames(left) {
            Ok(more) => frames(bytes) == Ok::<Seq<u8>, Seq<char>>(content + more),
            Err(message) => frames(bytes) == Err::<Seq<u8>, Seq<char>>(message),
        }),
        bytes.len() > 0 ==> (zstd_frame(bytes) matches Ok((_, left)) ==> left.len() >= bytes.len()
            ==> frames(bytes) == Err::<Seq<u8>, Seq<char>>(
            "a frame read none of its "@ + decimal(bytes.len()) + " bytes"@,
        )),
{
}

/// A file that does not decode is invalid data. What is said of it starts with its path and ends
/// with the reason.
pub proof fn lemma_not_zstd_message(path: Seq<char>, err: Seq<char>, error: HostError)
    ensures
        is_not_zstd(error, path, err) <==> (error matches HostError::Io { kind, message } && kind
            == ErrorKind::InvalidData && message@ == not_zstd_message(path, err)),
        ({
            let message = not_zstd_message(path, err);
            let n = path.len() as int;
            &&& message.take(n) == path
            &&& message.skip(message.len() - err.len()) == err
            &&& message.subrange(n, message.len() - err.len()) == " is not a zstd session: "@
        }),
{
    let message = not_zstd_message(path, err);
    let n = path.len() as int;
    assert(message.take(n) == path);
    assert(message.skip(message.len() - err.len()) == err);
    assert(message.subrange(n, message.len() - err.len()) == " is not a zstd session: "@);
}

} // verus!
