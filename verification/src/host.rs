//! What the hosts have in common: messages, errors, and the names that sessions go by.

use vstd::prelude::*;
use vstd::arithmetic::power::pow;
use crate::text::chars_of;

verus! {

/// Who wrote a message.
#[derive(Clone, Copy, Debug, PartialEq, Eq, Structural)]
pub enum Role {
    Assistant,
    Human,
}

/// One message of a session.
#[derive(Debug, PartialEq, Eq)]
pub struct Message {
    pub id: String,
    pub role: Role,
    pub text: String,
    /// When it was written, as an ISO 8601 time in UTC.
    pub at: Option<String>,
}

/// The view of a `Message`.
pub struct MessageView {
    pub id: Seq<char>,
    pub role: Role,
    pub text: Seq<char>,
    pub at: Option<Seq<char>>,
}

impl View for Message {
    type V = MessageView;

    open spec fn view(&self) -> MessageView {
        MessageView {
            id: self.id@,
            role: self.role,
            text: self.text@,
            at: crate::text::optional_text(self.at),
        }
    }
}

/// The views of a list of messages.
pub open spec fn message_views(messages: Seq<Message>) -> Seq<MessageView> {
    messages.map_values(|m: Message| m@)
}

/// What kind of error it is that a file could not be used.
#[derive(Clone, Copy, Debug, PartialEq, Eq, Structural)]
pub enum ErrorKind {
    /// The file does not hold what it should.
    InvalidData,
    /// The file could not be read.
    Other,
}

/// Why a session could not be looked up or read.
#[derive(Debug, PartialEq, Eq)]
pub enum HostError {
    /// The text is no session id.
    InvalidSessionId(String),
    /// A file could not be used.
    Io { kind: ErrorKind, message: String },
}

/// A hexadecimal digit.
pub open spec fn hex_digit(c: char) -> bool {
    ('0' <= c && c <= '9') || ('a' <= c && c <= 'f') || ('A' <= c && c <= 'F')
}

/// Whether `text` has the shape of a UUID: 32 hexadecimal digits, with hyphens behind the
/// eighth, twelfth, sixteenth and twentieth of them.
pub open spec fn uuid_shaped(text: Seq<char>) -> bool {
    &&& text.len() == 36
    &&& forall|i: int|
        0 <= i < 36 ==> if i == 8 || i == 13 || i == 18 || i == 23 {
            #[trigger] text[i] == '-'
        } else {
            hex_digit(text[i])
        }
}

/// Whether `text` has the shape of a UUID.
pub fn is_uuid(text: &str) -> (r: bool)
    ensures
        r == uuid_shaped(text@),
{
    let chars = chars_of(text);
    if chars.len() != 36 {
        return false;
    }
    let mut i: usize = 0;
    while i < 36
        invariant
            i <= 36 == chars.len(),
            chars@ == text@,
            forall|k: int|
                0 <= k < i ==> if k == 8 || k == 13 || k == 18 || k == 23 {
                    #[trigger] chars@[k] == '-'
                } else {
                    hex_digit(chars@[k])
                },
        decreases 36 - i,
    {
        let c = chars[i];
        let hyphen = i == 8 || i == 13 || i == 18 || i == 23;
        let hex = ('0' <= c && c <= '9') || ('a' <= c && c <= 'f') || ('A' <= c && c <= 'F');
        if (hyphen && c != '-') || (!hyphen && !hex) {
            assert(text@[i as int] == c);
            return false;
        }
        i += 1;
    }
    true
}

/// A character that session ids are made of.
pub open spec fn id_char(c: char) -> bool {
    ('0' <= c && c <= '9') || ('a' <= c && c <= 'z') || ('A' <= c && c <= 'Z') || c == '-' || c
        == '_'
}

/// Whether `text` can name a session: letters, digits, hyphens and underscores, and at least
/// one of them. Such a text is one plain path component.
pub open spec fn valid_session_id(text: Seq<char>) -> bool {
    text.len() > 0 && forall|i: int| 0 <= i < text.len() ==> id_char(#[trigger] text[i])
}

/// `id` itself, where it can name a session.
pub fn validate_session_id(id: &str) -> (valid: Result<&str, HostError>)
    ensures
        match valid {
            Ok(same) => valid_session_id(id@) && same@ == id@,
            Err(HostError::InvalidSessionId(text)) => !valid_session_id(id@) && text@ == id@,
            Err(_) => false,
        },
{
    let chars = chars_of(id);
    if chars.len() == 0 {
        return Err(HostError::InvalidSessionId(id.to_owned()));
    }
    let mut i: usize = 0;
    while i < chars.len()
        invariant
            i <= chars.len(),
            chars@ == id@,
            forall|k: int| 0 <= k < i ==> id_char(#[trigger] id@[k]),
        decreases chars.len() - i,
    {
        let c = chars[i];
        if !(('0' <= c && c <= '9') || ('a' <= c && c <= 'z') || ('A' <= c && c <= 'Z') || c == '-'
            || c == '_') {
            assert(!id_char(id@[i as int]));
            return Err(HostError::InvalidSessionId(id.to_owned()));
        }
        i += 1;
    }
    Ok(id)
}

/// What an error says.
pub open spec fn error_text(error: HostError) -> Seq<char> {
    match error {
        HostError::InvalidSessionId(id) => "not a session id: "@ + id@,
        HostError::Io { message, .. } => message@,
    }
}

impl HostError {
    /// What the error says.
    pub fn message(&self) -> (text: String)
        ensures
            text@ == error_text(*self),
    {
        match self {
            HostError::InvalidSessionId(id) => {
                let mut text = "not a session id: ".to_owned();
                text.append(id.as_str());
                text
            },
            HostError::Io { message, .. } => message.clone(),
        }
    }
}

/// A text that can name a session is one plain step of a path: it holds no separator and is
/// neither of the steps that stand for a directory itself or the one above it.
pub proof fn lemma_id_is_one_step(id: Seq<char>)
    requires
        valid_session_id(id),
    ensures
        !id.contains('/'),
        !id.contains('\\'),
        id.len() > 0,
        id != "."@,
        id != ".."@,
{
    reveal_strlit(".");
    reveal_strlit("..");
    assert(id_char(id[0]));
    assert forall|i: int| 0 <= i < id.len() implies id[i] != '/' && id[i] != '\\' by {
        assert(id_char(id[i]));
    }
}

/// What is said of a text that is no session id ends with the text, whole; what is said of a file
/// is what went wrong with it, whatever kind of error that was.
pub proof fn lemma_error_text(text: String, kind: ErrorKind)
    ensures
        error_text(HostError::InvalidSessionId(text)) == "not a session id: "@ + text@,
        error_text(HostError::Io { kind, message: text }) == text@,
{
}

/// The view of a message has all that the message has, and there is one for each of a list.
pub proof fn lemma_message_view(messages: Seq<Message>, i: int)
    requires
        0 <= i < messages.len(),
    ensures
        message_views(messages).len() == messages.len(),
        ({
            let view = message_views(messages)[i];
            &&& view.id == messages[i].id@
            &&& view.role == messages[i].role
            &&& view.text == messages[i].text@
            &&& view.at is Some <==> messages[i].at is Some
            &&& messages[i].at matches Some(at) ==> view.at == Some(at@)
        }),
{
}

proof fn lemma_hex_digit(c: char)
    ensures
        hex_digit(c) == "0123456789abcdefABCDEF"@.contains(c),
{
    reveal_strlit("0123456789abcdefABCDEF");
    let all = "0123456789abcdefABCDEF"@;
    assert(all[0] == '0');
    assert(all[1] == '1');
    assert(all[2] == '2');
    assert(all[3] == '3');
    assert(all[4] == '4');
    assert(all[5] == '5');
    assert(all[6] == '6');
    assert(all[7] == '7');
    assert(all[8] == '8');
    assert(all[9] == '9');
    assert(all[10] == 'a');
    assert(all[11] == 'b');
    assert(all[12] == 'c');
    assert(all[13] == 'd');
    assert(all[14] == 'e');
    assert(all[15] == 'f');
    assert(all[16] == 'A');
    assert(all[17] == 'B');
    assert(all[18] == 'C');
    assert(all[19] == 'D');
    assert(all[20] == 'E');
    assert(all[21] == 'F');
    if hex_digit(c) {
        assert(exists|i: int| 0 <= i < all.len() && all[i] == c);
    }
}

/// A UUID is 36 characters: hyphens at four places, and at each other place any of the
/// hexadecimal digits, small or large.
pub proof fn lemma_uuid_characters(text: Seq<char>)
    ensures
        uuid_shaped(text) <==> {
            &&& text.len() == 36
            &&& text[8] == '-' && text[13] == '-' && text[18] == '-' && text[23] == '-'
            &&& forall|i: int|
                0 <= i < 36 && i != 8 && i != 13 && i != 18 && i != 23
                    ==> "0123456789abcdefABCDEF"@.contains(#[trigger] text[i])
        },
{
    if text.len() == 36 {
        assert forall|i: int| 0 <= i < 36 implies hex_digit(#[trigger] text[i])
            == "0123456789abcdefABCDEF"@.contains(text[i]) by {
            lemma_hex_digit(text[i]);
        }
        assert(text[8] == text[8] && text[13] == text[13] && text[18] == text[18] && text[23]
            == text[23]);
    }
}

/// Every number of 128 bits makes a UUID: its 32 digits in base 16, small or large, with hyphens
/// behind the eighth, twelfth, sixteenth and twentieth.
pub proof fn lemma_uuid_of_number(n: u128)
    ensures
        uuid_shaped(
            Seq::new(
                36,
                |i: int|
                    if i == 8 || i == 13 || i == 18 || i == 23 {
                        '-'
                    } else {
                        "0123456789abcdef"@[n as int / pow(16, (31 - hex_place(i)) as nat) % 16]
                    },
            ),
        ),
        uuid_shaped(
            Seq::new(
                36,
                |i: int|
                    if i == 8 || i == 13 || i == 18 || i == 23 {
                        '-'
                    } else {
                        "0123456789ABCDEF"@[n as int / pow(16, (31 - hex_place(i)) as nat) % 16]
                    },
            ),
        ),
{
    assert forall|v: int| 0 <= v < 16 implies hex_digit(#[trigger] "0123456789abcdef"@[v])
        && hex_digit("0123456789ABCDEF"@[v]) by {
        lemma_hex_letters(v);
    }
    assert forall|v: int| 0 <= v < 16 implies hex_digit(#[trigger] "0123456789ABCDEF"@[v]) by {
        lemma_hex_letters(v);
    }
}

/// Which of its 32 digits a UUID has at the `i`th place.
pub open spec fn hex_place(i: int) -> int {
    if i < 8 {
        i
    } else if i < 13 {
        i - 1
    } else if i < 18 {
        i - 2
    } else if i < 23 {
        i - 3
    } else {
        i - 4
    }
}

proof fn lemma_hex_letters(v: int)
    requires
        0 <= v < 16,
    ensures
        hex_digit("0123456789abcdef"@[v]),
        hex_digit("0123456789ABCDEF"@[v]),
{
    reveal_strlit("0123456789abcdef");
    reveal_strlit("0123456789ABCDEF");
    let small = "0123456789abcdef"@;
    let large = "0123456789ABCDEF"@;
    assert(small[0] == '0');
    assert(small[1] == '1');
    assert(small[2] == '2');
    assert(small[3] == '3');
    assert(small[4] == '4');
    assert(small[5] == '5');
    assert(small[6] == '6');
    assert(small[7] == '7');
    assert(small[8] == '8');
    assert(small[9] == '9');
    assert(small[10] == 'a');
    assert(small[11] == 'b');
    assert(small[12] == 'c');
    assert(small[13] == 'd');
    assert(small[14] == 'e');
    assert(small[15] == 'f');
    assert(large[0] == '0');
    assert(large[1] == '1');
    assert(large[2] == '2');
    assert(large[3] == '3');
    assert(large[4] == '4');
    assert(large[5] == '5');
    assert(large[6] == '6');
    assert(large[7] == '7');
    assert(large[8] == '8');
    assert(large[9] == '9');
    assert(large[10] == 'A');
    assert(large[11] == 'B');
    assert(large[12] == 'C');
    assert(large[13] == 'D');
    assert(large[14] == 'E');
    assert(large[15] == 'F');
}

/// A session id is one or more letters, digits, hyphens and underscores, and every such text is
/// one.
pub proof fn lemma_session_id_characters(text: Seq<char>)
    ensures
        valid_session_id(text) <==> {
            &&& text.len() > 0
            &&& forall|i: int|
                0 <= i < text.len()
                    ==> "0123456789ABCDEFGHIJKLMNOPQRSTUVWXYZabcdefghijklmnopqrstuvwxyz-_"@.contains(
                    #[trigger] text[i],
                )
        },
{
    assert forall|i: int| 0 <= i < text.len() implies id_char(#[trigger] text[i])
        == "0123456789ABCDEFGHIJKLMNOPQRSTUVWXYZabcdefghijklmnopqrstuvwxyz-_"@.contains(text[i]) by {
        lemma_id_char(text[i]);
    }
}

proof fn lemma_id_char(c: char)
    ensures
        id_char(c) == "0123456789ABCDEFGHIJKLMNOPQRSTUVWXYZabcdefghijklmnopqrstuvwxyz-_"@.contains(c),
{
    reveal_strlit("0123456789ABCDEFGHIJKLMNOPQRSTUVWXYZabcdefghijklmnopqrstuvwxyz-_");
    let all = "0123456789ABCDEFGHIJKLMNOPQRSTUVWXYZabcdefghijklmnopqrstuvwxyz-_"@;
    assert(all[0] == '0');
    assert(all[1] == '1');
    assert(all[2] == '2');
    assert(all[3] == '3');
    assert(all[4] == '4');
    assert(all[5] == '5');
    assert(all[6] == '6');
    assert(all[7] == '7');
    assert(all[8] == '8');
    assert(all[9] == '9');
    assert(all[10] == 'A');
    assert(all[11] == 'B');
    assert(all[12] == 'C');
    assert(all[13] == 'D');
    assert(all[14] == 'E');
    assert(all[15] == 'F');
    assert(all[16] == 'G');
    assert(all[17] == 'H');
    assert(all[18] == 'I');
    assert(all[19] == 'J');
    assert(all[20] == 'K');
    assert(all[21] == 'L');
    assert(all[22] == 'M');
    assert(all[23] == 'N');
    assert(all[24] == 'O');
    assert(all[25] == 'P');
    assert(all[26] == 'Q');
    assert(all[27] == 'R');
    assert(all[28] == 'S');
    assert(all[29] == 'T');
    assert(all[30] == 'U');
    assert(all[31] == 'V');
    assert(all[32] == 'W');
    assert(all[33] == 'X');
    assert(all[34] == 'Y');
    assert(all[35] == 'Z');
    assert(all[36] == 'a');
    assert(all[37] == 'b');
    assert(all[38] == 'c');
    assert(all[39] == 'd');
    assert(all[40] == 'e');
    assert(all[41] == 'f');
    assert(all[42] == 'g');
    assert(all[43] == 'h');
    assert(all[44] == 'i');
    assert(all[45] == 'j');
    assert(all[46] == 'k');
    assert(all[47] == 'l');
    assert(all[48] == 'm');
    assert(all[49] == 'n');
    assert(all[50] == 'o');
    assert(all[51] == 'p');
    assert(all[52] == 'q');
    assert(all[53] == 'r');
    assert(all[54] == 's');
    assert(all[55] == 't');
    assert(all[56] == 'u');
    assert(all[57] == 'v');
    assert(all[58] == 'w');
    assert(all[59] == 'x');
    assert(all[60] == 'y');
    assert(all[61] == 'z');
    assert(all[62] == '-');
    assert(all[63] == '_');
    if id_char(c) {
        assert(exists|i: int| 0 <= i < all.len() && all[i] == c);
    }
}

} // verus!
