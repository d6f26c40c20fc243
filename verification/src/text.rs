//! Text as a sequence of characters: white space, lines, separators and decimal numbers.

use vstd::prelude::*;
use vstd::utf8::{decode_utf8, valid_utf8};

verus! {

/// The views of a vector of strings.
pub open spec fn texts(strings: Seq<String>) -> Seq<Seq<char>> {
    strings.map_values(|s: String| s@)
}

/// The view of an optional string.
pub open spec fn optional_text(text: Option<String>) -> Option<Seq<char>> {
    match text {
        Some(s) => Some(s@),
        None => None,
    }
}

/// `String::push` appends one character.
pub assume_specification[ String::push ](s: &mut String, c: char)
    ensures
        final(s)@ == old(s)@.push(c),
;

/// Two string slices are equal, by `str`'s own `==`, where they hold the same characters.
pub assume_specification[ <str as PartialEq>::eq ](a: &str, b: &str) -> (same: bool)
    ensures
        same == (a@ == b@),
;

/// The text that `String::from_utf8_lossy` makes of bytes.
pub uninterp spec fn utf8_lossy(bytes: Seq<u8>) -> Seq<char>;

/// `String::from_utf8_lossy`: a function of the bytes alone, which keeps every character of
/// bytes that are valid UTF-8. Which replacement characters stand for the rest is left to the
/// name.
#[verifier::external_body]
pub(crate) fn lossy(bytes: &[u8]) -> (text: String)
    ensures
        text@ == utf8_lossy(bytes@),
        valid_utf8(bytes@) ==> text@ == decode_utf8(bytes@),
{
    String::from_utf8_lossy(bytes).into_owned()
}

/// The characters of `text`.
pub fn chars_of(text: &str) -> (chars: Vec<char>)
    ensures
        chars@ == text@,
{
    let mut chars: Vec<char> = Vec::new();
    for c in it: text.chars()
        invariant
            it.seq() == text@,
            chars@ == it.seq().take(it.index() as int),
    {
        chars.push(c);
    }
    chars
}

/// The characters from `from` up to `to`, as a string.
pub fn string_of(chars: &Vec<char>, from: usize, to: usize) -> (text: String)
    requires
        from <= to <= chars.len(),
    ensures
        text@ == chars@.subrange(from as int, to as int),
{
    let mut text = String::new();
    let mut i: usize = from;
    while i < to
        invariant
            from <= i <= to <= chars.len(),
            text@ == chars@.subrange(from as int, i as int),
        decreases to - i,
    {
        text.push(chars[i]);
        i += 1;
    }
    text
}

/// The characters with the Unicode property `White_Space`.
pub open spec fn white_space(c: char) -> bool {
    ||| '\u{9}' <= c && c <= '\u{d}'
    ||| c == ' '
    ||| c == '\u{85}'
    ||| c == '\u{a0}'
    ||| c == '\u{1680}'
    ||| '\u{2000}' <= c && c <= '\u{200a}'
    ||| c == '\u{2028}'
    ||| c == '\u{2029}'
    ||| c == '\u{202f}'
    ||| c == '\u{205f}'
    ||| c == '\u{3000}'
}

fn is_white_space(c: char) -> (white: bool)
    ensures
        white == white_space(c),
{
    ('\u{9}' <= c && c <= '\u{d}') || c == ' ' || c == '\u{85}' || c == '\u{a0}' || c
        == '\u{1680}' || ('\u{2000}' <= c && c <= '\u{200a}') || c == '\u{2028}' || c
        == '\u{2029}' || c == '\u{202f}' || c == '\u{205f}' || c == '\u{3000}'
}

/// `text` without the white space that it starts with.
pub open spec fn trimmed_start(text: Seq<char>) -> Seq<char>
    decreases text.len(),
{
    if text.len() > 0 && white_space(text.first()) {
        trimmed_start(text.drop_first())
    } else {
        text
    }
}

/// `text` without the white space that it ends with.
pub open spec fn trimmed_end(text: Seq<char>) -> Seq<char>
    decreases text.len(),
{
    if text.len() > 0 && white_space(text.last()) {
        trimmed_end(text.drop_last())
    } else {
        text
    }
}

/// `text` without the white space around it.
pub open spec fn trimmed(text: Seq<char>) -> Seq<char> {
    trimmed_end(trimmed_start(text))
}

/// `text` without the white space around it.
pub fn trim(text: &str) -> (inner: String)
    ensures
        inner@ == trimmed(text@),
{
    let chars = chars_of(text);
    let mut from: usize = 0;
    assert(chars@.skip(0) == chars@);
    while from < chars.len() && is_white_space(chars[from])
        invariant
            from <= chars.len(),
            trimmed_start(chars@.skip(from as int)) == trimmed_start(chars@),
        decreases chars.len() - from,
    {
        assert(chars@.skip(from as int).drop_first() == chars@.skip(from + 1));
        from += 1;
    }
    let ghost rest = chars@.skip(from as int);
    assert(trimmed_start(chars@) == rest);
    let mut to: usize = chars.len();
    assert(chars@.subrange(from as int, to as int) == rest);
    while to > from && is_white_space(chars[to - 1])
        invariant
            from <= to <= chars.len(),
            trimmed_end(chars@.subrange(from as int, to as int)) == trimmed_end(rest),
        decreases to,
    {
        assert(chars@.subrange(from as int, to as int).drop_last() == chars@.subrange(
            from as int,
            to - 1,
        ));
        to -= 1;
    }
    assert(trimmed_end(chars@.subrange(from as int, to as int)) == chars@.subrange(
        from as int,
        to as int,
    ));
    string_of(&chars, from, to)
}

/// Whether `text` holds nothing but white space.
pub open spec fn blank(text: Seq<char>) -> bool {
    forall|i: int| 0 <= i < text.len() ==> white_space(#[trigger] text[i])
}

/// Trimming leaves nothing exactly where there was nothing but white space.
pub proof fn lemma_trimmed_blank(text: Seq<char>)
    ensures
        trimmed(text).len() == 0 <==> blank(text),
    decreases text.len(),
{
    lemma_trimmed_start_blank(text);
    let rest = trimmed_start(text);
    if rest.len() > 0 {
        lemma_trimmed_end_keeps_first(rest);
    }
}

proof fn lemma_trimmed_start_blank(text: Seq<char>)
    ensures
        trimmed_start(text).len() == 0 <==> blank(text),
        trimmed_start(text).len() > 0 ==> !white_space(trimmed_start(text).first()),
    decreases text.len(),
{
    if text.len() > 0 && white_space(text.first()) {
        let rest = text.drop_first();
        lemma_trimmed_start_blank(rest);
        if blank(rest) {
            assert forall|i: int| 0 <= i < text.len() implies white_space(#[trigger] text[i]) by {
                if i > 0 {
                    assert(white_space(rest[i - 1]));
                }
            }
        }
        if blank(text) {
            assert forall|i: int| 0 <= i < rest.len() implies white_space(#[trigger] rest[i]) by {
                assert(white_space(text[i + 1]));
            }
        }
    } else if text.len() > 0 {
        assert(!white_space(text[0]));
    }
}

proof fn lemma_trimmed_end_keeps_first(text: Seq<char>)
    requires
        text.len() > 0,
        !white_space(text.first()),
    ensures
        trimmed_end(text).len() > 0,
    decreases text.len(),
{
    if white_space(text.last()) {
        lemma_trimmed_end_keeps_first(text.drop_last());
    }
}

/// What stands in `text` before, between and after the occurrences of `sep`, in order.
pub open spec fn pieces(text: Seq<char>, sep: char) -> Seq<Seq<char>>
    decreases text.len(),
{
    if text.len() == 0 {
        seq![text]
    } else {
        let before = pieces(text.drop_last(), sep);
        if text.last() == sep {
            before.push(Seq::empty())
        } else {
            before.drop_last().push(before.last().push(text.last()))
        }
    }
}

/// `parts` with `sep` between each two of them.
pub open spec fn joined(parts: Seq<Seq<char>>, sep: char) -> Seq<char>
    decreases parts.len(),
{
    if parts.len() == 0 {
        Seq::empty()
    } else if parts.len() == 1 {
        parts[0]
    } else {
        joined(parts.drop_last(), sep).push(sep) + parts.last()
    }
}

/// The pieces of a text, with the separator between them again, are the text; and none of them
/// holds the separator.
pub proof fn lemma_pieces_joined(text: Seq<char>, sep: char)
    ensures
        joined(pieces(text, sep), sep) == text,
        forall|i: int|
            0 <= i < pieces(text, sep).len() ==> !(#[trigger] pieces(text, sep)[i]).contains(sep),
    decreases text.len(),
{
    let all = pieces(text, sep);
    if text.len() == 0 {
        assert(all[0] == text);
    } else {
        let shorter = text.drop_last();
        let before = pieces(shorter, sep);
        lemma_pieces_joined(shorter, sep);
        lemma_pieces_nonempty(shorter, sep);
        assert(text == shorter.push(text.last()));
        if text.last() == sep {
            assert(all.drop_last() == before);
            assert(joined(all, sep) == text);
        } else {
            assert(all.drop_last() == before.drop_last());
            if before.len() > 1 {
                assert(joined(before.drop_last(), sep).push(sep) + before.last().push(text.last())
                    == (joined(before.drop_last(), sep).push(sep) + before.last()).push(
                    text.last(),
                ));
            }
            assert(joined(all, sep) == text);
            assert forall|i: int| 0 <= i < all.len() implies !(#[trigger] all[i]).contains(sep) by {
                if i < before.len() - 1 {
                    assert(all[i] == before[i]);
                } else {
                    let last = before[before.len() - 1];
                    assert(all[i] == last.push(text.last()));
                    if all[i].contains(sep) {
                        let k = choose|k: int| 0 <= k < all[i].len() && all[i][k] == sep;
                        assert(last[k] == sep);
                    }
                }
            }
        }
    }
}

/// There is always at least one piece.
pub proof fn lemma_pieces_nonempty(text: Seq<char>, sep: char)
    ensures
        pieces(text, sep).len() > 0,
    decreases text.len(),
{
    if text.len() > 0 {
        lemma_pieces_nonempty(text.drop_last(), sep);
    }
}

/// Where a separator stands, a text falls into the pieces before it and those behind it.
pub proof fn lemma_pieces_concat(text: Seq<char>, sep: char, more: Seq<char>)
    ensures
        pieces(text.push(sep) + more, sep) == pieces(text, sep) + pieces(more, sep),
    decreases more.len(),
{
    let whole = text.push(sep) + more;
    let all = pieces(text, sep);
    if more.len() == 0 {
        assert(whole == text.push(sep));
        assert(whole.drop_last() == text);
        assert(more == Seq::<char>::empty());
        assert(all.push(more) == all + seq![more]);
    } else {
        let shorter = more.drop_last();
        let behind = pieces(shorter, sep);
        assert(whole.drop_last() == text.push(sep) + shorter);
        lemma_pieces_concat(text, sep, shorter);
        lemma_pieces_nonempty(shorter, sep);
        if more.last() == sep {
            assert((all + behind).push(Seq::empty()) == all + behind.push(Seq::empty()));
        } else {
            let last = behind.last().push(more.last());
            assert((all + behind).last() == behind.last());
            assert((all + behind).drop_last().push(last) == all + behind.drop_last().push(last));
        }
    }
}

proof fn lemma_one_piece(piece: Seq<char>, sep: char)
    requires
        !piece.contains(sep),
    ensures
        pieces(piece, sep) == seq![piece],
    decreases piece.len(),
{
    if piece.len() > 0 {
        let shorter = piece.drop_last();
        assert(piece.contains(piece.last()));
        assert forall|c: char| shorter.contains(c) implies piece.contains(c) by {
            let i = choose|i: int| 0 <= i < shorter.len() && shorter[i] == c;
            assert(piece[i] == c);
        }
        lemma_one_piece(shorter, sep);
        assert(shorter.push(piece.last()) == piece);
        assert(seq![shorter].drop_last().push(piece) == seq![piece]);
    }
}

/// A separator and a piece without one, put behind a text, add that piece.
pub proof fn lemma_pieces_append(text: Seq<char>, sep: char, piece: Seq<char>)
    requires
        !piece.contains(sep),
    ensures
        pieces(text.push(sep) + piece, sep) == pieces(text, sep).push(piece),
{
    lemma_pieces_concat(text, sep, piece);
    lemma_one_piece(piece, sep);
    assert(pieces(text, sep) + seq![piece] == pieces(text, sep).push(piece));
}

/// The pieces of `text` between the occurrences of `sep`.
pub fn split(text: &str, sep: char) -> (parts: Vec<String>)
    ensures
        texts(parts@) == pieces(text@, sep),
{
    let chars = chars_of(text);
    let mut parts: Vec<String> = Vec::new();
    let mut part = String::new();
    let mut i: usize = 0;
    assert(chars@.take(0) == Seq::<char>::empty());
    assert(texts(parts@).push(part@) == seq![Seq::<char>::empty()]);
    while i < chars.len()
        invariant
            i <= chars.len(),
            texts(parts@).push(part@) == pieces(chars@.take(i as int), sep),
        decreases chars.len() - i,
    {
        let c = chars[i];
        let ghost before = texts(parts@);
        let ghost last = part@;
        assert(chars@.take(i + 1).drop_last() == chars@.take(i as int));
        assert(before.push(last).drop_last() == before);
        if c == sep {
            parts.push(part);
            part = String::new();
            assert(texts(parts@) == before.push(last));
        } else {
            part.push(c);
        }
        i += 1;
    }
    assert(chars@.take(i as int) == chars@);
    let ghost before = texts(parts@);
    let ghost last = part@;
    parts.push(part);
    assert(texts(parts@) == before.push(last));
    parts
}

/// `line` without the carriage return that it may end with.
pub open spec fn without_return(line: Seq<char>) -> Seq<char> {
    if line.len() > 0 && line.last() == '\r' {
        line.drop_last()
    } else {
        line
    }
}

/// The lines of `text`: each ends with a line feed, or a carriage return and a line feed;
/// the last may go without.
pub open spec fn lines_of(text: Seq<char>) -> Seq<Seq<char>> {
    let parts = pieces(text, '\n');
    let ended = parts.drop_last().map_values(|line: Seq<char>| without_return(line));
    if parts.last().len() == 0 {
        ended
    } else {
        ended.push(parts.last())
    }
}

/// What is put behind a text that ends with a line feed, or is empty, adds its own lines.
pub proof fn lemma_lines_append(text: Seq<char>, more: Seq<char>)
    requires
        text.len() == 0 || text.last() == '\n',
    ensures
        lines_of(text + more) == lines_of(text) + lines_of(more),
{
    if text.len() == 0 {
        assert(text + more == more);
        assert(pieces(text, '\n') == seq![text]);
        assert(lines_of(text) == Seq::<Seq<char>>::empty());
        assert(lines_of(text) + lines_of(more) == lines_of(more));
    } else {
        let start = text.drop_last();
        let ended = |line: Seq<char>| without_return(line);
        assert(text == start.push('\n'));
        lemma_pieces_concat(start, '\n', more);
        lemma_pieces_nonempty(start, '\n');
        lemma_pieces_nonempty(more, '\n');
        let first = pieces(start, '\n');
        let second = pieces(more, '\n');
        assert(pieces(text, '\n') == first.push(Seq::empty()));
        assert(first.push(Seq::empty()).drop_last() == first);
        assert(lines_of(text) == first.map_values(ended));
        assert((first + second).drop_last() == first + second.drop_last());
        assert((first + second).last() == second.last());
        assert((first + second.drop_last()).map_values(ended) == first.map_values(ended)
            + second.drop_last().map_values(ended));
        assert(lines_of(text + more) == lines_of(text) + lines_of(more));
    }
}

/// A line feed behind a text ends its last line, or adds an empty one.
pub proof fn lemma_line_feed_ends_line(text: Seq<char>)
    ensures
        ({
            let last = pieces(text, '\n').last();
            let ended = lines_of(text.push('\n'));
            &&& ended.len() > 0
            &&& ended.last() == without_return(last)
            &&& lines_of(text) == if last.len() == 0 {
                ended.drop_last()
            } else {
                ended.drop_last().push(last)
            }
        }),
{
    let all = pieces(text, '\n');
    let ended = |line: Seq<char>| without_return(line);
    lemma_pieces_nonempty(text, '\n');
    assert(text.push('\n').drop_last() == text);
    assert(pieces(text.push('\n'), '\n') == all.push(Seq::empty()));
    assert(all.push(Seq::empty()).drop_last() == all);
    assert(lines_of(text.push('\n')) == all.map_values(ended));
    assert(all.map_values(ended).drop_last() == all.drop_last().map_values(ended));
}

proof fn lemma_trimmed_drop_last(text: Seq<char>)
    requires
        text.len() > 0,
        white_space(text.last()),
    ensures
        trimmed(text.drop_last()) == trimmed(text),
    decreases text.len(),
{
    let shorter = text.drop_last();
    if white_space(text.first()) {
        if text.len() > 1 {
            assert(shorter.drop_first() == text.drop_first().drop_last());
            lemma_trimmed_drop_last(text.drop_first());
        } else {
            assert(text.drop_first() == shorter);
        }
    }
}

/// A carriage return at the end of a line goes with the white space around it.
pub proof fn lemma_trimmed_without_return(line: Seq<char>)
    ensures
        trimmed(without_return(line)) == trimmed(line),
{
    if line.len() > 0 && line.last() == '\r' {
        lemma_trimmed_drop_last(line);
    }
}

fn drop_return(line: &str) -> (shorter: String)
    ensures
        shorter@ == without_return(line@),
{
    let chars = chars_of(line);
    let n = chars.len();
    if n > 0 && chars[n - 1] == '\r' {
        string_of(&chars, 0, n - 1)
    } else {
        string_of(&chars, 0, n)
    }
}

/// The lines of `text`, without their line endings.
pub fn lines(text: &str) -> (all: Vec<String>)
    ensures
        texts(all@) == lines_of(text@),
{
    let parts = split(text, '\n');
    let ghost seen = pieces(text@, '\n');
    proof {
        lemma_pieces_nonempty(text@, '\n');
    }
    assert(seen.len() == parts.len());
    let last: usize = parts.len() - 1;
    let ghost ended = seen.drop_last().map_values(|line: Seq<char>| without_return(line));
    let mut all: Vec<String> = Vec::new();
    let mut i: usize = 0;
    while i < last
        invariant
            i <= last == parts.len() - 1,
            texts(parts@) == seen,
            ended == seen.drop_last().map_values(|line: Seq<char>| without_return(line)),
            texts(all@) == ended.take(i as int),
        decreases last - i,
    {
        let ghost before = texts(all@);
        assert(texts(parts@)[i as int] == parts@[i as int]@);
        all.push(drop_return(parts[i].as_str()));
        assert(texts(all@) == before.push(ended[i as int]));
        i += 1;
    }
    assert(ended.take(i as int) == ended);
    assert(texts(parts@)[last as int] == parts@[last as int]@);
    if !parts[last].as_str().is_empty() {
        let ghost before = texts(all@);
        all.push(parts[last].clone());
        assert(texts(all@) == before.push(seen.last()));
    }
    all
}

/// The digit that stands for `d`.
pub open spec fn digit(d: nat) -> char {
    ((d + 48) as u8) as char
}

/// `n` in decimal, without leading zeros.
pub open spec fn decimal(n: nat) -> Seq<char>
    decreases n,
{
    if n < 10 {
        seq![digit(n)]
    } else {
        decimal(n / 10).push(digit(n % 10))
    }
}

fn digit_char(d: u64) -> (c: char)
    requires
        d < 10,
    ensures
        c == digit(d as nat),
{
    (d as u8 + 48) as char
}

/// `n` in decimal, without leading zeros.
pub fn to_decimal(n: u64) -> (text: String)
    ensures
        text@ == decimal(n as nat),
    decreases n,
{
    if n < 10 {
        let mut text = String::new();
        text.push(digit_char(n));
        assert(text@ == decimal(n as nat));
        text
    } else {
        let mut text = to_decimal(n / 10);
        text.push(digit_char(n % 10));
        text
    }
}

/// A vector of strings is viewed string by string, and an optional string by what it holds.
pub proof fn lemma_texts(strings: Seq<String>, i: int, text: String)
    requires
        0 <= i < strings.len(),
    ensures
        texts(strings).len() == strings.len(),
        texts(strings)[i] == strings[i]@,
        optional_text(Some(text)) == Some(text@),
        optional_text(None) is None,
{
}

/// White space is what Unicode gives the property `White_Space`, by its numbers.
pub proof fn lemma_white_space(c: char)
    ensures
        white_space(c) == seq![
            9int, 10, 11, 12, 13, 32, 133, 160, 5760, 8192, 8193, 8194, 8195, 8196, 8197,
            8198, 8199, 8200, 8201, 8202, 8232, 8233, 8239, 8287, 12288,
        ].contains(c as int),
{
    let all = seq![
            9int, 10, 11, 12, 13, 32, 133, 160, 5760, 8192, 8193, 8194, 8195, 8196, 8197,
            8198, 8199, 8200, 8201, 8202, 8232, 8233, 8239, 8287, 12288,
        ];
    assert(all.len() == 25);
    assert(all[0] == 9);
    assert(all[1] == 10);
    assert(all[2] == 11);
    assert(all[3] == 12);
    assert(all[4] == 13);
    assert(all[5] == 32);
    assert(all[6] == 133);
    assert(all[7] == 160);
    assert(all[8] == 5760);
    assert(all[9] == 8192);
    assert(all[10] == 8193);
    assert(all[11] == 8194);
    assert(all[12] == 8195);
    assert(all[13] == 8196);
    assert(all[14] == 8197);
    assert(all[15] == 8198);
    assert(all[16] == 8199);
    assert(all[17] == 8200);
    assert(all[18] == 8201);
    assert(all[19] == 8202);
    assert(all[20] == 8232);
    assert(all[21] == 8233);
    assert(all[22] == 8239);
    assert(all[23] == 8287);
    assert(all[24] == 12288);
    if white_space(c) {
        assert(exists|i: int| 0 <= i < all.len() && all[i] == c as int);
    }
}

proof fn lemma_trimmed_start_is_rest(text: Seq<char>) -> (from: int)
    ensures
        0 <= from <= text.len(),
        trimmed_start(text) == text.skip(from),
        forall|i: int| 0 <= i < from ==> white_space(#[trigger] text[i]),
        from < text.len() ==> !white_space(text[from]),
    decreases text.len(),
{
    if text.len() > 0 && white_space(text.first()) {
        let rest = text.drop_first();
        let from = lemma_trimmed_start_is_rest(rest);
        assert(rest.skip(from) == text.skip(from + 1));
        assert forall|i: int| 0 <= i < from + 1 implies white_space(#[trigger] text[i]) by {
            if i > 0 {
                assert(white_space(rest[i - 1]));
            }
        }
        if from < rest.len() {
            assert(rest[from] == text[from + 1]);
        }
        from + 1
    } else {
        assert(text.skip(0) == text);
        0
    }
}

proof fn lemma_trimmed_end_is_start(text: Seq<char>) -> (to: int)
    ensures
        0 <= to <= text.len(),
        trimmed_end(text) == text.take(to),
        forall|i: int| to <= i < text.len() ==> white_space(#[trigger] text[i]),
        0 < to ==> !white_space(text[to - 1]),
    decreases text.len(),
{
    if text.len() > 0 && white_space(text.last()) {
        let rest = text.drop_last();
        let to = lemma_trimmed_end_is_start(rest);
        assert(rest.take(to) == text.take(to));
        assert forall|i: int| to <= i < text.len() implies white_space(#[trigger] text[i]) by {
            if i < rest.len() {
                assert(white_space(rest[i]));
            }
        }
        if 0 < to {
            assert(rest[to - 1] == text[to - 1]);
        }
        to
    } else {
        assert(text.take(text.len() as int) == text);
        text.len() as int
    }
}

/// Trimming keeps one stretch of a text as it is. All around it is white space, and it neither
/// starts nor ends with any.
pub proof fn lemma_trimmed(text: Seq<char>) -> (span: (int, int))
    ensures
        0 <= span.0 <= span.1 <= text.len(),
        trimmed(text) == text.subrange(span.0, span.1),
        forall|i: int|
            0 <= i < text.len() && (i < span.0 || span.1 <= i) ==> white_space(#[trigger] text[i]),
        span.0 < span.1 ==> !white_space(text[span.0]) && !white_space(text[span.1 - 1]),
{
    let from = lemma_trimmed_start_is_rest(text);
    let rest = text.skip(from);
    let len = lemma_trimmed_end_is_start(rest);
    let to = from + len;
    assert(rest.take(len) == text.subrange(from, to));
    assert forall|i: int|
        0 <= i < text.len() && (i < from || to <= i) implies white_space(#[trigger] text[i]) by {
        if to <= i {
            assert(white_space(rest[i - from]));
        }
    }
    if from < to {
        assert(rest[len - 1] == text[to - 1]);
    }
    (from, to)
}

/// A text without white space at its ends is kept whole, whatever white space is put around it.
pub proof fn lemma_trimmed_keeps(before: Seq<char>, text: Seq<char>, behind: Seq<char>)
    requires
        forall|i: int| 0 <= i < before.len() ==> white_space(#[trigger] before[i]),
        forall|i: int| 0 <= i < behind.len() ==> white_space(#[trigger] behind[i]),
        text.len() > 0,
        !white_space(text.first()),
        !white_space(text.last()),
    ensures
        trimmed(before + text + behind) == text,
{
    let all = before + text + behind;
    let (from, to) = lemma_trimmed(all);
    let start = before.len() as int;
    let end = start + text.len();
    assert(all[start] == text.first() && all[end - 1] == text.last());
    assert(from <= start);
    assert(to >= end);
    if from < start {
        assert(all[from] == before[from]);
        assert(white_space(before[from]));
    }
    if to > end {
        assert(all[to - 1] == behind[to - 1 - end]);
        assert(white_space(behind[to - 1 - end]));
    }
    assert(all.subrange(from, to) == text);
}

/// One part stands for itself, and what is joined of two lists is what is joined of each, with
/// one separator between them.
pub proof fn lemma_joined(parts: Seq<Seq<char>>, more: Seq<Seq<char>>, sep: char)
    requires
        parts.len() > 0,
        more.len() > 0,
    ensures
        joined(seq![parts[0]], sep) == parts[0],
        joined(parts + more, sep) == joined(parts, sep) + seq![sep] + joined(more, sep),
        joined(parts + more, sep).len() == joined(parts, sep).len() + 1 + joined(more, sep).len(),
    decreases more.len(),
{
    let all = parts + more;
    assert(all.last() == more.last());
    assert(all.drop_last() == parts + more.drop_last());
    if more.len() == 1 {
        assert(parts + more.drop_last() == parts);
        assert(joined(all, sep) == joined(parts, sep) + seq![sep] + joined(more, sep));
    } else {
        lemma_joined(parts, more.drop_last(), sep);
        assert(joined(all, sep) == joined(parts, sep) + seq![sep] + joined(more, sep));
    }
}

/// A text is split at its first separator: into what stands before it, and the pieces of what
/// stands behind it. Without a separator it is one piece.
pub proof fn lemma_first_piece(first: Seq<char>, sep: char, rest: Seq<char>)
    requires
        !first.contains(sep),
    ensures
        pieces(first, sep) == seq![first],
        pieces(first + seq![sep] + rest, sep) == seq![first] + pieces(rest, sep),
{
    lemma_one_piece(first, sep);
    assert(first + seq![sep] + rest == first.push(sep) + rest);
    lemma_pieces_concat(first, sep, rest);
}

/// A text's first line is what stands before its first line feed, or before a carriage return
/// and a line feed; its other lines are those of the rest. Without a line feed a text is one
/// line, if it holds anything, whatever it ends with.
pub proof fn lemma_first_line(line: Seq<char>, rest: Seq<char>)
    requires
        !line.contains('\n'),
    ensures
        line.len() == 0 || line.last() != '\r' ==> lines_of(line + seq!['\n'] + rest)
            == seq![line] + lines_of(rest),
        lines_of(line + seq!['\r', '\n'] + rest) == seq![line] + lines_of(rest),
        line.len() > 0 ==> lines_of(line) == seq![line],
        lines_of(Seq::<char>::empty()) == Seq::<Seq<char>>::empty(),
{
    if line.len() == 0 || line.last() != '\r' {
        lemma_ended_line(line, line, rest);
        assert(line + seq!['\n'] + rest == line.push('\n') + rest);
    }
    let returned = line.push('\r');
    assert(!returned.contains('\n')) by {
        if returned.contains('\n') {
            let i = choose|i: int| 0 <= i < returned.len() && returned[i] == '\n';
            assert(line[i] == '\n');
        }
    }
    assert(returned.drop_last() == line);
    lemma_ended_line(returned, line, rest);
    assert(line + seq!['\r', '\n'] + rest == returned.push('\n') + rest);
    lemma_one_piece(line, '\n');
    if line.len() > 0 {
        assert(seq![line].drop_last().map_values(|l: Seq<char>| without_return(l)).push(line)
            == seq![line]);
    }
    let none = Seq::<char>::empty();
    assert(pieces(none, '\n') == seq![none]);
    assert(lines_of(none) == Seq::<Seq<char>>::empty());
}

proof fn lemma_ended_line(piece: Seq<char>, line: Seq<char>, rest: Seq<char>)
    requires
        !piece.contains('\n'),
        without_return(piece) == line,
    ensures
        lines_of(piece.push('\n') + rest) == seq![line] + lines_of(rest),
{
    lemma_lines_append(piece.push('\n'), rest);
    lemma_line_feed_ends_line(piece);
    lemma_one_piece(piece, '\n');
    let ended = lines_of(piece.push('\n'));
    assert(ended.drop_last().len() == 0) by {
        assert(piece.push('\n').drop_last() == piece);
        assert(pieces(piece.push('\n'), '\n') == seq![piece].push(Seq::empty()));
        assert(seq![piece].push(Seq::empty()).drop_last().len() == 1);
    }
    assert(ended == seq![line]);
}

/// The number that a row of decimal digits stands for.
pub open spec fn decimal_value(digits: Seq<char>) -> int
    decreases digits.len(),
{
    if digits.len() == 0 {
        0
    } else {
        decimal_value(digits.drop_last()) * 10 + (digits.last() as int - '0' as int)
    }
}

/// A number in decimal reads back as the number. It is made of digits, and starts with a zero
/// only where it is zero.
pub proof fn lemma_decimal(n: nat)
    ensures
        decimal_value(decimal(n)) == n,
        decimal(n).len() > 0,
        forall|i: int|
            0 <= i < decimal(n).len() ==> '0' <= #[trigger] decimal(n)[i] && decimal(n)[i] <= '9',
        decimal(n)[0] == '0' <==> n == 0,
        decimal(n)[0] == '0' ==> decimal(n).len() == 1,
    decreases n,
{
    let text = decimal(n);
    if n < 10 {
        assert(text.drop_last() == Seq::<char>::empty());
        assert(text.last() == digit(n));
        assert(decimal_value(text.drop_last()) == 0);
    } else {
        lemma_decimal(n / 10);
        let front = decimal(n / 10);
        assert(text.drop_last() == front);
        assert(text.last() == digit(n % 10));
        assert(text[0] == front[0]);
    }
}

/// Where the `i`th of `parts` starts when they are joined: behind all those before it, and one
/// separator for each of them.
pub open spec fn part_start(parts: Seq<Seq<char>>, i: int) -> int
    decreases i,
{
    if i <= 0 {
        0
    } else {
        part_start(parts, i - 1) + parts[i - 1].len() + 1
    }
}

proof fn lemma_part_start(parts: Seq<Seq<char>>, i: int)
    requires
        0 <= i < parts.len(),
    ensures
        part_start(parts.drop_last(), i) == part_start(parts, i),
        0 <= part_start(parts, i),
    decreases i,
{
    if i > 0 {
        lemma_part_start(parts, i - 1);
        assert(parts.drop_last()[i - 1] == parts[i - 1]);
    }
}

/// Joined parts are the parts, whole and in order, with one separator between each two: the
/// `i`th stands where all before it and their separators end, and nothing is added or lost.
pub proof fn lemma_joined_places(parts: Seq<Seq<char>>, sep: char)
    requires
        parts.len() > 0,
    ensures
        joined(parts, sep).len() + 1 == part_start(parts, parts.len() as int),
        forall|i: int|
            0 <= i < parts.len() ==> {
                &&& 0 <= part_start(parts, i)
                &&& part_start(parts, i) + parts[i].len() <= joined(parts, sep).len()
                &&& joined(parts, sep).subrange(
                    part_start(parts, i),
                    part_start(parts, i) + parts[i].len(),
                ) == #[trigger] parts[i]
                &&& i > 0 ==> joined(parts, sep)[part_start(parts, i) - 1] == sep
            },
    decreases parts.len(),
{
    let all = joined(parts, sep);
    let n = parts.len() - 1;
    if n == 0 {
        assert(part_start(parts, 1) == part_start(parts, 0) + parts[0].len() + 1);
        assert(all.subrange(0, parts[0].len() as int) == parts[0]);
    } else {
        let front = parts.drop_last();
        let before = joined(front, sep);
        lemma_joined_places(front, sep);
        assert(front.len() == n);
        lemma_part_start(parts, n);
        assert(part_start(front, n) == part_start(parts, n));
        assert(part_start(parts, n + 1) == part_start(parts, n) + parts[n].len() + 1);
        assert forall|i: int| 0 <= i < parts.len() implies {
            &&& 0 <= part_start(parts, i)
            &&& part_start(parts, i) + parts[i].len() <= all.len()
            &&& all.subrange(part_start(parts, i), part_start(parts, i) + parts[i].len())
                == #[trigger] parts[i]
            &&& i > 0 ==> all[part_start(parts, i) - 1] == sep
        } by {
            lemma_part_start(parts, i);
            let at = part_start(parts, i);
            if i < n {
                assert(front[i] == parts[i]);
                let len = parts[i].len() as int;
                assert(before.subrange(at, at + len) == all.subrange(at, at + len));
                if i > 0 {
                    lemma_part_start(parts, i - 1);
                    assert(at - 1 == part_start(parts, i - 1) + parts[i - 1].len());
                    assert(all[at - 1] == before[at - 1]);
                }
            } else {
                assert(at == before.len() + 1);
                assert(all.subrange(at, at + parts[i].len()) == parts[i]);
            }
        }
    }
}

/// Parts joined by white space are blank exactly where each of them is.
pub proof fn lemma_joined_blank(parts: Seq<Seq<char>>, sep: char)
    requires
        white_space(sep),
    ensures
        blank(joined(parts, sep)) <==> forall|i: int| 0 <= i < parts.len() ==> blank(
            #[trigger] parts[i],
        ),
    decreases parts.len(),
{
    let all = joined(parts, sep);
    if parts.len() > 1 {
        let front = parts.drop_last();
        let before = joined(front, sep);
        let last = parts.last();
        lemma_joined_blank(front, sep);
        assert(all == before.push(sep) + last);
        assert(blank(all) <==> blank(before) && blank(last)) by {
            if blank(all) {
                assert forall|i: int| 0 <= i < before.len() implies white_space(
                    #[trigger] before[i],
                ) by {
                    assert(white_space(all[i]));
                }
                assert forall|i: int| 0 <= i < last.len() implies white_space(
                    #[trigger] last[i],
                ) by {
                    assert(white_space(all[before.len() + 1 + i]));
                }
            }
            if blank(before) && blank(last) {
                assert forall|i: int| 0 <= i < all.len() implies white_space(#[trigger] all[i]) by {
                    if i < before.len() {
                        assert(white_space(before[i]));
                    } else if i > before.len() {
                        assert(white_space(last[i - before.len() - 1]));
                    }
                }
            }
        }
        assert((forall|i: int| 0 <= i < parts.len() ==> blank(#[trigger] parts[i])) <==> ((forall|
            i: int,
        |
            0 <= i < front.len() ==> blank(#[trigger] front[i])) && blank(last))) by {
            if forall|i: int| 0 <= i < parts.len() ==> blank(#[trigger] parts[i]) {
                assert forall|i: int| 0 <= i < front.len() implies blank(#[trigger] front[i]) by {
                    assert(blank(parts[i]));
                }
                assert(blank(parts[parts.len() - 1]));
            }
            if (forall|i: int| 0 <= i < front.len() ==> blank(#[trigger] front[i])) && blank(last) {
                assert forall|i: int| 0 <= i < parts.len() implies blank(#[trigger] parts[i]) by {
                    if i < front.len() {
                        assert(blank(front[i]));
                    }
                }
            }
        }
    } else if parts.len() == 1 {
        assert(all == parts[0]);
    }
}

} // verus!
