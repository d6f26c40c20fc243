//! Times, base64, bucket names and text.

use plannotator::base64::encode;
use plannotator::pi::encoded_dir;
use plannotator::text::{lines, split, to_decimal, trim};
use plannotator::time::iso_from_unix_ms;

#[test]
fn times_are_iso_8601_in_utc() {
    assert_eq!(iso_from_unix_ms(0), "1970-01-01T00:00:00.000Z");
    assert_eq!(iso_from_unix_ms(1787938060000), "2026-08-28T17:27:40.000Z");
    assert_eq!(iso_from_unix_ms(951782400000 - 1), "2000-02-28T23:59:59.999Z");
    assert_eq!(iso_from_unix_ms(951782400000), "2000-02-29T00:00:00.000Z");
    assert_eq!(iso_from_unix_ms(4107542400000), "2100-03-01T00:00:00.000Z");
    assert_eq!(iso_from_unix_ms(1735689599007), "2024-12-31T23:59:59.007Z");
    assert_eq!(iso_from_unix_ms(253402300800000), "10000-01-01T00:00:00.000Z");
}

#[test]
fn base64_pads_to_groups_of_four() {
    assert_eq!(encode(b""), "");
    assert_eq!(encode(b"f"), "Zg==");
    assert_eq!(encode(b"fo"), "Zm8=");
    assert_eq!(encode(b"foo"), "Zm9v");
    assert_eq!(encode(b"foobar"), "Zm9vYmFy");
    assert_eq!(encode(&[0xfb, 0xff, 0xfe]), "+//+");
    assert_eq!(encode(&[0x00, 0x10, 0x83]), "ABCD");
}

#[test]
fn a_bucket_is_named_by_its_directory() {
    assert_eq!(encoded_dir("/work/project"), "--work-project--");
    assert_eq!(encoded_dir("/"), "----");
    assert_eq!(encoded_dir("relative/dir"), "--relative-dir--");
    assert_eq!(encoded_dir("C:\\work"), "--C--work--");
}

#[test]
fn lines_end_at_line_feeds() {
    assert_eq!(lines(""), Vec::<String>::new());
    assert_eq!(lines("a\r\n\nb\r"), ["a", "", "b\r"]);
    assert_eq!(lines("a\n"), ["a"]);
    assert_eq!(lines("\n"), [""]);
    for text in ["", "\n", "a", "a\n", "\r\n", "a\r\nb", "a\rb\n\n", "\r"] {
        assert_eq!(lines(text), text.lines().collect::<Vec<&str>>(), "{text:?}");
    }
}

#[test]
fn a_split_text_has_one_piece_more_than_separators() {
    for text in ["", "/", "a/b", "/a//b/"] {
        let parts = split(text, '/');
        assert_eq!(parts, text.split('/').collect::<Vec<&str>>(), "{text:?}");
        assert_eq!(parts.join("/"), text);
    }
}

#[test]
fn white_space_is_trimmed_as_unicode_has_it() {
    for text in ["", " ", "a", " a b\t", "\u{a0}x\u{2003}", "\u{200b}x\u{200b}", "\u{85}\u{3000}y\r\n"] {
        assert_eq!(trim(text), text.trim(), "{text:?}");
    }
    for c in (0..0x3100u32).filter_map(char::from_u32) {
        assert_eq!(trim(&c.to_string()).is_empty(), c.is_whitespace(), "{:x}", c as u32);
    }
}

#[test]
fn numbers_are_written_in_decimal() {
    for n in [0, 7, 10, 99, 100, 1_000_000_007, u64::MAX] {
        assert_eq!(to_decimal(n), n.to_string());
    }
}
