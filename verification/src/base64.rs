//! Base64 with the standard alphabet and padding.

use vstd::prelude::*;
use vstd::arithmetic::div_mod::{
    lemma_div_denominator, lemma_fundamental_div_mod, lemma_fundamental_div_mod_converse,
};

verus! {

/// The character that stands for six bits.
#[verifier::opaque]
pub open spec fn symbol(bits: int) -> char {
    if bits < 26 {
        ((bits + 65) as u8) as char
    } else if bits < 52 {
        ((bits + 71) as u8) as char
    } else if bits < 62 {
        ((bits - 4) as u8) as char
    } else if bits == 62 {
        '+'
    } else {
        '/'
    }
}

/// The six bits that a character stands for.
#[verifier::opaque]
pub open spec fn bits_of(symbol: char) -> int {
    if 'A' <= symbol && symbol <= 'Z' {
        symbol as int - 65
    } else if 'a' <= symbol && symbol <= 'z' {
        symbol as int - 71
    } else if '0' <= symbol && symbol <= '9' {
        symbol as int + 4
    } else if symbol == '+' {
        62
    } else {
        63
    }
}

/// The four characters for 24 bits.
pub open spec fn quad(bits: int) -> Seq<char> {
    seq![
        symbol(bits / 262144),
        symbol(bits / 4096 % 64),
        symbol(bits / 64 % 64),
        symbol(bits % 64),
    ]
}

/// `bytes` in base64: four characters for every three bytes, the last of them padded.
pub open spec fn encoded(bytes: Seq<u8>) -> Seq<char>
    decreases bytes.len(),
{
    if bytes.len() == 0 {
        Seq::empty()
    } else if bytes.len() == 1 {
        quad(bytes[0] * 65536).take(2) + "=="@
    } else if bytes.len() == 2 {
        quad(bytes[0] * 65536 + bytes[1] * 256).take(3) + "="@
    } else {
        quad(bytes[0] * 65536 + bytes[1] * 256 + bytes[2]) + encoded(bytes.skip(3))
    }
}

fn symbol_char(bits: u32) -> (c: char)
    requires
        bits < 64,
    ensures
        c == symbol(bits as int),
{
    proof {
        reveal(symbol);
    }
    if bits < 26 {
        (bits as u8 + 65) as char
    } else if bits < 52 {
        (bits as u8 + 71) as char
    } else if bits < 62 {
        (bits as u8 - 4) as char
    } else if bits == 62 {
        '+'
    } else {
        '/'
    }
}

/// `bytes` in base64.
pub fn encode(bytes: &[u8]) -> (text: String)
    ensures
        text@ == encoded(bytes@),
{
    let mut text = String::new();
    let mut i: usize = 0;
    assert(bytes@.skip(0) == bytes@);
    assert(text@ + encoded(bytes@) == encoded(bytes@));
    while bytes.len() - i >= 3
        invariant
            i <= bytes.len(),
            text@ + encoded(bytes@.skip(i as int)) == encoded(bytes@),
        decreases bytes.len() - i,
    {
        let ghost start = text@;
        let ghost rest = bytes@.skip(i as int);
        let bits: u32 = bytes[i] as u32 * 65536 + bytes[i + 1] as u32 * 256 + bytes[i + 2] as u32;
        text.push(symbol_char(bits / 262144));
        text.push(symbol_char(bits / 4096 % 64));
        text.push(symbol_char(bits / 64 % 64));
        text.push(symbol_char(bits % 64));
        assert(rest.skip(3) == bytes@.skip(i + 3));
        assert(text@ == start + quad(bits as int));
        assert(text@ + encoded(rest.skip(3)) == start + (quad(bits as int) + encoded(
            rest.skip(3),
        )));
        i += 3;
    }
    let ghost start = text@;
    let ghost rest = bytes@.skip(i as int);
    proof {
        reveal_strlit("==");
        reveal_strlit("=");
    }
    if bytes.len() - i == 1 {
        let bits: u32 = bytes[i] as u32 * 65536;
        text.push(symbol_char(bits / 262144));
        text.push(symbol_char(bits / 4096 % 64));
        text.append("==");
        assert(text@ == start + encoded(rest));
    } else if bytes.len() - i == 2 {
        let bits: u32 = bytes[i] as u32 * 65536 + bytes[i + 1] as u32 * 256;
        text.push(symbol_char(bits / 262144));
        text.push(symbol_char(bits / 4096 % 64));
        text.push(symbol_char(bits / 64 % 64));
        text.append("=");
        assert(text@ == start + encoded(rest));
    } else {
        assert(text@ == start + encoded(rest));
    }
    text
}

/// The three bytes in the 24 bits of four characters.
#[verifier::opaque]
pub open spec fn triple(a: char, b: char, c: char, d: char) -> Seq<u8> {
    let bits = bits_of(a) * 262144 + bits_of(b) * 4096 + bits_of(c) * 64 + bits_of(d);
    seq![(bits / 65536) as u8, (bits / 256 % 256) as u8, (bits % 256) as u8]
}

/// The bytes that a base64 text stands for.
pub open spec fn decoded(text: Seq<char>) -> Seq<u8>
    decreases text.len(),
{
    if text.len() < 4 {
        Seq::empty()
    } else if text[2] == '=' {
        triple(text[0], text[1], 'A', 'A').take(1)
    } else if text[3] == '=' {
        triple(text[0], text[1], text[2], 'A').take(2)
    } else {
        triple(text[0], text[1], text[2], text[3]) + decoded(text.skip(4))
    }
}

proof fn lemma_symbol(bits: int)
    requires
        0 <= bits < 64,
    ensures
        bits_of(symbol(bits)) == bits,
        symbol(bits) != '=',
        '+' <= symbol(bits) && symbol(bits) <= 'z',
{
    reveal(symbol);
    reveal(bits_of);
}

proof fn lemma_triple(bits: int)
    requires
        0 <= bits < 16777216,
    ensures
        quad(bits).len() == 4,
        triple(quad(bits)[0], quad(bits)[1], quad(bits)[2], quad(bits)[3]) == seq![
            (bits / 65536) as u8,
            (bits / 256 % 256) as u8,
            (bits % 256) as u8,
        ],
{
    reveal(triple);
    lemma_symbol(bits / 262144);
    lemma_symbol(bits / 4096 % 64);
    lemma_symbol(bits / 64 % 64);
    lemma_symbol(bits % 64);
    lemma_div_denominator(bits, 64, 64);
    lemma_div_denominator(bits, 4096, 64);
    lemma_fundamental_div_mod(bits, 64);
    lemma_fundamental_div_mod(bits / 64, 64);
    lemma_fundamental_div_mod(bits / 4096, 64);
    assert(bits == bits / 262144 * 262144 + bits / 4096 % 64 * 4096 + bits / 64 % 64 * 64 + bits
        % 64);
}

proof fn lemma_bytes(a: u8, b: u8, c: u8)
    ensures
        ({
            let bits = a * 65536 + b * 256 + c;
            &&& 0 <= bits < 16777216
            &&& bits / 65536 == a
            &&& bits / 256 % 256 == b
            &&& bits % 256 == c
        }),
{
    let bits = a * 65536 + b * 256 + c;
    lemma_fundamental_div_mod_converse(bits, 65536, a as int, b * 256 + c);
    lemma_fundamental_div_mod_converse(bits, 256, a * 256 + b, c as int);
    lemma_fundamental_div_mod_converse(a * 256 + b, 256, a as int, b as int);
}

proof fn lemma_group(bits: int, a: u8, b: u8, c: u8)
    requires
        bits == a * 65536 + b * 256 + c,
    ensures
        triple(quad(bits)[0], quad(bits)[1], quad(bits)[2], quad(bits)[3]) == seq![a, b, c],
        quad(bits)[2] != '=',
        quad(bits)[3] != '=',
{
    lemma_bytes(a, b, c);
    assert(triple(quad(bits)[0], quad(bits)[1], quad(bits)[2], quad(bits)[3]) == seq![a, b, c])
        by {
        lemma_triple(bits);
    }
    lemma_symbol(bits / 64 % 64);
    lemma_symbol(bits % 64);
}

proof fn lemma_zero_symbols(bits: int)
    ensures
        bits % 64 == 0 ==> quad(bits)[3] == 'A',
        bits / 64 % 64 == 0 ==> quad(bits)[2] == 'A',
{
    reveal(symbol);
}

/// Decoding gives back every byte that was encoded.
pub proof fn lemma_round_trip(bytes: Seq<u8>)
    ensures
        decoded(encoded(bytes)) == bytes,
    decreases bytes.len(),
{
    let text = encoded(bytes);
    reveal_strlit("==");
    reveal_strlit("=");
    if bytes.len() == 0 {
        assert(decoded(text) == bytes);
    } else if bytes.len() == 1 {
        let bits = bytes[0] * 65536;
        lemma_group(bits, bytes[0], 0, 0);
        lemma_zero_symbols(bits);
        assert(text[2] == '=');
        assert(decoded(text) == bytes);
    } else if bytes.len() == 2 {
        let bits = bytes[0] * 65536 + bytes[1] * 256;
        lemma_group(bits, bytes[0], bytes[1], 0);
        lemma_zero_symbols(bits);
        assert(text[3] == '=');
        assert(decoded(text) == bytes);
    } else {
        lemma_group(
            bytes[0] * 65536 + bytes[1] * 256 + bytes[2],
            bytes[0],
            bytes[1],
            bytes[2],
        );
        let rest = bytes.skip(3);
        assert(text.skip(4) == encoded(rest));
        lemma_round_trip(rest);
        assert(decoded(text) == seq![bytes[0], bytes[1], bytes[2]] + rest);
        assert(decoded(text) == bytes);
    }
}

/// A character that a base64 text may hold; none of them is a control character.
pub open spec fn printable(c: char) -> bool {
    '+' <= c && c <= 'z'
}

proof fn lemma_quad_printable(bits: int)
    requires
        0 <= bits < 16777216,
    ensures
        printable(quad(bits)[0]),
        printable(quad(bits)[1]),
        printable(quad(bits)[2]),
        printable(quad(bits)[3]),
{
    lemma_symbol(bits / 262144);
    lemma_symbol(bits / 4096 % 64);
    lemma_symbol(bits / 64 % 64);
    lemma_symbol(bits % 64);
}

/// A base64 text holds no control character.
pub proof fn lemma_printable(bytes: Seq<u8>)
    ensures
        forall|i: int| 0 <= i < encoded(bytes).len() ==> printable(#[trigger] encoded(bytes)[i]),
    decreases bytes.len(),
{
    let text = encoded(bytes);
    reveal_strlit("==");
    reveal_strlit("=");
    if bytes.len() == 1 {
        lemma_quad_printable(bytes[0] * 65536);
    } else if bytes.len() == 2 {
        lemma_quad_printable(bytes[0] * 65536 + bytes[1] * 256);
    } else if bytes.len() > 2 {
        lemma_quad_printable(bytes[0] * 65536 + bytes[1] * 256 + bytes[2]);
        let rest = encoded(bytes.skip(3));
        lemma_printable(bytes.skip(3));
        assert forall|i: int| 0 <= i < text.len() implies printable(#[trigger] text[i]) by {
            if i >= 4 {
                assert(text[i] == rest[i - 4]);
            }
        }
    }
}

/// A base64 text has four characters for every three bytes begun.
pub proof fn lemma_length(bytes: Seq<u8>)
    ensures
        encoded(bytes).len() == (bytes.len() + 2) / 3 * 4,
    decreases bytes.len(),
{
    reveal_strlit("==");
    reveal_strlit("=");
    if bytes.len() > 2 {
        lemma_length(bytes.skip(3));
    }
}

proof fn lemma_alphabet(value: int)
    requires
        0 <= value < 64,
    ensures
        symbol(value)
            == "ABCDEFGHIJKLMNOPQRSTUVWXYZabcdefghijklmnopqrstuvwxyz0123456789+/"@[value],
        "ABCDEFGHIJKLMNOPQRSTUVWXYZabcdefghijklmnopqrstuvwxyz0123456789+/"@.len()
            == 64,
{
    reveal(symbol);
    reveal_strlit("ABCDEFGHIJKLMNOPQRSTUVWXYZabcdefghijklmnopqrstuvwxyz0123456789+/");
    let alphabet = "ABCDEFGHIJKLMNOPQRSTUVWXYZabcdefghijklmnopqrstuvwxyz0123456789+/"@;
    assert(alphabet[0] == symbol(0));
    assert(alphabet[1] == symbol(1));
    assert(alphabet[2] == symbol(2));
    assert(alphabet[3] == symbol(3));
    assert(alphabet[4] == symbol(4));
    assert(alphabet[5] == symbol(5));
    assert(alphabet[6] == symbol(6));
    assert(alphabet[7] == symbol(7));
    assert(alphabet[8] == symbol(8));
    assert(alphabet[9] == symbol(9));
    assert(alphabet[10] == symbol(10));
    assert(alphabet[11] == symbol(11));
    assert(alphabet[12] == symbol(12));
    assert(alphabet[13] == symbol(13));
    assert(alphabet[14] == symbol(14));
    assert(alphabet[15] == symbol(15));
    assert(alphabet[16] == symbol(16));
    assert(alphabet[17] == symbol(17));
    assert(alphabet[18] == symbol(18));
    assert(alphabet[19] == symbol(19));
    assert(alphabet[20] == symbol(20));
    assert(alphabet[21] == symbol(21));
    assert(alphabet[22] == symbol(22));
    assert(alphabet[23] == symbol(23));
    assert(alphabet[24] == symbol(24));
    assert(alphabet[25] == symbol(25));
    assert(alphabet[26] == symbol(26));
    assert(alphabet[27] == symbol(27));
    assert(alphabet[28] == symbol(28));
    assert(alphabet[29] == symbol(29));
    assert(alphabet[30] == symbol(30));
    assert(alphabet[31] == symbol(31));
    assert(alphabet[32] == symbol(32));
    assert(alphabet[33] == symbol(33));
    assert(alphabet[34] == symbol(34));
    assert(alphabet[35] == symbol(35));
    assert(alphabet[36] == symbol(36));
    assert(alphabet[37] == symbol(37));
    assert(alphabet[38] == symbol(38));
    assert(alphabet[39] == symbol(39));
    assert(alphabet[40] == symbol(40));
    assert(alphabet[41] == symbol(41));
    assert(alphabet[42] == symbol(42));
    assert(alphabet[43] == symbol(43));
    assert(alphabet[44] == symbol(44));
    assert(alphabet[45] == symbol(45));
    assert(alphabet[46] == symbol(46));
    assert(alphabet[47] == symbol(47));
    assert(alphabet[48] == symbol(48));
    assert(alphabet[49] == symbol(49));
    assert(alphabet[50] == symbol(50));
    assert(alphabet[51] == symbol(51));
    assert(alphabet[52] == symbol(52));
    assert(alphabet[53] == symbol(53));
    assert(alphabet[54] == symbol(54));
    assert(alphabet[55] == symbol(55));
    assert(alphabet[56] == symbol(56));
    assert(alphabet[57] == symbol(57));
    assert(alphabet[58] == symbol(58));
    assert(alphabet[59] == symbol(59));
    assert(alphabet[60] == symbol(60));
    assert(alphabet[61] == symbol(61));
    assert(alphabet[62] == symbol(62));
    assert(alphabet[63] == symbol(63));
}

proof fn lemma_six_bits(a: u8, b: u8, c: u8)
    ensures
        ({
            let bits = a * 65536 + b * 256 + c;
            &&& bits / 262144 == (a * 256 + b) / 1024 % 64
            &&& bits / 4096 % 64 == (a * 256 + b) / 16 % 64
            &&& bits / 64 % 64 == (b * 256 + c) / 64 % 64
            &&& bits % 64 == c as int % 64
        }),
{
    let bits = a * 65536 + b * 256 + c;
    let (a, b, c) = (a as int, b as int, c as int);
    lemma_fundamental_div_mod_converse(bits, 262144, a / 4, a % 4 * 65536 + b * 256 + c);
    lemma_fundamental_div_mod_converse(a * 256 + b, 1024, a / 4, a % 4 * 256 + b);
    lemma_fundamental_div_mod_converse(bits, 4096, a * 16 + b / 16, b % 16 * 256 + c);
    lemma_fundamental_div_mod_converse(a * 256 + b, 16, a * 16 + b / 16, b % 16);
    lemma_fundamental_div_mod_converse(bits, 64, a * 1024 + b * 4 + c / 64, c % 64);
    lemma_fundamental_div_mod_converse(b * 256 + c, 64, b * 4 + c / 64, c % 64);
    let x = b * 4 + c / 64;
    lemma_fundamental_div_mod_converse(a * 1024 + x, 64, a * 16 + x / 64, x % 64);
}

proof fn lemma_quad_standard(a: u8, b: u8, c: u8)
    ensures
        ({
            let alphabet = "ABCDEFGHIJKLMNOPQRSTUVWXYZabcdefghijklmnopqrstuvwxyz0123456789+/"@;
            let four = quad(a * 65536 + b * 256 + c);
            &&& four.len() == 4
            &&& four[0] == alphabet[(a * 256 + b) / 1024 % 64]
            &&& four[1] == alphabet[(a * 256 + b) / 16 % 64]
            &&& four[2] == alphabet[(b * 256 + c) / 64 % 64]
            &&& four[3] == alphabet[c as int % 64]
        }),
{
    lemma_six_bits(a, b, c);
    lemma_alphabet((a * 256 + b) / 1024 % 64);
    lemma_alphabet((a * 256 + b) / 16 % 64);
    lemma_alphabet((b * 256 + c) / 64 % 64);
    lemma_alphabet(c as int % 64);
}

/// Base64 is the standard one: the `j`th character is the letter that the standard alphabet has
/// for the bits from the `6 * j`th on, six of them and zeros behind the last byte; where there
/// are no bits left, it is padding.
pub proof fn lemma_standard(bytes: Seq<u8>, j: int)
    requires
        0 <= j < encoded(bytes).len(),
    ensures
        ({
            let at = 6 * j / 8;
            let high = bytes[at] as int;
            let low = if at + 1 < bytes.len() {
                bytes[at + 1] as int
            } else {
                0
            };
            let below: int = if 6 * j % 8 == 0 {
                1024
            } else if 6 * j % 8 == 2 {
                256
            } else if 6 * j % 8 == 4 {
                64
            } else {
                16
            };
            encoded(bytes)[j] == if 6 * j < 8 * bytes.len() {
                "ABCDEFGHIJKLMNOPQRSTUVWXYZabcdefghijklmnopqrstuvwxyz0123456789+/"@[(high * 256
                    + low) / below % 64]
            } else {
                '='
            }
        }),
    decreases bytes.len(),
{
    reveal_strlit("==");
    reveal_strlit("=");
    let text = encoded(bytes);
    if bytes.len() == 1 {
        lemma_quad_standard(bytes[0], 0, 0);
        assert(j == 0 || j == 1 || j == 2 || j == 3);
    } else if bytes.len() == 2 {
        lemma_quad_standard(bytes[0], bytes[1], 0);
        assert(j == 0 || j == 1 || j == 2 || j == 3);
    } else if j < 4 {
        lemma_quad_standard(bytes[0], bytes[1], bytes[2]);
        assert(j == 0 || j == 1 || j == 2 || j == 3);
        if j == 3 {
            let low = if 3 < bytes.len() {
                bytes[3] as int
            } else {
                0
            };
            lemma_fundamental_div_mod_converse(bytes[2] * 256 + low, 256, bytes[2] as int, low);
        }
    } else {
        let rest = bytes.skip(3);
        lemma_standard(rest, j - 4);
        assert(text[j] == encoded(rest)[j - 4]);
        assert(6 * j / 8 == 6 * (j - 4) / 8 + 3);
        assert(6 * j % 8 == 6 * (j - 4) % 8);
        let at = 6 * (j - 4) / 8;
        if 6 * (j - 4) < 8 * rest.len() {
            assert(rest[at] == bytes[at + 3]);
            if at + 1 < rest.len() {
                assert(rest[at + 1] == bytes[at + 4]);
            }
        }
    }
}

/// Every character of a base64 text is a letter, a digit, a plus, a slash or padding.
pub proof fn lemma_standard_characters(bytes: Seq<u8>, j: int)
    requires
        0 <= j < encoded(bytes).len(),
    ensures
        ({
            let c = encoded(bytes)[j];
            ||| 'A' <= c && c <= 'Z'
            ||| 'a' <= c && c <= 'z'
            ||| '0' <= c && c <= '9'
            ||| c == '+'
            ||| c == '/'
            ||| c == '='
        }),
{
    lemma_standard(bytes, j);
    if 6 * j < 8 * bytes.len() {
        let at = 6 * j / 8;
        let low = if at + 1 < bytes.len() {
            bytes[at + 1] as int
        } else {
            0
        };
        let word = bytes[at] * 256 + low;
        lemma_alphabet(word / 1024 % 64);
        lemma_alphabet(word / 256 % 64);
        lemma_alphabet(word / 64 % 64);
        lemma_alphabet(word / 16 % 64);
        reveal(symbol);
    }
}

} // verus!
