//! Percent-encoding of raw path bytes.
//!
//! The metadata format stores a path as percent-encoded bytes so that
//! arbitrary non-UTF-8 paths survive the text file unchanged.  The
//! encoding and decoding themselves are done by the `urlencoding` crate;
//! the spec functions here state both directions exactly, and the
//! round-trip lemma is proved from those statements.

use vstd::prelude::*;

verus! {

/// The `%` byte.
pub const PCT: u8 = 37;

/// Bytes the encoder passes through unchanged: ASCII alphanumerics and
/// `-`, `.`, `_`, `~`.
pub open spec fn is_unreserved(b: u8) -> bool {
    (48 <= b <= 57) || (65 <= b <= 90) || (97 <= b <= 122) || b == 45 || b == 46 || b == 95 || b
        == 126
}

/// The uppercase hexadecimal digit characters.
pub open spec fn hex_upper(d: int) -> char {
    if d == 0 {
        '0'
    } else if d == 1 {
        '1'
    } else if d == 2 {
        '2'
    } else if d == 3 {
        '3'
    } else if d == 4 {
        '4'
    } else if d == 5 {
        '5'
    } else if d == 6 {
        '6'
    } else if d == 7 {
        '7'
    } else if d == 8 {
        '8'
    } else if d == 9 {
        '9'
    } else if d == 10 {
        'A'
    } else if d == 11 {
        'B'
    } else if d == 12 {
        'C'
    } else if d == 13 {
        'D'
    } else if d == 14 {
        'E'
    } else {
        'F'
    }
}

/// The encoding of one byte: itself when unreserved, else `%` and two
/// uppercase hexadecimal digits.
pub open spec fn encode_byte_spec(b: u8) -> Seq<char> {
    if is_unreserved(b) {
        seq![b as char]
    } else {
        seq!['%', hex_upper(b as int / 16), hex_upper(b as int % 16)]
    }
}

/// The percent-encoding of a byte string, as `urlencoding::encode_binary`
/// produces it.
pub open spec fn percent_encode(s: Seq<u8>) -> Seq<char>
    decreases s.len(),
{
    if s.len() == 0 {
        Seq::empty()
    } else {
        encode_byte_spec(s[0]) + percent_encode(s.skip(1))
    }
}

/// Hexadecimal digit bytes, either case.
pub open spec fn is_hex_digit(b: u8) -> bool {
    (48 <= b <= 57) || (65 <= b <= 70) || (97 <= b <= 102)
}

/// The value of a hexadecimal digit byte.
pub open spec fn hex_digit_val(b: u8) -> int {
    if 48 <= b <= 57 {
        b - 48
    } else if 65 <= b <= 70 {
        b - 55
    } else {
        b - 87
    }
}

/// The percent-decoding of a byte string, as `urlencoding::decode_binary`
/// produces it: `%` followed by two hexadecimal digits becomes one byte;
/// a `%` whose following bytes do not form such a pair is kept literally,
/// together with a leading hexadecimal digit where one was read.
pub open spec fn percent_decode(s: Seq<u8>) -> Seq<u8>
    decreases s.len(),
{
    if s.len() == 0 {
        Seq::empty()
    } else if s[0] != PCT {
        seq![s[0]] + percent_decode(s.skip(1))
    } else if s.len() >= 3 && is_hex_digit(s[1]) && is_hex_digit(s[2]) {
        seq![(hex_digit_val(s[1]) * 16 + hex_digit_val(s[2])) as u8] + percent_decode(s.skip(3))
    } else if s.len() >= 3 && is_hex_digit(s[1]) {
        seq![PCT, s[1]] + percent_decode(s.skip(2))
    } else if s.len() >= 3 {
        seq![PCT] + percent_decode(s.skip(1))
    } else {
        s
    }
}

/// The percent-decoding of a character string: the decoding of its
/// UTF-8 bytes.
pub open spec fn percent_decode_chars(cs: Seq<char>) -> Seq<u8> {
    percent_decode(vstd::utf8::encode_utf8(cs))
}

/// Relies on `urlencoding::encode_binary`: every byte except ASCII
/// alphanumerics and `-`, `.`, `_`, `~` becomes `%` and two uppercase
/// hexadecimal digits.
#[verifier::external_body]
pub(crate) fn percent_encode_bytes(b: &Vec<u8>) -> (r: String)
    ensures
        r@ == percent_encode(b@),
{
    urlencoding::encode_binary(b.as_slice()).into_owned()
}

/// Relies on `urlencoding::decode_binary`: `%XX` pairs become bytes and
/// everything else passes through, including a stray `%`.
#[verifier::external_body]
pub(crate) fn percent_decode_str(s: &str) -> (r: Vec<u8>)
    ensures
        r@ == percent_decode_chars(s@),
{
    urlencoding::decode_binary(s.as_bytes()).into_owned()
}

/// Every character the encoder emits is ASCII.
pub proof fn lemma_percent_encode_ascii(s: Seq<u8>)
    ensures
        vstd::utf8::is_ascii_chars(percent_encode(s)),
    decreases s.len(),
{
    if s.len() == 0 {
    } else {
        lemma_percent_encode_ascii(s.skip(1));
        let e = encode_byte_spec(s[0]);
        assert(forall|i: int|
            0 <= i < e.len() ==> '\0' <= #[trigger] e[i] <= '\u{7f}');
        assert(forall|i: int| 0 <= i < percent_encode(s).len() ==> '\0' <= #[trigger] percent_encode(
            s,
        )[i] <= '\u{7f}') by {
            assert forall|i: int|
                0 <= i < percent_encode(s).len() implies '\0' <= #[trigger] percent_encode(s)[i]
                <= '\u{7f}' by {
                if i < e.len() {
                    assert(percent_encode(s)[i] == e[i]);
                } else {
                    assert(percent_encode(s)[i] == percent_encode(s.skip(1))[i - e.len()]);
                }
            }
        }
    }
}

/// The encoder never emits a newline, carriage return, or `=`: the
/// encoded path stays inside its own key/value line.
pub proof fn lemma_percent_encode_no_meta(s: Seq<u8>)
    ensures
        forall|i: int|
            0 <= i < percent_encode(s).len() ==> #[trigger] percent_encode(s)[i] != '\n'
                && percent_encode(s)[i] != '\r' && percent_encode(s)[i] != '=',
    decreases s.len(),
{
    if s.len() == 0 {
    } else {
        lemma_percent_encode_no_meta(s.skip(1));
        let e = encode_byte_spec(s[0]);
        assert forall|i: int|
            0 <= i < percent_encode(s).len() implies #[trigger] percent_encode(s)[i] != '\n'
            && percent_encode(s)[i] != '\r' && percent_encode(s)[i] != '=' by {
            if i < e.len() {
                assert(percent_encode(s)[i] == e[i]);
            } else {
                assert(percent_encode(s)[i] == percent_encode(s.skip(1))[i - e.len()]);
            }
        }
    }
}

/// The ASCII bytes of an ASCII character sequence, element by element.
pub open spec fn ascii_bytes_of(cs: Seq<char>) -> Seq<u8> {
    cs.map_values(|c: char| c as u8)
}

/// For ASCII characters, the UTF-8 encoding is the element-wise byte map.
pub proof fn lemma_encode_utf8_ascii(cs: Seq<char>)
    requires
        vstd::utf8::is_ascii_chars(cs),
    ensures
        vstd::utf8::encode_utf8(cs) == ascii_bytes_of(cs),
{
    vstd::utf8::is_ascii_chars_encode_utf8(cs);
    assert(vstd::utf8::encode_utf8(cs) =~= ascii_bytes_of(cs));
}

/// An uppercase hexadecimal digit reads back as its value.
proof fn lemma_hex_upper_val(d: int)
    requires
        0 <= d <= 15,
    ensures
        is_hex_digit(hex_upper(d) as u8),
        hex_digit_val(hex_upper(d) as u8) == d,
{
}

/// Decoding inverts encoding: the round trip over the encoded bytes
/// gives the original byte string back.
pub proof fn lemma_percent_roundtrip(s: Seq<u8>)
    ensures
        percent_decode(ascii_bytes_of(percent_encode(s))) == s,
    decreases s.len(),
{
    if s.len() == 0 {
        assert(percent_encode(s) =~= Seq::<char>::empty());
        assert(ascii_bytes_of(percent_encode(s)) =~= Seq::<u8>::empty());
        assert(percent_decode(ascii_bytes_of(percent_encode(s))) =~= s);
    } else {
        lemma_percent_roundtrip(s.skip(1));
        let b = s[0];
        let e = encode_byte_spec(b);
        let cs = percent_encode(s);
        let bs = ascii_bytes_of(cs);
        let rest_bs = ascii_bytes_of(percent_encode(s.skip(1)));
        assert(cs == e + percent_encode(s.skip(1)));
        if is_unreserved(b) {
            assert(bs[0] == (b as char) as u8);
            assert((b as char) as u8 == b);
            assert(b != PCT);
            assert(bs.skip(1) =~= rest_bs);
            assert(percent_decode(bs) == seq![b] + percent_decode(rest_bs));
            assert(seq![b] + s.skip(1) =~= s);
        } else {
            lemma_hex_upper_val(b as int / 16);
            lemma_hex_upper_val(b as int % 16);
            assert(bs.len() >= 3);
            assert(bs[0] == PCT);
            assert(bs[1] == hex_upper(b as int / 16) as u8);
            assert(bs[2] == hex_upper(b as int % 16) as u8);
            assert(is_hex_digit(bs[1]) && is_hex_digit(bs[2]));
            assert(hex_digit_val(bs[1]) * 16 + hex_digit_val(bs[2]) == b as int / 16 * 16 + b as int
                % 16);
            assert(b as int / 16 * 16 + b as int % 16 == b as int);
            assert(bs.skip(3) =~= rest_bs);
            assert(percent_decode(bs) == seq![b] + percent_decode(rest_bs));
            assert(seq![b] + s.skip(1) =~= s);
        }
    }
}

} // verus!
