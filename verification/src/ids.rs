//! Stable identifiers for trashed files.
//!
//! A trashed file's original path may hold bytes a terminal cannot
//! print, so listings show a short identifier instead: the first ten
//! hexadecimal characters of the SHA-256 digest of the path bytes.  A
//! removal or restore query may then name an entry by this identifier
//! or by its original path.

use crate::codec::Trashinfo;
use crate::paths;
use sha2::Digest;
use vstd::prelude::*;

verus! {

/// What `sha2`'s SHA-256 returns for a byte string; the digest depends
/// on the input alone.
pub uninterp spec fn sha256_of(data: Seq<u8>) -> Seq<u8>;

/// Relies on `sha2::Sha256::digest`: a 32-byte digest that is a
/// function of the input bytes alone.
#[verifier::external_body]
fn sha256(data: &[u8]) -> (r: Vec<u8>)
    ensures
        r@ == sha256_of(data@),
        r@.len() == 32,
{
    sha2::Sha256::digest(data).as_slice().to_vec()
}

/// The lowercase hexadecimal digit characters.
pub open spec fn hex_lower(d: int) -> char {
    if d == 0 {
        '0'
    } else if d == 1 {
        '1'
    } else if d == 2 {
        '2'
    } else if d == 3 {
        '3'
    } else if d == 4 {
        '4'
    } else if d == 5 {
        '5'
    } else if d == 6 {
        '6'
    } else if d == 7 {
        '7'
    } else if d == 8 {
        '8'
    } else if d == 9 {
        '9'
    } else if d == 10 {
        'a'
    } else if d == 11 {
        'b'
    } else if d == 12 {
        'c'
    } else if d == 13 {
        'd'
    } else if d == 14 {
        'e'
    } else {
        'f'
    }
}

/// The lowercase hexadecimal rendering of a byte string, two digits per
/// byte.
pub open spec fn hex_of(bytes: Seq<u8>) -> Seq<char>
    decreases bytes.len(),
{
    if bytes.len() == 0 {
        Seq::empty()
    } else {
        seq![hex_lower(bytes[0] as int / 16), hex_lower(bytes[0] as int % 16)] + hex_of(
            bytes.skip(1),
        )
    }
}

/// A single lowercase hexadecimal digit as a string slice.
fn hex_digit_str(d: u8) -> (r: &'static str)
    requires
        d <= 15,
    ensures
        r@ =~= seq![hex_lower(d as int)],
{
    proof {
        reveal_strlit("0");
        reveal_strlit("1");
        reveal_strlit("2");
        reveal_strlit("3");
        reveal_strlit("4");
        reveal_strlit("5");
        reveal_strlit("6");
        reveal_strlit("7");
        reveal_strlit("8");
        reveal_strlit("9");
        reveal_strlit("a");
        reveal_strlit("b");
        reveal_strlit("c");
        reveal_strlit("d");
        reveal_strlit("e");
        reveal_strlit("f");
    }
    match d {
        0 => "0",
        1 => "1",
        2 => "2",
        3 => "3",
        4 => "4",
        5 => "5",
        6 => "6",
        7 => "7",
        8 => "8",
        9 => "9",
        10 => "a",
        11 => "b",
        12 => "c",
        13 => "d",
        14 => "e",
        _ => "f",
    }
}

/// Renders bytes in lowercase hexadecimal as `hex_of` states it.
pub fn encode_hex(bytes: &[u8]) -> (r: String)
    ensures
        r@ == hex_of(bytes@),
{
    let mut s = String::new();
    let n = bytes.len();
    proof {
        assert(bytes@.take(0) =~= Seq::<u8>::empty());
        assert(s@ =~= hex_of(bytes@.take(0)));
    }
    for i in 0..n
        invariant
            n == bytes@.len(),
            s@ == hex_of(bytes@.take(i as int)),
    {
        let b = bytes[i];
        s.append(hex_digit_str(b / 16));
        s.append(hex_digit_str(b % 16));
        proof {
            lemma_hex_of_snoc(bytes@.take(i + 1));
            assert(bytes@.take(i + 1).drop_last() =~= bytes@.take(i as int));
            assert(bytes@.take(i + 1).last() == bytes@[i as int]);
            assert(s@ =~= hex_of(bytes@.take(i + 1)));
        }
    }
    proof {
        assert(bytes@.take(n as int) =~= bytes@);
    }
    s
}

/// Hexadecimal rendering grows from the back, one byte at a time.
proof fn lemma_hex_of_snoc(bytes: Seq<u8>)
    requires
        bytes.len() > 0,
    ensures
        hex_of(bytes) == hex_of(bytes.drop_last()) + seq![
            hex_lower(bytes.last() as int / 16),
            hex_lower(bytes.last() as int % 16),
        ],
    decreases bytes.len(),
{
    if bytes.len() == 1 {
        assert(bytes.drop_last() =~= Seq::<u8>::empty());
        assert(hex_of(bytes.skip(1)) == Seq::<char>::empty()) by {
            assert(bytes.skip(1) =~= Seq::<u8>::empty());
        }
        assert(hex_of(bytes) =~= hex_of(bytes.drop_last()) + seq![
            hex_lower(bytes.last() as int / 16),
            hex_lower(bytes.last() as int % 16),
        ]);
    } else {
        lemma_hex_of_snoc(bytes.skip(1));
        assert(bytes.skip(1).drop_last() =~= bytes.drop_last().skip(1));
        assert(bytes.skip(1).last() == bytes.last());
        assert(hex_of(bytes) =~= hex_of(bytes.drop_last()) + seq![
            hex_lower(bytes.last() as int / 16),
            hex_lower(bytes.last() as int % 16),
        ]);
    }
}

/// Hexadecimal output is twice as long as its input.
pub proof fn lemma_hex_of_len(bytes: Seq<u8>)
    ensures
        hex_of(bytes).len() == 2 * bytes.len(),
    decreases bytes.len(),
{
    if bytes.len() > 0 {
        lemma_hex_of_len(bytes.skip(1));
    }
}

/// The stable identifier of a path: the first ten hexadecimal
/// characters of its SHA-256 digest.
pub open spec fn id_of(input: Seq<u8>) -> Seq<char> {
    hex_of(sha256_of(input)).take(10)
}

/// Computes the identifier as `id_of` states it.
pub fn id_from_bytes(input: &[u8]) -> (r: String)
    ensures
        r@ == id_of(input@),
{
    let digest = sha256(input);
    let hex = encode_hex(digest.as_slice());
    proof {
        lemma_hex_of_len(digest@);
    }
    let prefix = hex.as_str().substring_char(0, 10);
    prefix.to_owned()
}

/// Whether an entry matches a removal or restore query: by its stable
/// identifier, or by its original path byte for byte.
pub open spec fn matches_query_spec(original_filepath: Seq<u8>, query: Seq<char>) -> bool {
    id_of(original_filepath) == query || original_filepath == vstd::utf8::encode_utf8(query)
}

/// Matches an entry against a query as `matches_query_spec` states it.
pub fn matches_query(info: &Trashinfo, query: &str) -> (r: bool)
    ensures
        r == matches_query_spec(info@.original_filepath, query@),
{
    let id = id_from_bytes(info.original_filepath.as_slice());
    let id_hit = {
        let q = query.to_owned();
        id.eq(&q)
    };
    let path_hit = paths::bytes_eq(info.original_filepath.as_slice(), query.as_bytes());
    id_hit || path_hit
}

} // verus!
