use unified_trash::codec::Trashinfo;
use unified_trash::ids::{encode_hex, id_from_bytes, matches_query};
use unified_trash::timestamp::Timestamp;

fn b(s: &str) -> Vec<u8> {
    s.as_bytes().to_vec()
}

#[test]
fn hex_rendering() {
    assert_eq!(encode_hex(&[0x00, 0x0f, 0xa5, 0xff]), "000fa5ff");
    assert_eq!(encode_hex(&[]), "");
}

// The identifier is the first ten hex characters of the SHA-256
// digest: for "abc" the digest starts ba7816bf8f01...
#[test]
fn identifier_is_digest_prefix() {
    assert_eq!(id_from_bytes(b"abc"), "ba7816bf8f");
    assert_eq!(id_from_bytes(b"").len(), 10);
    assert_ne!(id_from_bytes(b"abc"), id_from_bytes(b"abd"));
}

#[test]
fn query_matches_by_id_or_path() {
    let info = Trashinfo {
        trash_filename: b("abc"),
        trash_filename_trashinfo: b("abc.trashinfo"),
        deleted_at: Timestamp { year: 2024, month: 1, day: 22, hour: 14, minute: 3, second: 15 },
        original_filepath: b("abc"),
    };
    assert!(matches_query(&info, "ba7816bf8f"));
    assert!(matches_query(&info, "abc"));
    assert!(!matches_query(&info, "something else"));
}
