use unified_trash::codec::{parse_trashinfo, Trashinfo};
use unified_trash::timestamp::{format_timestamp, parse_timestamp, Timestamp};
use unified_trash::TrashError;

fn b(s: &str) -> Vec<u8> {
    s.as_bytes().to_vec()
}

fn ts(year: u16, month: u8, day: u8, hour: u8, minute: u8, second: u8) -> Timestamp {
    Timestamp { year, month, day, hour, minute, second }
}

#[test]
fn test_trashinfo_parse1() {
    let content = "[Trash Info]\nPath=foo/bar/meow.bow-wow\nDeletionDate=20040831T22:32:08";
    let ti = parse_trashinfo(&b("testfile1.txt.trashinfo"), content, &b("")).unwrap();

    assert_eq!(
        ti,
        Trashinfo {
            trash_filename: b("testfile1.txt"),
            trash_filename_trashinfo: b("testfile1.txt.trashinfo"),
            deleted_at: ts(2004, 8, 31, 22, 32, 8),
            original_filepath: b("foo/bar/meow.bow-wow"),
        }
    );
}

#[test]
fn test_trashinfo_parse2() {
    let content =
        "[Trash Info]\nPath=/home/user/Documents/files/more_files/test.rs\nDeletionDate=2024-01-22T14:03:15";
    let ti = parse_trashinfo(&b("testfile2.txt.trashinfo"), content, &b("")).unwrap();

    assert_eq!(
        ti,
        Trashinfo {
            trash_filename: b("testfile2.txt"),
            trash_filename_trashinfo: b("testfile2.txt.trashinfo"),
            deleted_at: ts(2024, 1, 22, 14, 3, 15),
            original_filepath: b("/home/user/Documents/files/more_files/test.rs"),
        }
    );
}

#[test]
fn test_trashinfo_parse3() {
    let content =
        "[Trash Info]\nPath=/home/user/testdir/file containing spaces v2.10\nDeletionDate=Fri, 12 Jan 1990 17:17:40 +0000";
    let ti = parse_trashinfo(&b("test file 3.trashinfo"), content, &b("")).unwrap();

    assert_eq!(
        ti,
        Trashinfo {
            trash_filename_trashinfo: b("test file 3.trashinfo"),
            trash_filename: b("test file 3"),
            deleted_at: ts(1990, 1, 12, 17, 17, 40),
            original_filepath: b("/home/user/testdir/file containing spaces v2.10"),
        }
    );
}

// The trash specification's own sample timestamp parses through the
// dedicated compact fallback parser.
#[test]
fn parse_spec_sample_timestamp() {
    let content = "[Trash Info]\nPath=/home/u/a.txt\nDeletionDate=20240122T14:03:15";
    let ti = parse_trashinfo(&b("a.txt.trashinfo"), content, &b("")).unwrap();
    assert_eq!(ti.deleted_at, ts(2024, 1, 22, 14, 3, 15));
}

#[test]
fn serialize_exact_text() {
    let entry = Trashinfo {
        trash_filename: b("doc.txt"),
        trash_filename_trashinfo: b("doc.txt.trashinfo"),
        deleted_at: ts(2024, 1, 22, 14, 3, 15),
        original_filepath: b("/home/u/my doc.txt"),
    };
    let text = entry.trashinfo_file();
    assert_eq!(
        text,
        "[Trash Info]\nPath=%2Fhome%2Fu%2Fmy%20doc.txt\nDeletionDate=2024-01-22T14:03:15"
    );
}

#[test]
fn serialize_relative_text() {
    let entry = Trashinfo {
        trash_filename: b("x.log"),
        trash_filename_trashinfo: b("x.log.trashinfo"),
        deleted_at: ts(2023, 12, 31, 23, 59, 59),
        original_filepath: b("/mnt/data/logs/x.log"),
    };
    let text = entry.trashinfo_file_relative(&b("/mnt/data")).unwrap();
    assert_eq!(text, "[Trash Info]\nPath=logs%2Fx.log\nDeletionDate=2023-12-31T23:59:59");
    assert_eq!(
        entry.trashinfo_file_relative(&b("/mnt/other")).unwrap_err(),
        TrashError::NotUnderRoot
    );
}

// Round trip: serialising an entry and parsing the text under its own
// metadata file name gives the entry back, non-UTF-8 path bytes
// included.
#[test]
fn roundtrip_with_raw_bytes() {
    let mut raw_path: Vec<u8> = b("/home/u/");
    raw_path.extend_from_slice(&[0xff, 0xfe, b'=', b'\n', 0x80]);
    let entry = Trashinfo {
        trash_filename: b("weird"),
        trash_filename_trashinfo: b("weird.trashinfo"),
        deleted_at: ts(2020, 2, 29, 0, 0, 0),
        original_filepath: raw_path,
    };
    let text = entry.trashinfo_file();
    let back = parse_trashinfo(&entry.trash_filename_trashinfo.clone(), &text, &b("/")).unwrap();
    assert_eq!(back, entry);
}

// Round trip through relative storage: the mount-trash form of the
// text resolves back to the absolute original when parsed against the
// same mount point.
#[test]
fn roundtrip_relative_storage() {
    let entry = Trashinfo {
        trash_filename: b("x.log"),
        trash_filename_trashinfo: b("x.log.trashinfo"),
        deleted_at: ts(2023, 12, 31, 23, 59, 59),
        original_filepath: b("/mnt/data/logs/x.log"),
    };
    let text = entry.trashinfo_file_relative(&b("/mnt/data")).unwrap();
    let back =
        parse_trashinfo(&entry.trash_filename_trashinfo.clone(), &text, &b("/mnt/data")).unwrap();
    assert_eq!(back, entry);
}

#[test]
fn parse_error_variants() {
    let dr = b("/");
    let name = b("x.trashinfo");
    assert_eq!(parse_trashinfo(&name, "", &dr).unwrap_err(), TrashError::NoFirstLine);
    assert_eq!(
        parse_trashinfo(&name, "[Trash]\nPath=/a\nDeletionDate=2024-01-22T14:03:15", &dr)
            .unwrap_err(),
        TrashError::BadFirstLine
    );
    assert_eq!(
        parse_trashinfo(&name, "[Trash Info]\nnonsense\nPath=/a", &dr).unwrap_err(),
        TrashError::BadLine
    );
    assert_eq!(
        parse_trashinfo(&name, "[Trash Info]\nDeletionDate=2024-01-22T14:03:15", &dr)
            .unwrap_err(),
        TrashError::NoPathEntry
    );
    assert_eq!(
        parse_trashinfo(&name, "[Trash Info]\nPath=/a", &dr).unwrap_err(),
        TrashError::NoDeletionDate
    );
    assert_eq!(
        parse_trashinfo(&name, "[Trash Info]\nPath=/a\nDeletionDate=not a date", &dr)
            .unwrap_err(),
        TrashError::BadTimestamp
    );
}

#[test]
fn parse_first_occurrence_wins() {
    let content =
        "[Trash Info]\nPath=/first\nPath=/second\nDeletionDate=2024-01-22T14:03:15\nDeletionDate=1999-01-01T00:00:00\nOther=ignored";
    let ti = parse_trashinfo(&b("f.trashinfo"), content, &b("")).unwrap();
    assert_eq!(ti.original_filepath, b("/first"));
    assert_eq!(ti.deleted_at, ts(2024, 1, 22, 14, 3, 15));
}

#[test]
fn parse_relative_path_resolves_against_root() {
    let content = "[Trash Info]\nPath=sub/x.txt\nDeletionDate=2024-01-22T14:03:15";
    let ti = parse_trashinfo(&b("x.txt.trashinfo"), content, &b("/mnt/data")).unwrap();
    assert_eq!(ti.original_filepath, b("/mnt/data/sub/x.txt"));
}

#[test]
fn timestamp_format_and_parse() {
    let t = ts(2004, 8, 31, 22, 32, 8);
    assert_eq!(format_timestamp(&t), "2004-08-31T22:32:08");
    assert_eq!(parse_timestamp("2004-08-31T22:32:08"), Some(t));
    assert_eq!(parse_timestamp("2004-02-30T00:00:00"), None);
    // RFC 3339 with an offset is taken at its local clock reading
    assert_eq!(
        parse_timestamp("2024-01-22T14:03:15+05:00"),
        Some(ts(2024, 1, 22, 14, 3, 15))
    );
    assert_eq!(parse_timestamp("garbage"), None);
}

#[test]
fn rename_updates_both_names() {
    let mut entry = Trashinfo {
        trash_filename: b("a"),
        trash_filename_trashinfo: b("a.trashinfo"),
        deleted_at: ts(2024, 1, 1, 0, 0, 0),
        original_filepath: b("/a"),
    };
    entry.rename(b("b1"));
    assert_eq!(entry.trash_filename, b("b1"));
    assert_eq!(entry.trash_filename_trashinfo, b("b1.trashinfo"));
}
