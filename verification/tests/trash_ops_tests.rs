use unified_trash::codec::Trashinfo;
use unified_trash::fsmodel::FsAction;
use unified_trash::naming::unique_name;
use unified_trash::timestamp::Timestamp;
use unified_trash::trash::{discover_mount, home_trash_paths, parse_mounts, Trash};
use unified_trash::unified::{InfoFile, ListedEntry, PutTarget, Selection, UnifiedTrash};
use unified_trash::TrashError;

fn b(s: &str) -> Vec<u8> {
    s.as_bytes().to_vec()
}

fn ts(year: u16, month: u8, day: u8, hour: u8, minute: u8, second: u8) -> Timestamp {
    Timestamp { year, month, day, hour, minute, second }
}

fn home_trash() -> Trash {
    Trash::new_with_ensure(b("/home/u/.local/share/Trash"), b("/home/u/.local/share"), 10, true, false)
}

fn unified() -> UnifiedTrash {
    let mounts = vec![
        Trash::new_with_ensure(b("/mnt/data/.Trash-1000"), b("/mnt/data"), 20, false, false),
        Trash::new_with_ensure(b("/mnt/data/.Trash/1000"), b("/mnt/data"), 20, false, true),
    ];
    UnifiedTrash::new(home_trash(), mounts)
}

#[test]
fn admin_trashes_sort_first() {
    let u = unified();
    let trashes = u.list_trashes();
    assert_eq!(trashes.len(), 3);
    assert!(trashes[0].is_admin_trash);
    assert_eq!(trashes[0].trash_path, b("/mnt/data/.Trash/1000"));
    assert!(trashes[1].is_home_trash);
    assert_eq!(trashes[2].trash_path, b("/mnt/data/.Trash-1000"));
}

fn info(name: &str, path_line: &str, present: bool) -> InfoFile {
    InfoFile {
        name: b(name),
        content: format!(
            "[Trash Info]\nPath={}\nDeletionDate=2024-01-22T14:03:15",
            path_line
        ),
        payload_present: present,
    }
}

// A put followed by a listing shows one entry carrying the original
// path back.
#[test]
fn put_then_list_roundtrip() {
    let u = unified();
    let input = b("/home/u/doc.txt");
    let (name, target) = u
        .put_decision(&input, &input, 10, &Vec::new())
        .unwrap();
    assert_eq!(name, b("doc.txt"));
    assert_eq!(target, PutTarget::Home);

    let entry = unified_trash::unified::new_entry(name, ts(2024, 1, 22, 14, 3, 15), input);
    // index 1 is the home trash after the admin-priority sort
    let plan = u.trashes[1].write_trashinfo(&entry).unwrap();
    assert_eq!(plan.info_path, b("/home/u/.local/share/Trash/info/doc.txt.trashinfo"));
    assert_eq!(plan.payload_to, b("/home/u/.local/share/Trash/files/doc.txt"));

    let snapshots = vec![
        Vec::new(),
        vec![InfoFile { name: b("doc.txt.trashinfo"), content: plan.content, payload_present: true }],
        Vec::new(),
    ];
    let listed = u.list(&snapshots).unwrap();
    assert_eq!(listed.len(), 1);
    assert_eq!(listed[0].trash_index, 1);
    assert_eq!(listed[0].info.original_filepath, b("/home/u/doc.txt"));
    assert_eq!(listed[0].info.trash_filename, b("doc.txt"));
}

// Two puts of distinct files that share the base name yield the names
// note.txt and note1.txt.
#[test]
fn colliding_base_names_get_suffixes() {
    let u = unified();
    let taken: Vec<Vec<u8>> = Vec::new();
    let (first, _) = u
        .put_decision(&b("/home/u/a/note.txt"), &b("/home/u/a/note.txt"), 10, &taken)
        .unwrap();
    assert_eq!(first, b("note.txt"));
    let taken = vec![first];
    let (second, _) = u
        .put_decision(&b("/home/u/b/note.txt"), &b("/home/u/b/note.txt"), 10, &taken)
        .unwrap();
    assert_eq!(second, b("note1.txt"));
    let taken = vec![taken[0].clone(), second];
    assert_eq!(unique_name(&b("note.txt"), &taken), b("note2.txt"));
}

#[test]
fn put_refuses_system_paths_and_nameless_inputs() {
    let u = unified();
    assert_eq!(
        u.put_decision(&b("/proc/self/maps"), &b("/proc/self/maps"), 10, &Vec::new())
            .unwrap_err(),
        TrashError::SystemPath
    );
    assert_eq!(
        u.put_decision(&b("/"), &b("/home/u"), 10, &Vec::new()).unwrap_err(),
        TrashError::NoFileName
    );
}

#[test]
fn put_targets_follow_device_ids() {
    let u = unified();
    let input = b("/mnt/data/x");
    let (_, t1) = u.put_decision(&input, &input, 20, &Vec::new()).unwrap();
    assert_eq!(t1, PutTarget::Existing(0));
    let (_, t2) = u.put_decision(&input, &input, 99, &Vec::new()).unwrap();
    assert_eq!(t2, PutTarget::NewTrash);
}

// Listing twice over the same snapshot returns equal collections.
#[test]
fn listing_is_idempotent() {
    let u = unified();
    let snapshots = vec![
        vec![info("a.trashinfo", "/mnt/data/a", true)],
        vec![info("b.trashinfo", "/home/u/b", true)],
        Vec::new(),
    ];
    let l1 = u.list(&snapshots).unwrap();
    let l2 = u.list(&snapshots).unwrap();
    assert_eq!(l1, l2);
    assert_eq!(l1.len(), 2);
}

// An entry whose payload is gone is excluded from the listing but
// named by orphan cleanup.
#[test]
fn orphan_is_excluded_and_cleaned() {
    let u = unified();
    let snapshots = vec![
        Vec::new(),
        vec![
            info("kept.trashinfo", "/home/u/kept", true),
            info("orphan.trashinfo", "/home/u/orphan", false),
        ],
        Vec::new(),
    ];
    let listed = u.list(&snapshots).unwrap();
    assert_eq!(listed.len(), 1);
    assert_eq!(listed[0].info.trash_filename, b("kept"));

    let orphans = u.remove_orphaned(&snapshots).unwrap();
    assert_eq!(
        orphans,
        vec![b("/home/u/.local/share/Trash/info/orphan.trashinfo")]
    );
}

fn listed(trash_index: usize, name: &str, path: &str, at: Timestamp) -> ListedEntry {
    ListedEntry {
        trash_index,
        info: Trashinfo {
            trash_filename: b(name),
            trash_filename_trashinfo: b(&format!("{}.trashinfo", name)),
            deleted_at: at,
            original_filepath: b(path),
        },
    }
}

// Emptying with the current moment as threshold purges an entry
// deleted yesterday and leaves one deleted tomorrow untouched.
#[test]
fn empty_respects_threshold() {
    let u = unified();
    let now = ts(2024, 1, 22, 12, 0, 0);
    let yesterday = ts(2024, 1, 21, 12, 0, 0);
    let tomorrow = ts(2024, 1, 23, 12, 0, 0);
    let entries = vec![
        listed(1, "old", "/home/u/old", yesterday),
        listed(1, "new", "/home/u/new", tomorrow),
    ];
    let plan = u.empty_plan(&entries, &now);
    assert_eq!(plan.len(), 1);
    assert_eq!(plan[0].files_path, b("/home/u/.local/share/Trash/files/old"));
    assert_eq!(plan[0].info_path, b("/home/u/.local/share/Trash/info/old.trashinfo"));
    let actions = unified_trash::unified::purge_actions(&plan[0]);
    assert_eq!(
        actions,
        vec![
            FsAction::RemoveTree { path: b("/home/u/.local/share/Trash/files/old") },
            FsAction::RemoveFile { path: b("/home/u/.local/share/Trash/info/old.trashinfo") },
        ]
    );
}

#[test]
fn selection_outcomes() {
    let u = unified();
    assert_eq!(
        u.select_matches(&vec![false, false]).unwrap_err(),
        TrashError::NoMatches
    );
    match u.select_matches(&vec![false, true, false]).unwrap() {
        Selection::One(i) => assert_eq!(i, 1),
        _ => panic!("expected a single match"),
    }
    match u.select_matches(&vec![true, false, true]).unwrap() {
        Selection::Many(v) => assert_eq!(v, vec![0, 2]),
        _ => panic!("expected several matches"),
    }
}

// A restore moves the payload back first and removes the metadata file
// only after; declining an overwrite aborts with no step taken.
#[test]
fn restore_plan_order_and_abort() {
    let u = unified();
    let e = listed(1, "doc.txt", "/home/u/doc.txt", ts(2024, 1, 22, 14, 3, 15));
    let acts = u.restore_plan(&e, false, false).unwrap();
    assert_eq!(
        acts,
        vec![
            FsAction::Rename {
                from: b("/home/u/.local/share/Trash/files/doc.txt"),
                to: b("/home/u/doc.txt"),
            },
            FsAction::RemoveFile {
                path: b("/home/u/.local/share/Trash/info/doc.txt.trashinfo"),
            },
        ]
    );
    assert_eq!(u.restore_plan(&e, true, false).unwrap_err(), TrashError::Aborted);
    assert!(u.restore_plan(&e, true, true).is_ok());
}

// A failed payload move rolls the metadata file back: the write plan's
// rollback removes exactly the file the plan created.
#[test]
fn write_plan_rollback_names_the_metadata_file() {
    let u = unified();
    let entry = unified_trash::unified::new_entry(
        b("doc.txt"),
        ts(2024, 1, 22, 14, 3, 15),
        b("/mnt/data/doc.txt"),
    );
    // index 0 is the admin trash on /mnt/data
    let plan = u.trashes[0].write_trashinfo(&entry).unwrap();
    let commit = unified_trash::unified::write_actions(&plan);
    let rollback = unified_trash::unified::write_rollback_actions(&plan);
    assert_eq!(commit.len(), 2);
    assert_eq!(
        rollback,
        vec![FsAction::RemoveFile { path: b("/mnt/data/.Trash/1000/info/doc.txt.trashinfo") }]
    );
    // the non-home trash stores the path relative to its mount point
    assert!(plan.content.contains("Path=doc.txt"));
}

#[test]
fn discovery_rules() {
    let mount = b("/mnt/data");
    // valid admin dir and existing user dir: both are registered,
    // admin first
    let both = discover_mount(&mount, 1000, Some((true, false, 20, true)), Some((20, true)));
    assert_eq!(both.len(), 2);
    assert!(both[0].is_admin_trash);
    assert_eq!(both[0].trash_path, b("/mnt/data/.Trash/1000"));
    assert_eq!(both[0].dev_root, b("/mnt/data"));
    assert!(!both[1].is_admin_trash);
    assert_eq!(both[1].trash_path, b("/mnt/data/.Trash-1000"));

    // a missing sticky bit or a symlink disqualifies the admin dir
    assert_eq!(discover_mount(&mount, 1000, Some((false, false, 20, true)), None).len(), 0);
    assert_eq!(discover_mount(&mount, 1000, Some((true, true, 20, true)), None).len(), 0);
    // the user dir is registered independently
    let user_only = discover_mount(&mount, 1000, Some((false, false, 20, true)), Some((20, true)));
    assert_eq!(user_only.len(), 1);
    assert!(!user_only[0].is_admin_trash);
}

#[test]
fn home_trash_location() {
    let (trash_path, data_dir) = home_trash_paths(&b("/home/u"), &None);
    assert_eq!(data_dir, b("/home/u/.local/share"));
    assert_eq!(trash_path, b("/home/u/.local/share/Trash"));
    let (trash_path, data_dir) = home_trash_paths(&b("/home/u"), &Some(b("/xdg")));
    assert_eq!(data_dir, b("/xdg"));
    assert_eq!(trash_path, b("/xdg/Trash"));
}

#[test]
fn mount_table_parsing() {
    let table = b("sysfs /sys sysfs rw 0 0\n/dev/sda1 / ext4 rw 0 0\n\n/dev/sdb1 /mnt/data ext4 rw 0 0\n");
    let mounts = parse_mounts(&table).unwrap();
    assert_eq!(mounts, vec![b("/sys"), b("/"), b("/mnt/data")]);
    assert!(parse_mounts(&b("no-second-field\n")).is_none());
}
