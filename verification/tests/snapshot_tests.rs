use mizeria::files::EntryKind;
use mizeria::index::IndexPreview;
use mizeria::result::IntegrityCheckError;
use mizeria::snapshot::get_timestamp_for_new_snapshot;
use mizeria::snapshot::EntryAction;
use mizeria::snapshot::Snapshot;
use mizeria::snapshot::WalkedEntry;
use mizeria::timestamp::Timestamp;

#[test]
fn snapshot_create_snapshot_in_nonexistent_folder() {
    let now = Timestamp::parse_from("2021-07-15_18.34").unwrap();
    let existing: Vec<String> = Vec::new();
    let result = Snapshot::create(String::from("nonexistent"), false, now, None, &existing);

    assert!(result.is_err());
    assert_eq!(
        result.err().unwrap().as_str(),
        "Folder with backup does not exist or is not accessible"
    );
}

#[test]
fn new_snapshot_timestamp_avoids_taken_names() {
    let now = Timestamp::parse_from("2021-07-15_18.34").unwrap();
    let existing = vec![
        String::from("2021-07-15_18.34"),
        String::from("2021-07-15_18.35"),
    ];
    let picked = get_timestamp_for_new_snapshot(now, None, &existing);
    assert_eq!(picked.to_string(), "2021-07-15_18.36");
}

#[test]
fn new_snapshot_timestamp_moves_past_future_latest() {
    let now = Timestamp::parse_from("2021-07-15_18.34").unwrap();
    let latest = Timestamp::parse_from("2021-07-15_19.00").unwrap();
    let existing: Vec<String> = Vec::new();
    let picked = get_timestamp_for_new_snapshot(now, Some(latest), &existing);
    assert_eq!(picked.to_string(), "2021-07-15_19.01");

    let early_latest = Timestamp::parse_from("2021-07-15_10.00").unwrap();
    let picked = get_timestamp_for_new_snapshot(now, Some(early_latest), &existing);
    assert_eq!(picked.to_string(), "2021-07-15_18.34");
}

#[test]
fn full_snapshot_indexes_every_entry_with_its_own_timestamp() {
    let now = Timestamp::parse_from("2021-07-15_18.34").unwrap();
    let existing: Vec<String> = Vec::new();
    let mut snap = Snapshot::create(String::from("/backup"), true, now, None, &existing).unwrap();

    assert_eq!(snap.name().as_str(), "2021-07-15_18.34");
    assert_eq!(snap.location.as_str(), "/backup/2021-07-15_18.34");

    let dir = WalkedEntry {
        canonical_path: String::from("/tmp/a"),
        kind: EntryKind::Directory,
        len: 0,
        mtime: None,
        ctime: None,
    };
    let file = WalkedEntry {
        canonical_path: String::from("/tmp/a/f.txt"),
        kind: EntryKind::File,
        len: 5,
        mtime: None,
        ctime: None,
    };

    match snap.plan_entry(&dir, true) {
        EntryAction::Copy(dest) => {
            assert_eq!(dest.as_str(), "/backup/2021-07-15_18.34/files/tmp/a");
        }
        _ => panic!("a full snapshot must copy every entry"),
    }
    snap.commit_entry(&dir, true, true);

    match snap.plan_entry(&file, true) {
        EntryAction::Copy(dest) => {
            assert_eq!(dest.as_str(), "/backup/2021-07-15_18.34/files/tmp/a/f.txt");
        }
        _ => panic!("a full snapshot must copy every entry"),
    }
    snap.commit_entry(&file, true, true);

    assert_eq!(snap.files.size, 5);
    let content = snap.render_index();
    assert_eq!(
        content.as_str(),
        "2021-07-15_18.34 /tmp/a\n2021-07-15_18.34 /tmp/a/f.txt\n"
    );
}

#[test]
fn incremental_snapshot_reuses_unchanged_entries() {
    let now = Timestamp::parse_from("2021-07-16_10.00").unwrap();
    let existing = vec![String::from("2021-07-15_18.34")];
    let mut snap = Snapshot::create(String::from("/backup"), true, now, None, &existing).unwrap();

    let base_lines = vec![String::from("2021-07-15_18.34 /tmp/a/f.txt")];
    let base = IndexPreview::open(&base_lines).unwrap();
    snap.set_base_snapshot(Some(base));

    let old_time = Timestamp::parse_from("2021-07-10_00.00").unwrap();
    let unchanged = WalkedEntry {
        canonical_path: String::from("/tmp/a/f.txt"),
        kind: EntryKind::File,
        len: 5,
        mtime: Some(old_time),
        ctime: Some(old_time),
    };
    match snap.plan_entry(&unchanged, true) {
        EntryAction::Reuse(t) => assert_eq!(t.to_string(), "2021-07-15_18.34"),
        _ => panic!("an unchanged entry must be reused"),
    }
    snap.commit_entry(&unchanged, false, true);
    assert_eq!(snap.files.size, 0);

    let new_time = Timestamp::parse_from("2021-07-16_09.59").unwrap();
    let changed = WalkedEntry {
        canonical_path: String::from("/tmp/a/f.txt"),
        kind: EntryKind::File,
        len: 7,
        mtime: Some(new_time),
        ctime: Some(old_time),
    };
    assert!(matches!(snap.plan_entry(&changed, true), EntryAction::Copy(_)));

    let absent = WalkedEntry {
        canonical_path: String::from("/tmp/a/new.txt"),
        kind: EntryKind::File,
        len: 3,
        mtime: Some(old_time),
        ctime: Some(old_time),
    };
    assert!(matches!(snap.plan_entry(&absent, true), EntryAction::Copy(_)));

    let content = snap.render_index();
    assert_eq!(content.as_str(), "2021-07-15_18.34 /tmp/a/f.txt\n");
}

#[test]
fn incremental_snapshot_copies_only_the_changed_file() {
    let now = Timestamp::parse_from("2021-07-16_10.00").unwrap();
    let existing: Vec<String> = Vec::new();
    let mut snap = Snapshot::create(String::from("/backup"), true, now, None, &existing).unwrap();
    let base_lines = vec![
        String::from("2021-07-15_18.34 /tmp/old_file.txt"),
        String::from("2021-07-15_18.34 /tmp/modified_file.txt"),
    ];
    snap.set_base_snapshot(Some(IndexPreview::open(&base_lines).unwrap()));

    let old_time = Timestamp::parse_from("2021-07-10_00.00").unwrap();
    let new_time = Timestamp::parse_from("2021-07-16_09.00").unwrap();
    let unchanged = WalkedEntry {
        canonical_path: String::from("/tmp/old_file.txt"),
        kind: EntryKind::File,
        len: 4,
        mtime: Some(old_time),
        ctime: Some(old_time),
    };
    let modified = WalkedEntry {
        canonical_path: String::from("/tmp/modified_file.txt"),
        kind: EntryKind::File,
        len: 9,
        mtime: Some(new_time),
        ctime: Some(old_time),
    };

    snap.commit_entry(&unchanged, false, true);
    assert!(matches!(snap.plan_entry(&modified, true), EntryAction::Copy(_)));
    snap.commit_entry(&modified, true, true);

    assert_eq!(snap.files.size, 9);
    let content = snap.render_index();
    assert_eq!(
        content.as_str(),
        "2021-07-15_18.34 /tmp/old_file.txt\n2021-07-16_10.00 /tmp/modified_file.txt\n"
    );
}

#[test]
fn missing_creation_time_decides_on_the_modification_time_alone() {
    let now = Timestamp::parse_from("2021-07-16_10.00").unwrap();
    let existing: Vec<String> = Vec::new();
    let mut snap = Snapshot::create(String::from("/backup"), true, now, None, &existing).unwrap();
    let base_lines = vec![String::from("2021-07-15_18.34 /tmp/f")];
    snap.set_base_snapshot(Some(IndexPreview::open(&base_lines).unwrap()));

    let old_time = Timestamp::parse_from("2021-07-10_00.00").unwrap();
    let entry = WalkedEntry {
        canonical_path: String::from("/tmp/f"),
        kind: EntryKind::File,
        len: 1,
        mtime: Some(old_time),
        ctime: None,
    };
    match snap.plan_entry(&entry, true) {
        EntryAction::Reuse(t) => assert_eq!(t.to_string(), "2021-07-15_18.34"),
        _ => panic!("an old entry without a creation time must be reused"),
    }

    let new_time = Timestamp::parse_from("2021-07-16_09.00").unwrap();
    let entry = WalkedEntry {
        canonical_path: String::from("/tmp/f"),
        kind: EntryKind::File,
        len: 1,
        mtime: Some(new_time),
        ctime: None,
    };
    assert!(matches!(snap.plan_entry(&entry, true), EntryAction::Copy(_)));

    let entry = WalkedEntry {
        canonical_path: String::from("/tmp/f"),
        kind: EntryKind::File,
        len: 1,
        mtime: None,
        ctime: Some(old_time),
    };
    assert!(matches!(snap.plan_entry(&entry, true), EntryAction::Copy(_)));
}

#[test]
fn margin_tolerates_times_just_before_the_recorded_minute() {
    let now = Timestamp::parse_from("2021-07-16_10.00").unwrap();
    let existing: Vec<String> = Vec::new();
    let mut snap = Snapshot::create(String::from("/backup"), true, now, None, &existing).unwrap();
    let base_lines = vec![String::from("2021-07-15_18.34 /tmp/f")];
    snap.set_base_snapshot(Some(IndexPreview::open(&base_lines).unwrap()));

    let at_margin = Timestamp::parse_from("2021-07-15_18.33").unwrap();
    let entry = WalkedEntry {
        canonical_path: String::from("/tmp/f"),
        kind: EntryKind::File,
        len: 1,
        mtime: Some(at_margin),
        ctime: Some(at_margin),
    };
    assert!(matches!(snap.plan_entry(&entry, true), EntryAction::Reuse(_)));

    let just_after = Timestamp::parse_from("2021-07-15_18.34").unwrap();
    let entry = WalkedEntry {
        canonical_path: String::from("/tmp/f"),
        kind: EntryKind::File,
        len: 1,
        mtime: Some(just_after),
        ctime: Some(at_margin),
    };
    assert!(matches!(snap.plan_entry(&entry, true), EntryAction::Copy(_)));
}

#[test]
fn open_rebuilds_a_saved_snapshot() {
    let lines = vec![
        String::from("2021-07-15_18.34 /tmp/a"),
        String::from("2021-07-14_18.34 /tmp/b"),
    ];
    let snap = Snapshot::open("/backup/2021-07-15_18.34", &lines).unwrap();
    assert_eq!(snap.name().as_str(), "2021-07-15_18.34");
    assert_eq!(snap.index.entries.len(), 2);
    assert_eq!(snap.index.entries[1].path.as_str(), "/tmp/b");

    let preview = snap.to_preview();
    assert_eq!(preview.timestamp.to_string(), "2021-07-15_18.34");
    assert_eq!(preview.index.as_str(), "/backup/2021-07-15_18.34/index.txt");
    assert_eq!(preview.files.as_str(), "/backup/2021-07-15_18.34/files");

    let bad_name = Snapshot::open("/backup/not_a_snapshot", &lines);
    assert!(bad_name.is_err());

    let bad_lines = vec![String::from("broken")];
    let bad_index = Snapshot::open("/backup/2021-07-15_18.34", &bad_lines);
    assert!(bad_index.is_err());
}

#[test]
fn check_integrity_for_empty_snapshot() {
    let lines: Vec<String> = Vec::new();
    let walked: Vec<String> = Vec::new();
    let r = Snapshot::check_integrity("/backup/2021-07-15_18.34", true, true, &lines, true, &walked);
    assert!(matches!(r, Ok(())));
}

#[test]
fn check_integrity_for_missing_snapshot() {
    let lines: Vec<String> = Vec::new();
    let walked: Vec<String> = Vec::new();
    let r = Snapshot::check_integrity("/backup/2021-07-15_18.34", false, true, &lines, true, &walked);
    assert!(matches!(r, Err(IntegrityCheckError::SnapshotDoesntExist)));
}

#[test]
fn check_integrity_for_snapshot_with_invalid_name() {
    let lines: Vec<String> = Vec::new();
    let walked: Vec<String> = Vec::new();
    let r = Snapshot::check_integrity("/backup/2021-07-33_18.34", true, true, &lines, true, &walked);
    match r {
        Err(IntegrityCheckError::SnapshotNameHasInvalidTimestamp(name)) => {
            assert_eq!(name.as_str(), "2021-07-33_18.34");
        }
        _ => panic!("an invalid snapshot name must be reported"),
    }
}

#[test]
fn check_integrity_for_snapshot_without_index() {
    let lines: Vec<String> = Vec::new();
    let walked: Vec<String> = Vec::new();
    let r = Snapshot::check_integrity("/backup/2021-07-15_18.34", true, false, &lines, true, &walked);
    assert!(matches!(r, Err(IntegrityCheckError::IndexFileDoesntExist)));
}

#[test]
fn check_integrity_for_snapshot_without_files_folder() {
    let lines: Vec<String> = Vec::new();
    let walked: Vec<String> = Vec::new();
    let r = Snapshot::check_integrity("/backup/2021-07-15_18.34", true, true, &lines, false, &walked);
    assert!(matches!(r, Err(IntegrityCheckError::FilesFolderDoesntExist)));
}

#[test]
fn check_integrity_for_snapshot_with_file_present_but_not_indexed() {
    let lines: Vec<String> = Vec::new();
    let walked = vec![String::from("/backup/2021-07-15_18.34/files/my_file.txt")];
    let r = Snapshot::check_integrity("/backup/2021-07-15_18.34", true, true, &lines, true, &walked);
    match r {
        Err(IntegrityCheckError::EntryExistsButNotIndexed(p)) => {
            assert_eq!(p.as_str(), "/backup/2021-07-15_18.34/files/my_file.txt");
        }
        _ => panic!("a stray store entry must be reported"),
    }
}

#[test]
fn check_integrity_for_snapshot_with_file_indexed_but_not_present() {
    let lines = vec![String::from("2021-07-15_18.34 /tmp/my_file.txt")];
    let walked: Vec<String> = Vec::new();
    let r = Snapshot::check_integrity("/backup/2021-07-15_18.34", true, true, &lines, true, &walked);
    match r {
        Err(IntegrityCheckError::EntryIndexedButNotExists(p)) => {
            assert_eq!(p.as_str(), "/tmp/my_file.txt");
        }
        _ => panic!("a missing store entry must be reported"),
    }
}

#[test]
fn check_integrity_ignores_entries_inherited_from_other_snapshots() {
    let lines = vec![String::from("2021-07-14_18.34 /tmp/my_file.txt")];
    let walked: Vec<String> = Vec::new();
    let r = Snapshot::check_integrity("/backup/2021-07-15_18.34", true, true, &lines, true, &walked);
    assert!(matches!(r, Ok(())));
}

#[test]
fn check_integrity_for_snapshot_with_invalid_index_timestamp() {
    let lines = vec![
        String::from("2021-07-15_18.34 /tmp/a"),
        String::from("2021-99-15_18.34 /tmp/b"),
    ];
    let walked: Vec<String> = Vec::new();
    let r = Snapshot::check_integrity("/backup/2021-07-15_18.34", true, true, &lines, true, &walked);
    assert!(matches!(
        r,
        Err(IntegrityCheckError::IndexFileContainsInvalidTimestampInLine(2))
    ));
}

#[test]
fn check_integrity_for_snapshot_with_invalid_index_path() {
    let lines = vec![
        String::from("2021-07-15_18.34 /tmp/a"),
        String::from("2021-07-15_18.34 relative/path/is/invalid"),
    ];
    let walked: Vec<String> = Vec::new();
    let r = Snapshot::check_integrity("/backup/2021-07-15_18.34", true, true, &lines, true, &walked);
    assert!(matches!(
        r,
        Err(IntegrityCheckError::IndexFileContainsInvalidPathInLine(2))
    ));
}

#[test]
fn check_integrity_for_a_fully_saved_snapshot_reports_success() {
    let now = Timestamp::parse_from("2021-07-15_18.34").unwrap();
    let existing: Vec<String> = Vec::new();
    let mut snap = Snapshot::create(String::from("/backup"), true, now, None, &existing).unwrap();
    let dir = WalkedEntry {
        canonical_path: String::from("/tmp/a"),
        kind: EntryKind::Directory,
        len: 0,
        mtime: None,
        ctime: None,
    };
    let file = WalkedEntry {
        canonical_path: String::from("/tmp/a/f.txt"),
        kind: EntryKind::File,
        len: 5,
        mtime: None,
        ctime: None,
    };
    snap.commit_entry(&dir, true, true);
    snap.commit_entry(&file, true, true);

    let content = snap.render_index();
    let lines: Vec<String> = content.lines().map(String::from).collect();
    let walked = vec![
        String::from("/backup/2021-07-15_18.34/files/tmp"),
        String::from("/backup/2021-07-15_18.34/files/tmp/a"),
        String::from("/backup/2021-07-15_18.34/files/tmp/a/f.txt"),
    ];
    let r = Snapshot::check_integrity(
        "/backup/2021-07-15_18.34",
        true,
        true,
        &lines,
        true,
        &walked,
    );
    assert!(matches!(r, Ok(())));
}
