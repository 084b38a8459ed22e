use mizeria::backup::get_latest_snapshot_preview;
use mizeria::backup::load_all;
use mizeria::backup::Backup;
use mizeria::backup::InputPath;
use mizeria::backup::ScanEntry;
use mizeria::backup::SnapshotPreview;

#[test]
fn remove_nonexistent_paths() {
    let existent = InputPath {
        raw: String::from("/tmp/data"),
        canonical: Some(String::from("/tmp/data")),
    };
    let nonexistent = InputPath {
        raw: String::from("/tmp/data/foobar"),
        canonical: None,
    };
    let paths = vec![existent, nonexistent];

    let result = Backup::remove_nonexistent_paths(&paths);
    assert_eq!(result.len(), 1);
    assert_eq!(result[0].raw.as_str(), "/tmp/data");
}

#[test]
fn remove_duplicated_paths() {
    let path_1 = InputPath {
        raw: String::from("/tmp/one"),
        canonical: Some(String::from("/tmp/one")),
    };
    let path_2 = InputPath {
        raw: String::from("/tmp/two"),
        canonical: Some(String::from("/tmp/two")),
    };
    let path_3 = InputPath {
        raw: String::from("/tmp/one/"),
        canonical: Some(String::from("/tmp/one")),
    };
    let path_4 = InputPath {
        raw: String::from("/tmp/four"),
        canonical: Some(String::from("/tmp/four")),
    };
    let paths = vec![path_1, path_2, path_3, path_4];

    let result = Backup::remove_duplicated_paths(&paths);

    assert_eq!(result.len(), 3);
    assert_eq!(result[0].raw.as_str(), "/tmp/one");
    assert_eq!(result[1].raw.as_str(), "/tmp/two");
    assert_eq!(result[2].raw.as_str(), "/tmp/four");
}

#[test]
fn remove_duplicated_paths_presists_order() {
    let path_1 = InputPath {
        raw: String::from("/tmp/one"),
        canonical: Some(String::from("/tmp/one")),
    };
    let path_2 = InputPath {
        raw: String::from("/tmp/two"),
        canonical: Some(String::from("/tmp/two")),
    };
    let path_3 = InputPath {
        raw: String::from("/tmp/three"),
        canonical: Some(String::from("/tmp/three")),
    };
    let paths = vec![path_1, path_2, path_3];

    let result = Backup::remove_duplicated_paths(&paths);

    assert_eq!(result.len(), 3);
    assert_eq!(result[0].raw.as_str(), "/tmp/one");
    assert_eq!(result[1].raw.as_str(), "/tmp/two");
    assert_eq!(result[2].raw.as_str(), "/tmp/three");
}

#[test]
fn remove_overlapping_two_same_paths() {
    let path_1 = InputPath {
        raw: String::from("/tmp/aaa/bbb"),
        canonical: Some(String::from("/tmp/aaa/bbb")),
    };
    let path_2 = InputPath {
        raw: String::from("/tmp/aaa/bbb/"),
        canonical: Some(String::from("/tmp/aaa/bbb")),
    };
    let paths = vec![path_1, path_2];

    let filtered = Backup::remove_overlapping_paths(&paths);

    assert_eq!(filtered.len(), 2);
    assert_eq!(filtered[0].raw.as_str(), "/tmp/aaa/bbb");
    assert_eq!(filtered[1].raw.as_str(), "/tmp/aaa/bbb/");
}

#[test]
fn remove_overlapping_paths() {
    let path_1 = InputPath {
        raw: String::from("/tmp/aaa"),
        canonical: Some(String::from("/tmp/aaa")),
    };
    let path_3 = InputPath {
        raw: String::from("/tmp/aaa/bbb/ccc"),
        canonical: Some(String::from("/tmp/aaa/bbb/ccc")),
    };
    let path_4 = InputPath {
        raw: String::from("/tmp/xxx"),
        canonical: Some(String::from("/tmp/xxx")),
    };
    let path_2 = InputPath {
        raw: String::from("/tmp/aaa/bbb"),
        canonical: Some(String::from("/tmp/aaa/bbb")),
    };
    let paths = vec![path_1, path_3, path_4, path_2];

    let filtered = Backup::remove_overlapping_paths(&paths);

    assert_eq!(filtered.len(), 2);
    assert_eq!(filtered[0].raw.as_str(), "/tmp/aaa");
    assert_eq!(filtered[1].raw.as_str(), "/tmp/xxx");
}

#[test]
fn validation_is_idempotent_on_its_own_output() {
    let paths = vec![
        InputPath {
            raw: String::from("/tmp/aaa"),
            canonical: Some(String::from("/tmp/aaa")),
        },
        InputPath {
            raw: String::from("/tmp/aaa/bbb"),
            canonical: Some(String::from("/tmp/aaa/bbb")),
        },
        InputPath {
            raw: String::from("/tmp/aaa/"),
            canonical: Some(String::from("/tmp/aaa")),
        },
        InputPath {
            raw: String::from("/tmp/gone"),
            canonical: None,
        },
        InputPath {
            raw: String::from("/tmp/zzz"),
            canonical: Some(String::from("/tmp/zzz")),
        },
    ];
    let once = Backup::validate_input_paths(&paths);
    let twice = Backup::validate_input_paths(&once);

    assert_eq!(once.len(), 2);
    assert_eq!(once[0].raw.as_str(), "/tmp/aaa");
    assert_eq!(once[1].raw.as_str(), "/tmp/zzz");
    assert_eq!(twice.len(), once.len());
    assert_eq!(twice[0].raw.as_str(), once[0].raw.as_str());
    assert_eq!(twice[1].raw.as_str(), once[1].raw.as_str());
}

#[test]
fn return_empty_vec_when_directory_is_empty() {
    let entries: Vec<ScanEntry> = Vec::new();
    let snapshots = load_all("/tmp/backup", &entries);

    assert_eq!(snapshots.len(), 0);
}

#[test]
fn return_empty_vec_when_directory_is_invalid() {
    let entries: Vec<ScanEntry> = Vec::new();
    let snapshots = load_all("/tmp/backup/Blah Blah Blah", &entries);

    assert_eq!(snapshots.len(), 0);
}

#[test]
fn return_empty_vec_when_directory_has_some_foreign_entries() {
    let entries = vec![
        ScanEntry {
            name: String::from("some_file"),
            has_index: false,
            has_files: false,
        },
        ScanEntry {
            name: String::from("some_dir"),
            has_index: false,
            has_files: false,
        },
    ];
    let snapshots = load_all("/tmp/backup", &entries);

    assert_eq!(snapshots.len(), 0);
}

#[test]
fn return_snapshot_preview_from_directory() {
    let entries = vec![
        ScanEntry {
            name: String::from("2023-06-26_19.49"),
            has_index: true,
            has_files: true,
        },
        ScanEntry {
            name: String::from("some_dir"),
            has_index: false,
            has_files: false,
        },
        ScanEntry {
            name: String::from("2023-06-25_19.49"),
            has_index: true,
            has_files: true,
        },
    ];
    let snapshots = load_all("/tmp/backup", &entries);

    assert_eq!(snapshots.len(), 2);
    assert!(snapshots[0].timestamp < snapshots[1].timestamp);
    assert_eq!(snapshots[0].timestamp.to_string(), "2023-06-25_19.49");
    assert_eq!(
        snapshots[0].index.as_str(),
        "/tmp/backup/2023-06-25_19.49/index.txt"
    );
    assert_eq!(
        snapshots[0].files.as_str(),
        "/tmp/backup/2023-06-25_19.49/files"
    );
}

#[test]
fn latest_preview_is_the_newest_qualifying_entry() {
    let entries = vec![
        ScanEntry {
            name: String::from("2023-06-26_19.49"),
            has_index: true,
            has_files: true,
        },
        ScanEntry {
            name: String::from("2023-06-27_08.00"),
            has_index: false,
            has_files: true,
        },
        ScanEntry {
            name: String::from("2023-06-25_19.49"),
            has_index: true,
            has_files: true,
        },
    ];
    let latest = get_latest_snapshot_preview("/tmp/backup", &entries).unwrap();
    assert_eq!(latest.timestamp.to_string(), "2023-06-26_19.49");

    let none: Vec<ScanEntry> = Vec::new();
    assert!(get_latest_snapshot_preview("/tmp/backup", &none).is_none());
}

#[test]
fn preview_requires_name_index_and_files() {
    assert!(SnapshotPreview::new("/b/2021-07-15_18.34", true, true).is_some());
    assert!(SnapshotPreview::new("/b/2021-07-15_18.34", false, true).is_none());
    assert!(SnapshotPreview::new("/b/2021-07-15_18.34", true, false).is_none());
    assert!(SnapshotPreview::new("/b/some_dir", true, true).is_none());
}

#[test]
fn backup_open_keeps_snapshots_sorted() {
    let entries = vec![
        ScanEntry {
            name: String::from("2023-06-26_19.49"),
            has_index: true,
            has_files: true,
        },
        ScanEntry {
            name: String::from("2023-06-25_19.49"),
            has_index: true,
            has_files: true,
        },
    ];
    let backup = Backup::open(String::from("/tmp/backup"), true, &entries).unwrap();
    let latest = backup.latest_snapshot().unwrap();
    assert_eq!(latest.timestamp.to_string(), "2023-06-26_19.49");

    let missing = Backup::open(String::from("/tmp/backup"), false, &entries);
    assert!(missing.is_err());
}
