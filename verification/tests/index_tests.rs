use mizeria::index::Index;
use mizeria::index::IndexEntry;
use mizeria::index::IndexEntryParseError;
use mizeria::index::IndexPreview;
use mizeria::result::IntegrityCheckError;
use mizeria::timestamp::Timestamp;

#[test]
fn index_entry_from_valid_line() {
    let valid_path = "/data/backups/archive";
    let valid_line = format!("2021-07-15_18.34 {}\n", valid_path);

    let index_entry = IndexEntry::from_line(valid_line.as_str()).unwrap();
    assert_eq!("2021-07-15_18.34", index_entry.timestamp.to_string());
    assert_eq!(valid_path, index_entry.path.as_str());
}

#[test]
fn index_entry_from_invalid_line() {
    assert!(matches!(
        IndexEntry::from_line("foo"),
        Err(IndexEntryParseError::SyntaxError)
    ));

    let entry_with_invalid_timestamp = "2021-07-15_18:34  /data/backups\n";
    assert!(matches!(
        IndexEntry::from_line(entry_with_invalid_timestamp),
        Err(IndexEntryParseError::InvalidTimestamp)
    ));

    let entry_with_invalid_path = "2021-07-15_18.34 this/path/is/local";
    assert!(matches!(
        IndexEntry::from_line(entry_with_invalid_path),
        Err(IndexEntryParseError::InvalidPath)
    ));
}

#[test]
fn open_index_file() {
    let test_path_1 = "/tmp/some entry/with spaces";
    let test_path_2 = "/tmp/za\u{17c}\u{f3}\u{142}\u{107} g\u{119}\u{15b}l\u{105} ja\u{17a}\u{144}";
    let lines = vec![
        format!("2021-07-16_18.34 {}", test_path_1),
        format!("2021-07-17_18.34 {}", test_path_2),
    ];

    let index = Index::open(String::from("/tmp/index.txt"), &lines).unwrap();

    assert_eq!("/tmp/index.txt", index.location.as_str());
    assert_eq!(index.entries[0].path.as_str(), test_path_1);
    assert_eq!(index.entries[1].path.as_str(), test_path_2);
    assert_eq!(index.entries[0].timestamp.to_string(), "2021-07-16_18.34");
    assert_eq!(index.entries[1].timestamp.to_string(), "2021-07-17_18.34");
}

#[test]
fn open_invalid_file_returns_none() {
    let lines = vec![String::from("foo")];
    let result = Index::open(String::from("/tmp/index.txt"), &lines);
    assert!(result.is_err());
}

#[test]
fn push_and_render_write_one_line_per_entry() {
    let ts = Timestamp::parse_from("2021-07-15_18.34").unwrap();
    let mut index = Index::new(String::from("/backup/2021-07-15_18.34/index.txt"));
    index.push(ts, String::from("/home/user"));
    index.push(ts, String::from("/home/user/file.txt"));

    let content = index.render();
    assert_eq!(
        content.as_str(),
        "2021-07-15_18.34 /home/user\n2021-07-15_18.34 /home/user/file.txt\n"
    );
}

#[test]
fn index_check_integrity_reports_first_bad_line() {
    let good = String::from("2021-07-15_18.34 /data/a");
    let bad_timestamp = String::from("2021-99-15_18.34 /data/b");
    let bad_path = String::from("2021-07-15_18.34 relative/path/is/invalid");
    let no_space = String::from("sometextwithoutspace");

    let lines = vec![good.clone(), bad_timestamp, bad_path.clone()];
    assert!(matches!(
        Index::check_integrity(true, &lines),
        Err(IntegrityCheckError::IndexFileContainsInvalidTimestampInLine(2))
    ));

    let lines = vec![good.clone(), bad_path];
    assert!(matches!(
        Index::check_integrity(true, &lines),
        Err(IntegrityCheckError::IndexFileContainsInvalidPathInLine(2))
    ));

    let lines = vec![no_space];
    assert!(matches!(
        Index::check_integrity(true, &lines),
        Err(IntegrityCheckError::IndexFileContainsInvalidTimestampInLine(1))
    ));

    let lines = vec![good];
    assert!(matches!(Index::check_integrity(true, &lines), Ok(())));

    let lines: Vec<String> = Vec::new();
    assert!(matches!(
        Index::check_integrity(false, &lines),
        Err(IntegrityCheckError::IndexFileDoesntExist)
    ));
}

#[test]
fn preview_finds_last_recorded_timestamp() {
    let lines = vec![
        String::from("2021-07-15_18.34 /data/a"),
        String::from("2021-07-16_18.34 /data/b"),
        String::from("2021-07-17_18.34 /data/a"),
    ];
    let preview = IndexPreview::open(&lines).unwrap();

    let found = preview.find("/data/a").unwrap();
    assert_eq!(found.to_string(), "2021-07-17_18.34");
    let found = preview.find("/data/b").unwrap();
    assert_eq!(found.to_string(), "2021-07-16_18.34");
    assert!(preview.find("/data/c").is_none());
}

#[test]
fn preview_open_rejects_bad_lines() {
    let lines = vec![String::from("nospacehere")];
    assert!(IndexPreview::open(&lines).is_err());

    let lines = vec![String::from("2021-07-15_25.00 /data/a")];
    assert!(IndexPreview::open(&lines).is_err());
}
