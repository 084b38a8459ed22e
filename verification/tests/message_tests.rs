use mizeria::result::IntegrityCheckError;
use mizeria::text::lines_of;
use mizeria::text::trim;

#[test]
fn integrity_findings_render_as_one_line_each() {
    assert_eq!(
        IntegrityCheckError::SnapshotDoesntExist.get_message().as_str(),
        "Snapshot doesn't exist."
    );
    assert_eq!(
        IntegrityCheckError::SnapshotNameHasInvalidTimestamp(String::from("2021-07-33_18.34"))
            .get_message()
            .as_str(),
        "Snapshot's name '2021-07-33_18.34' is not a correct timestamp."
    );
    assert_eq!(
        IntegrityCheckError::IndexFileDoesntExist.get_message().as_str(),
        "Files index.txt is missing."
    );
    assert_eq!(
        IntegrityCheckError::FilesFolderDoesntExist.get_message().as_str(),
        "Folder files is missing."
    );
    assert_eq!(
        IntegrityCheckError::IndexFileContainsInvalidTimestampInLine(12)
            .get_message()
            .as_str(),
        "Invalid timestamp in line 12 of index.txt."
    );
    assert_eq!(
        IntegrityCheckError::IndexFileContainsInvalidPathInLine(3)
            .get_message()
            .as_str(),
        "Invalid path in line 3 of index.txt."
    );
    assert_eq!(
        IntegrityCheckError::EntryIndexedButNotExists(String::from("/tmp/f"))
            .get_message()
            .as_str(),
        "Entry '/tmp/f' is indexed, but is missing in snapshot."
    );
    assert_eq!(
        IntegrityCheckError::EntryExistsButNotIndexed(String::from("/tmp/f"))
            .get_message()
            .as_str(),
        "Entry '/tmp/f' is present in snapshot, but is not indexed."
    );
    assert_eq!(
        IntegrityCheckError::UnexpectedError(String::from("boom"))
            .get_message()
            .as_str(),
        "Unexpected error occured: boom"
    );
}

#[test]
fn lines_split_at_line_feeds_and_drop_carriage_returns() {
    let text = "first\nsecond\r\nthird";
    let lines = lines_of(text);
    assert_eq!(lines.len(), 3);
    assert_eq!(lines[0].as_str(), "first");
    assert_eq!(lines[1].as_str(), "second");
    assert_eq!(lines[2].as_str(), "third");

    let lines = lines_of("one line\n");
    assert_eq!(lines.len(), 1);
    assert_eq!(lines[0].as_str(), "one line");

    let lines = lines_of("");
    assert_eq!(lines.len(), 0);
}

#[test]
fn trim_removes_ascii_whitespace_at_both_ends() {
    assert_eq!(trim(" \t hello world \r\n").as_str(), "hello world");
    assert_eq!(trim("untouched").as_str(), "untouched");
    assert_eq!(trim("  ").as_str(), "");
}
