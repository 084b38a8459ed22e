//! Integrity findings: the outcomes an integrity check can report.

use vstd::prelude::*;
use vstd::string::StringExecFns;

use crate::digits::dec_chars;
use crate::digits::push_decimal;

verus! {

/// One integrity finding. A check returns the first finding it meets;
/// `Ok` means the snapshot parsed and reconciled cleanly end to end.
#[derive(Debug, PartialEq, Eq)]
pub enum IntegrityCheckError {
    SnapshotDoesntExist,
    SnapshotNameHasInvalidTimestamp(String),
    IndexFileDoesntExist,
    FilesFolderDoesntExist,
    IndexFileContainsInvalidTimestampInLine(usize),
    IndexFileContainsInvalidPathInLine(usize),
    EntryIndexedButNotExists(String),
    EntryExistsButNotIndexed(String),
    UnexpectedError(String),
}

pub type IntegrityCheckResult = Result<(), IntegrityCheckError>;

/// The one-line human-readable rendering of a finding.
pub open spec fn spec_message(e: IntegrityCheckError) -> Seq<char> {
    match e {
        IntegrityCheckError::SnapshotDoesntExist => "Snapshot doesn't exist."@,
        IntegrityCheckError::SnapshotNameHasInvalidTimestamp(name) => "Snapshot's name '"@ + name@
            + "' is not a correct timestamp."@,
        IntegrityCheckError::IndexFileDoesntExist => "Files index.txt is missing."@,
        IntegrityCheckError::FilesFolderDoesntExist => "Folder files is missing."@,
        IntegrityCheckError::IndexFileContainsInvalidTimestampInLine(line) => "Invalid timestamp in line "@
            + dec_chars(line as int) + " of index.txt."@,
        IntegrityCheckError::IndexFileContainsInvalidPathInLine(line) => "Invalid path in line "@
            + dec_chars(line as int) + " of index.txt."@,
        IntegrityCheckError::EntryIndexedButNotExists(path) => "Entry '"@ + path@
            + "' is indexed, but is missing in snapshot."@,
        IntegrityCheckError::EntryExistsButNotIndexed(path) => "Entry '"@ + path@
            + "' is present in snapshot, but is not indexed."@,
        IntegrityCheckError::UnexpectedError(message) => "Unexpected error occured: "@ + message@,
    }
}

impl IntegrityCheckError {
    /// Renders the finding as one human-readable line.
    pub fn get_message(&self) -> (r: String)
        ensures
            r@ == spec_message(*self),
    {
        match self {
            IntegrityCheckError::SnapshotDoesntExist => String::from_str(
                "Snapshot doesn't exist.",
            ),
            IntegrityCheckError::SnapshotNameHasInvalidTimestamp(name) => {
                let mut r = String::from_str("Snapshot's name '");
                r.append(name.as_str());
                r.append("' is not a correct timestamp.");
                r
            },
            IntegrityCheckError::IndexFileDoesntExist => String::from_str(
                "Files index.txt is missing.",
            ),
            IntegrityCheckError::FilesFolderDoesntExist => String::from_str(
                "Folder files is missing.",
            ),
            IntegrityCheckError::IndexFileContainsInvalidTimestampInLine(line) => {
                let mut r = String::from_str("Invalid timestamp in line ");
                push_decimal(&mut r, *line as u64);
                r.append(" of index.txt.");
                r
            },
            IntegrityCheckError::IndexFileContainsInvalidPathInLine(line) => {
                let mut r = String::from_str("Invalid path in line ");
                push_decimal(&mut r, *line as u64);
                r.append(" of index.txt.");
                r
            },
            IntegrityCheckError::EntryIndexedButNotExists(path) => {
                let mut r = String::from_str("Entry '");
                r.append(path.as_str());
                r.append("' is indexed, but is missing in snapshot.");
                r
            },
            IntegrityCheckError::EntryExistsButNotIndexed(path) => {
                let mut r = String::from_str("Entry '");
                r.append(path.as_str());
                r.append("' is present in snapshot, but is not indexed.");
                r
            },
            IntegrityCheckError::UnexpectedError(message) => {
                let mut r = String::from_str("Unexpected error occured: ");
                r.append(message.as_str());
                r
            },
        }
    }
}

} // verus!
