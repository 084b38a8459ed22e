//! The index: the append-only log mapping each captured path to the
//! timestamp of the snapshot that physically owns its bytes.
//!
//! One entry per text line, `<timestamp> <absolute-path>`, split at the
//! first space so paths may contain spaces. `Index` is the write-oriented
//! ordered log; `IndexPreview` the read-only lookup built from a saved one.

use vstd::prelude::*;
use vstd::string::StrSliceExecFns;
use vstd::string::StringExecFns;

use crate::paths::is_absolute_path;
use crate::paths::spec_is_absolute;
use crate::result::IntegrityCheckError;
use crate::result::IntegrityCheckResult;
use crate::text::char_index;
use crate::text::spec_char_index;
use crate::text::spec_trim;
use crate::text::trim;
use crate::timestamp::spec_parse;
use crate::timestamp::spec_str_of;
use crate::timestamp::Timestamp;

verus! {

/// Why one index line does not parse.
#[derive(Clone, Copy, Debug, PartialEq, Eq, Structural)]
pub enum IndexEntryParseError {
    SyntaxError,
    InvalidTimestamp,
    InvalidPath,
}

/// One captured path and the timestamp of the snapshot owning its bytes.
#[derive(Debug)]
pub struct IndexEntry {
    pub timestamp: Timestamp,
    pub path: String,
}

/// What parsing one index line yields: the line splits at its first space
/// into a timestamp token and a path token; the timestamp must parse, and
/// the path token, trimmed of ASCII whitespace, must be absolute.
pub open spec fn spec_parse_line(line: Seq<char>) -> Result<
    (Timestamp, Seq<char>),
    IndexEntryParseError,
> {
    let k = spec_char_index(line, ' ');
    if k >= line.len() {
        Err(IndexEntryParseError::SyntaxError)
    } else {
        match spec_parse(line.take(k)) {
            None => Err(IndexEntryParseError::InvalidTimestamp),
            Some(t) => {
                let p = spec_trim(line.skip(k + 1));
                if spec_is_absolute(p) {
                    Ok((t, p))
                } else {
                    Err(IndexEntryParseError::InvalidPath)
                }
            },
        }
    }
}

/// The text form of one entry: `<timestamp> <path>`.
pub open spec fn spec_entry_line(t: Timestamp, path: Seq<char>) -> Seq<char> {
    spec_str_of(t) + seq![' '] + path
}

impl IndexEntry {
    /// Parses one line of a saved index.
    pub fn from_line(line: &str) -> (r: Result<IndexEntry, IndexEntryParseError>)
        ensures
            match r {
                Ok(e) => spec_parse_line(line@) == Ok::<(Timestamp, Seq<char>),
                    IndexEntryParseError,
                >((e.timestamp, e.path@)) && e.timestamp.valid(),
                Err(er) => spec_parse_line(line@) == Err::<(Timestamp, Seq<char>),
                    IndexEntryParseError,
                >(er),
            },
    {
        let len = line.unicode_len();
        let k = char_index(line, ' ');
        if k >= len {
            return Err(IndexEntryParseError::SyntaxError);
        }
        let ts_token = line.substring_char(0, k);
        let path_token = line.substring_char(k + 1, len);
        proof {
            assert(line@.subrange(0, k as int) =~= line@.take(k as int));
            assert(line@.subrange(k as int + 1, len as int) =~= line@.skip(k as int + 1));
        }
        match Timestamp::parse_from(ts_token) {
            None => Err(IndexEntryParseError::InvalidTimestamp),
            Some(t) => {
                let p = trim(path_token);
                if is_absolute_path(p.as_str()) {
                    Ok(IndexEntry { timestamp: t, path: p })
                } else {
                    Err(IndexEntryParseError::InvalidPath)
                }
            },
        }
    }

    /// Renders the entry as its index line.
    pub fn to_string(&self) -> (r: String)
        requires
            self.timestamp.valid(),
        ensures
            r@ == spec_entry_line(self.timestamp, self.path@),
    {
        proof {
            reveal_strlit(" ");
        }
        let mut r = self.timestamp.to_string();
        r.append(" ");
        r.append(self.path.as_str());
        assert(r@ =~= spec_entry_line(self.timestamp, self.path@));
        r
    }
}

/// The pairs a sequence of entries stands for.
pub open spec fn entry_views(es: Seq<IndexEntry>) -> Seq<(Timestamp, Seq<char>)> {
    es.map_values(|e: IndexEntry| (e.timestamp, e.path@))
}

/// What parsing a whole saved index yields: every line must parse, else
/// nothing does.
pub open spec fn spec_parse_index(lines: Seq<Seq<char>>) -> Option<Seq<(Timestamp, Seq<char>)>>
    decreases lines.len(),
{
    if lines.len() == 0 {
        Some(Seq::empty())
    } else {
        match spec_parse_line(lines[0]) {
            Err(e) => None,
            Ok(p) => match spec_parse_index(lines.drop_first()) {
                None => None,
                Some(rest) => Some(seq![p] + rest),
            },
        }
    }
}

/// The full text of a saved index: one line and one line feed per entry.
pub open spec fn spec_render(es: Seq<(Timestamp, Seq<char>)>) -> Seq<char>
    decreases es.len(),
{
    if es.len() == 0 {
        Seq::empty()
    } else {
        spec_entry_line(es[0].0, es[0].1) + seq!['\n'] + spec_render(es.drop_first())
    }
}

proof fn lemma_render_take_step(es: Seq<(Timestamp, Seq<char>)>, i: int)
    requires
        0 <= i < es.len(),
    ensures
        spec_render(es.take(i + 1)) == spec_render(es.take(i)) + spec_entry_line(
            es[i].0,
            es[i].1,
        ) + seq!['\n'],
    decreases i,
{
    if i == 0 {
        assert(es.take(1).drop_first() =~= Seq::<(Timestamp, Seq<char>)>::empty());
        assert(es.take(0) =~= Seq::<(Timestamp, Seq<char>)>::empty());
        assert(spec_render(es.take(1)) =~= spec_render(es.take(0)) + spec_entry_line(
            es[0].0,
            es[0].1,
        ) + seq!['\n']);
    } else {
        lemma_render_take_step(es.drop_first(), i - 1);
        assert(es.take(i + 1).drop_first() =~= es.drop_first().take(i));
        assert(es.take(i).drop_first() =~= es.drop_first().take(i - 1));
        assert(spec_render(es.take(i + 1)) =~= spec_render(es.take(i)) + spec_entry_line(
            es[i].0,
            es[i].1,
        ) + seq!['\n']);
    }
}

/// A row that a saved index can carry faithfully: a valid timestamp, and
/// an absolute path with no line breaks and no whitespace at either end.
pub open spec fn spec_clean_row(row: (Timestamp, Seq<char>)) -> bool {
    &&& row.0.valid()
    &&& spec_is_absolute(row.1)
    &&& spec_trim(row.1) == row.1
    &&& forall|j: int| 0 <= j < row.1.len() ==> row.1[j] != '\n'
}

proof fn lemma_str_of_plain(t: Timestamp)
    requires
        t.valid(),
    ensures
        spec_str_of(t).len() == 16,
        forall|j: int|
            0 <= j < 16 ==> #[trigger] spec_str_of(t)[j] != ' ' && spec_str_of(t)[j] != '\n'
                && spec_str_of(t)[j] != '\r',
{
    let s = spec_str_of(t);
    assert forall|j: int|
        0 <= j < 16 implies #[trigger] s[j] != ' ' && s[j] != '\n' && s[j] != '\r' by {
        if j == 4 || j == 7 || j == 10 || j == 13 {
        } else {
        }
    }
}

/// One clean row's line parses back to exactly that row.
pub proof fn lemma_entry_line_round_trip(t: Timestamp, path: Seq<char>)
    requires
        spec_clean_row((t, path)),
    ensures
        spec_parse_line(spec_entry_line(t, path)) == Ok::<(Timestamp, Seq<char>),
            IndexEntryParseError,
        >((t, path)),
{
    let line = spec_entry_line(t, path);
    lemma_str_of_plain(t);
    crate::text::lemma_char_index_at(line, ' ', 16);
    assert(line.take(16) =~= spec_str_of(t));
    crate::timestamp::lemma_format_then_parse(t);
    assert(line.skip(17) =~= path);
}

/// The saved text of clean rows splits back into exactly their lines, and
/// parsing those lines rebuilds exactly the rows: the index file format
/// round-trips.
pub proof fn lemma_index_round_trip(rows: Seq<(Timestamp, Seq<char>)>)
    ensures
        (forall|i: int| 0 <= i < rows.len() ==> spec_clean_row(#[trigger] rows[i])) ==> {
            let lines = crate::text::spec_lines(spec_render(rows));
            &&& lines.len() == rows.len()
            &&& (forall|i: int|
                0 <= i < rows.len() ==> #[trigger] lines[i] == spec_entry_line(
                    rows[i].0,
                    rows[i].1,
                ))
            &&& spec_parse_index(lines) == Some(rows)
        },
    decreases rows.len(),
{
    if forall|i: int| 0 <= i < rows.len() ==> spec_clean_row(#[trigger] rows[i]) {
        if rows.len() == 0 {
            assert(crate::text::spec_lines(spec_render(rows)) =~= Seq::<Seq<char>>::empty());
        } else {
            let rest = rows.drop_first();
            assert(forall|i: int| 0 <= i < rest.len() ==> #[trigger] rest[i] == rows[i + 1]);
            lemma_index_round_trip(rest);
            let t = rows[0].0;
            let path = rows[0].1;
            let line0 = spec_entry_line(t, path);
            let text = spec_render(rows);
            lemma_str_of_plain(t);
            assert(path.len() > 0);
            crate::text::lemma_trim_stable_ends(path);
            assert(text =~= line0 + seq!['\n'] + spec_render(rest));
            assert(forall|j: int| 0 <= j < line0.len() ==> #[trigger] text[j] == line0[j]);
            assert(text[line0.len() as int] == '\n');
            crate::text::lemma_char_index_at(text, '\n', line0.len() as int);
            let lines = crate::text::spec_lines(text);
            assert(text.take(line0.len() as int) =~= line0);
            assert(crate::text::spec_strip_cr(line0) =~= line0);
            assert(text.skip(line0.len() as int + 1) =~= spec_render(rest));
            let rlines = crate::text::spec_lines(spec_render(rest));
            assert(lines =~= seq![line0] + rlines);
            lemma_entry_line_round_trip(t, path);
            assert(forall|i: int| 1 <= i < lines.len() ==> #[trigger] lines[i] == rlines[i - 1]);
            assert(lines.drop_first() =~= rlines);
            assert(seq![(t, path)] + rest =~= rows);
            assert(spec_parse_index(lines) == Some(rows));
        }
    }
}

/// A snapshot's in-memory index: its backing file location and its entries
/// in append order.
pub struct Index {
    pub location: String,
    pub entries: Vec<IndexEntry>,
}

impl Index {
    /// Whether every entry carries a valid timestamp.
    pub open spec fn wf(self) -> bool {
        forall|i: int| 0 <= i < self.entries@.len() ==> self.entries@[i].timestamp.valid()
    }

    /// An empty index backed by `location`.
    pub fn new(location: String) -> (r: Index)
        ensures
            r.location == location,
            r.entries@.len() == 0,
            r.wf(),
    {
        Index { location, entries: Vec::new() }
    }

    /// Appends one entry; no text is written until the index is rendered.
    pub fn push(&mut self, timestamp: Timestamp, path: String)
        requires
            timestamp.valid(),
        ensures
            final(self).location == old(self).location,
            final(self).entries@ == old(self).entries@.push(IndexEntry { timestamp, path }),
            old(self).wf() ==> final(self).wf(),
    {
        self.entries.push(IndexEntry { timestamp, path });
    }

    /// Rebuilds an index from the lines of its saved file. A single
    /// malformed line invalidates the whole read.
    pub fn open(location: String, lines: &Vec<String>) -> (r: Result<Index, String>)
        ensures
            match r {
                Ok(ix) => {
                    &&& ix.location == location
                    &&& spec_parse_index(crate::paths::seq_views(lines@)) == Some(
                        entry_views(ix.entries@),
                    )
                    &&& ix.wf()
                },
                Err(e) => spec_parse_index(crate::paths::seq_views(lines@)) is None && e@
                    == "index.txt is broken"@,
            },
    {
        let ghost ls = crate::paths::seq_views(lines@);
        let n = lines.len();
        let mut entries: Vec<IndexEntry> = Vec::new();
        let mut i: usize = 0;
        proof {
            assert(ls.len() == lines@.len());
            assert(forall|t: int| 0 <= t < ls.len() ==> ls[t] == lines@[t]@);
            assert(ls.skip(0) =~= ls);
            if spec_parse_index(ls) is Some {
                assert(entry_views(entries@) + spec_parse_index(ls)->Some_0 =~= spec_parse_index(
                    ls,
                )->Some_0);
            }
        }
        while i < n
            invariant
                i <= n,
                n == lines@.len(),
                ls == crate::paths::seq_views(lines@),
                ls.len() == n,
                forall|t: int| 0 <= t < ls.len() ==> ls[t] == lines@[t]@,
                (spec_parse_index(ls) is Some) == (spec_parse_index(ls.skip(i as int)) is Some),
                spec_parse_index(ls) is Some ==> spec_parse_index(ls)->Some_0 == entry_views(
                    entries@,
                ) + spec_parse_index(ls.skip(i as int))->Some_0,
                forall|t: int| 0 <= t < entries@.len() ==> entries@[t].timestamp.valid(),
            decreases n - i,
        {
            let line = &lines[i];
            match IndexEntry::from_line(line.as_str()) {
                Err(e) => {
                    proof {
                        assert(ls.skip(i as int)[0] == lines@[i as int]@);
                        assert(spec_parse_index(ls.skip(i as int)) is None);
                    }
                    return Err(String::from_str("index.txt is broken"));
                },
                Ok(entry) => {
                    proof {
                        assert(ls.skip(i as int)[0] == lines@[i as int]@);
                        assert(ls.skip(i as int).drop_first() =~= ls.skip(i as int + 1));
                    }
                    let ghost old_entries = entries@;
                    entries.push(entry);
                    proof {
                        let p = (entry.timestamp, entry.path@);
                        assert(entry_views(entries@) =~= entry_views(old_entries) + seq![p]);
                        if spec_parse_index(ls.skip(i as int + 1)) is Some {
                            let rest = spec_parse_index(ls.skip(i as int + 1))->Some_0;
                            assert(spec_parse_index(ls.skip(i as int))->Some_0 == seq![p] + rest);
                            assert(entry_views(old_entries) + (seq![p] + rest) =~= entry_views(
                                entries@,
                            ) + rest);
                        }
                    }
                },
            }
            i = i + 1;
        }
        proof {
            assert(ls.skip(n as int) =~= Seq::<Seq<char>>::empty());
            assert(spec_parse_index(ls.skip(n as int)) == Some(
                Seq::<(Timestamp, Seq<char>)>::empty(),
            ));
            assert(entry_views(entries@) + Seq::<(Timestamp, Seq<char>)>::empty() =~= entry_views(
                entries@,
            ));
            assert(spec_parse_index(ls) == Some(entry_views(entries@)));
        }
        Ok(Index { location, entries })
    }

    /// The full text of the index, as `save` writes it: each entry's line
    /// followed by a line feed.
    pub fn render(&self) -> (r: String)
        requires
            self.wf(),
        ensures
            r@ == spec_render(entry_views(self.entries@)),
    {
        proof {
            reveal_strlit("\n");
        }
        let ghost es = entry_views(self.entries@);
        let mut r = String::new();
        let n = self.entries.len();
        let mut i: usize = 0;
        proof {
            assert(es.take(0) =~= Seq::<(Timestamp, Seq<char>)>::empty());
        }
        while i < n
            invariant
                i <= n,
                n == self.entries@.len(),
                es == entry_views(self.entries@),
                es.len() == n,
                self.wf(),
                r@ == spec_render(es.take(i as int)),
            decreases n - i,
        {
            let line = self.entries[i].to_string();
            r.append(line.as_str());
            r.append("\n");
            proof {
                reveal_strlit("\n");
                lemma_render_take_step(es, i as int);
                assert(es[i as int] == (self.entries@[i as int].timestamp,
                    self.entries@[i as int].path@));
                assert("\n"@ =~= seq!['\n']);
                assert(r@ =~= spec_render(es.take(i as int + 1)));
            }
            i = i + 1;
        }
        proof {
            assert(es.take(n as int) =~= es);
        }
        r
    }

    /// Validates the lines of a saved index file, reporting the first
    /// malformed line by its 1-based number: a line that does not split or
    /// whose timestamp token is broken counts as a bad timestamp, a
    /// non-absolute path token as a bad path. `file_exists` reports whether
    /// the file is there at all.
    #[verifier::loop_isolation(false)]
    pub fn check_integrity(file_exists: bool, lines: &Vec<String>) -> (r: IntegrityCheckResult)
        ensures
            !file_exists ==> r == Err::<(), IntegrityCheckError>(
                IntegrityCheckError::IndexFileDoesntExist,
            ),
            file_exists ==> match r {
                Ok(u) => forall|i: int|
                    0 <= i < lines@.len() ==> spec_parse_line(lines@[i]@) is Ok,
                Err(IntegrityCheckError::IndexFileContainsInvalidTimestampInLine(n)) => {
                    &&& 1 <= n <= lines@.len()
                    &&& (spec_parse_line(lines@[n - 1]@) == Err::<(Timestamp, Seq<char>),
                        IndexEntryParseError,
                    >(IndexEntryParseError::SyntaxError) || spec_parse_line(lines@[n - 1]@)
                        == Err::<(Timestamp, Seq<char>), IndexEntryParseError>(
                        IndexEntryParseError::InvalidTimestamp,
                    ))
                    &&& forall|i: int| 0 <= i < n - 1 ==> spec_parse_line(lines@[i]@) is Ok
                },
                Err(IntegrityCheckError::IndexFileContainsInvalidPathInLine(n)) => {
                    &&& 1 <= n <= lines@.len()
                    &&& spec_parse_line(lines@[n - 1]@) == Err::<(Timestamp, Seq<char>),
                        IndexEntryParseError,
                    >(IndexEntryParseError::InvalidPath)
                    &&& forall|i: int| 0 <= i < n - 1 ==> spec_parse_line(lines@[i]@) is Ok
                },
                _ => false,
            },
    {
        if !file_exists {
            return Err(IntegrityCheckError::IndexFileDoesntExist);
        }
        let n = lines.len();
        let mut i: usize = 0;
        while i < n
            invariant
                i <= n,
                n == lines@.len(),
                forall|t: int| 0 <= t < i ==> spec_parse_line(lines@[t]@) is Ok,
            decreases n - i,
        {
            match IndexEntry::from_line(lines[i].as_str()) {
                Ok(entry) => {},
                Err(IndexEntryParseError::SyntaxError)
                | Err(IndexEntryParseError::InvalidTimestamp) => {
                    return Err(
                        IntegrityCheckError::IndexFileContainsInvalidTimestampInLine(i + 1),
                    );
                },
                Err(IndexEntryParseError::InvalidPath) => {
                    return Err(IntegrityCheckError::IndexFileContainsInvalidPathInLine(i + 1));
                },
            }
            i = i + 1;
        }
        Ok(())
    }
}

/// A read-only lookup from captured path to owning timestamp, built from a
/// previously saved index. Later lines shadow earlier ones for the same
/// path token.
pub struct IndexPreview {
    pub entries: Vec<(String, Timestamp)>,
}

impl IndexPreview {
    /// Whether every recorded timestamp is valid.
    pub open spec fn wf(self) -> bool {
        forall|i: int| 0 <= i < self.entries@.len() ==> self.entries@[i].1.valid()
    }
}

/// The pairs a preview's entries stand for.
pub open spec fn preview_views(es: Seq<(String, Timestamp)>) -> Seq<(Seq<char>, Timestamp)> {
    es.map_values(|e: (String, Timestamp)| (e.0@, e.1))
}

/// The timestamp recorded for a path: that of the last matching entry.
pub open spec fn spec_preview_find(es: Seq<(Seq<char>, Timestamp)>, path: Seq<char>) -> Option<
    Timestamp,
>
    decreases es.len(),
{
    if es.len() == 0 {
        None
    } else if es[es.len() - 1].0 == path {
        Some(es[es.len() - 1].1)
    } else {
        spec_preview_find(es.drop_last(), path)
    }
}

/// What reading a preview from saved lines yields: each line splits at its
/// first space and its timestamp token must parse; the path token is kept
/// as it stands. Any bad line invalidates the whole read.
pub open spec fn spec_parse_preview(lines: Seq<Seq<char>>) -> Option<Seq<(Seq<char>, Timestamp)>>
    decreases lines.len(),
{
    if lines.len() == 0 {
        Some(Seq::empty())
    } else {
        let line = lines[0];
        let k = spec_char_index(line, ' ');
        if k >= line.len() {
            None
        } else {
            match spec_parse(line.take(k)) {
                None => None,
                Some(t) => match spec_parse_preview(lines.drop_first()) {
                    None => None,
                    Some(rest) => Some(seq![(line.skip(k + 1), t)] + rest),
                },
            }
        }
    }
}

impl IndexPreview {
    /// Builds the lookup from the lines of a saved index file.
    pub fn open(lines: &Vec<String>) -> (r: Result<IndexPreview, String>)
        ensures
            match r {
                Ok(pv) => spec_parse_preview(crate::paths::seq_views(lines@)) == Some(
                    preview_views(pv.entries@),
                ) && pv.wf(),
                Err(e) => spec_parse_preview(crate::paths::seq_views(lines@)) is None,
            },
    {
        let ghost ls = crate::paths::seq_views(lines@);
        let n = lines.len();
        let mut entries: Vec<(String, Timestamp)> = Vec::new();
        let mut i: usize = 0;
        proof {
            assert(ls.len() == lines@.len());
            assert(forall|t: int| 0 <= t < ls.len() ==> ls[t] == lines@[t]@);
            assert(ls.skip(0) =~= ls);
            if spec_parse_preview(ls) is Some {
                assert(preview_views(entries@) + spec_parse_preview(ls)->Some_0
                    =~= spec_parse_preview(ls)->Some_0);
            }
        }
        while i < n
            invariant
                i <= n,
                n == lines@.len(),
                ls == crate::paths::seq_views(lines@),
                ls.len() == n,
                forall|t: int| 0 <= t < ls.len() ==> ls[t] == lines@[t]@,
                (spec_parse_preview(ls) is Some) == (spec_parse_preview(ls.skip(i as int))
                    is Some),
                spec_parse_preview(ls) is Some ==> spec_parse_preview(ls)->Some_0
                    == preview_views(entries@) + spec_parse_preview(ls.skip(i as int))->Some_0,
                forall|t: int| 0 <= t < entries@.len() ==> entries@[t].1.valid(),
            decreases n - i,
        {
            let line = &lines[i];
            let len = line.as_str().unicode_len();
            let k = char_index(line.as_str(), ' ');
            proof {
                assert(ls.skip(i as int)[0] == lines@[i as int]@);
                assert(ls.skip(i as int).drop_first() =~= ls.skip(i as int + 1));
            }
            if k >= len {
                return Err(String::from_str("Index line has invalid format"));
            }
            let ts_token = line.as_str().substring_char(0, k);
            proof {
                assert(line@.subrange(0, k as int) =~= line@.take(k as int));
            }
            match Timestamp::parse_from(ts_token) {
                None => {
                    return Err(String::from_str("Invalid timestamp"));
                },
                Some(t) => {
                    let path_token = String::from_str(
                        line.as_str().substring_char(k + 1, len),
                    );
                    proof {
                        assert(path_token@ =~= line@.skip(k as int + 1));
                    }
                    let ghost old_entries = entries@;
                    entries.push((path_token, t));
                    proof {
                        let p = (lines@[i as int]@.skip(k as int + 1), t);
                        assert(preview_views(entries@) =~= preview_views(old_entries) + seq![p]);
                        if spec_parse_preview(ls.skip(i as int + 1)) is Some {
                            let rest = spec_parse_preview(ls.skip(i as int + 1))->Some_0;
                            assert(spec_parse_preview(ls.skip(i as int))->Some_0 == seq![p]
                                + rest);
                            assert(preview_views(old_entries) + (seq![p] + rest) =~= preview_views(
                                entries@,
                            ) + rest);
                        }
                    }
                },
            }
            i = i + 1;
        }
        proof {
            assert(ls.skip(n as int) =~= Seq::<Seq<char>>::empty());
            assert(spec_parse_preview(ls.skip(n as int)) == Some(
                Seq::<(Seq<char>, Timestamp)>::empty(),
            ));
            assert(preview_views(entries@) + Seq::<(Seq<char>, Timestamp)>::empty()
                =~= preview_views(entries@));
            assert(spec_parse_preview(ls) == Some(preview_views(entries@)));
        }
        Ok(IndexPreview { entries })
    }

    /// Looks a canonical path up, returning the timestamp of the last
    /// index line that recorded it.
    pub fn find(&self, path: &str) -> (r: Option<Timestamp>)
        ensures
            r == spec_preview_find(preview_views(self.entries@), path@),
            self.wf() && r is Some ==> r->Some_0.valid(),
    {
        let ghost es = preview_views(self.entries@);
        let mut i: usize = self.entries.len();
        proof {
            assert(es.len() == self.entries@.len());
            assert(forall|t: int| 0 <= t < es.len() ==> es[t] == (self.entries@[t].0@,
                self.entries@[t].1));
            assert(es.take(es.len() as int) =~= es);
        }
        while i > 0
            invariant
                i <= self.entries@.len(),
                es == preview_views(self.entries@),
                es.len() == self.entries@.len(),
                forall|t: int| 0 <= t < es.len() ==> es[t] == (self.entries@[t].0@,
                    self.entries@[t].1),
                spec_preview_find(es, path@) == spec_preview_find(es.take(i as int), path@),
            decreases i,
        {
            let pair = &self.entries[i - 1];
            if crate::text::str_eq(pair.0.as_str(), path) {
                proof {
                    assert(es.take(i as int)[i - 1] == es[i - 1]);
                }
                return Some(pair.1);
            }
            proof {
                assert(es.take(i as int).drop_last() =~= es.take(i as int - 1));
                assert(es.take(i as int)[i - 1] == es[i - 1]);
            }
            i = i - 1;
        }
        proof {
            assert(es.take(0) =~= Seq::<(Seq<char>, Timestamp)>::empty());
        }
        None
    }
}

} // verus!
