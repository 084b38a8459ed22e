//! One snapshot: a timestamped capture with its own index and files store,
//! optionally diffed against the previous snapshot's index.
//!
//! The surrounding program walks the filesystem and copies bytes; every
//! decision — which timestamp names the snapshot, whether an entry is
//! copied or reused from the baseline, what enters the index, and what an
//! integrity check reports — is made here.

use vstd::prelude::*;
use vstd::string::StringExecFns;
use vstd::set_lib::lemma_len_subset;
use vstd::set_lib::lemma_int_range;
use vstd::set_lib::set_int_range;

use crate::files::EntryKind;
use crate::files::Files;
use crate::files::spec_matched;
use crate::files::spec_snapshot_path;
use crate::files::spec_walk_violation;
use crate::index::entry_views;
use crate::index::Index;
use crate::index::IndexPreview;
use crate::index::preview_views;
use crate::index::spec_parse_index;
use crate::index::spec_parse_line;
use crate::index::spec_preview_find;
use crate::index::IndexEntryParseError;
use crate::paths::last_component_of;
use crate::paths::path_join;
use crate::paths::seq_views;
use crate::paths::spec_last_component;
use crate::paths::spec_path_join;
use crate::result::IntegrityCheckError;
use crate::result::IntegrityCheckResult;
use crate::text::str_eq;
use crate::timestamp::lemma_format_then_parse;
use crate::timestamp::lemma_order_is_minute_order;
use crate::timestamp::spec_parse;
use crate::timestamp::spec_str_of;
use crate::timestamp::Timestamp;

verus! {

broadcast use vstd::set::group_set_axioms;

/// The minute a name denotes, when it parses as a timestamp.
pub open spec fn spec_minute_of(s: Seq<char>) -> Option<int> {
    match spec_parse(s) {
        Some(t) => Some(t.minute_index()),
        None => None,
    }
}

/// True when one of the names denotes minute `k`.
pub open spec fn spec_minute_taken(names: Seq<String>, k: int) -> bool {
    exists|i: int| 0 <= i < names.len() && #[trigger] spec_minute_of(names[i]@) == Some(k)
}

/// True when one of the names is the canonical rendering of `t`.
pub open spec fn spec_name_taken(names: Seq<String>, t: Timestamp) -> bool {
    exists|i: int| 0 <= i < names.len() && names[i]@ == spec_str_of(t)
}

fn name_taken(existing: &Vec<String>, name: &str) -> (r: bool)
    ensures
        r == (exists|i: int| 0 <= i < existing@.len() && existing@[i]@ == name@),
{
    let n = existing.len();
    let mut i: usize = 0;
    while i < n
        invariant
            i <= n,
            n == existing@.len(),
            forall|t: int| 0 <= t < i ==> existing@[t]@ != name@,
        decreases n - i,
    {
        if str_eq(existing[i].as_str(), name) {
            return true;
        }
        i = i + 1;
    }
    false
}

/// The minute a new snapshot's timestamp starts from: the current time,
/// pushed one minute past a latest snapshot that lies in the future.
pub open spec fn spec_start_key(now: Timestamp, latest: Option<Timestamp>) -> int {
    match latest {
        Some(l) => if now.spec_lt(l) {
            l.minute_index() + 1
        } else {
            now.minute_index()
        },
        None => now.minute_index(),
    }
}

/// Picks the name of a new snapshot: the current minute, advanced past a
/// latest snapshot from the future, and advanced minute by minute while a
/// directory of the candidate's name already exists under the root. The
/// result is the first free minute at or after that start.
#[verifier::loop_isolation(false)]
pub fn get_timestamp_for_new_snapshot(
    now: Timestamp,
    latest: Option<Timestamp>,
    existing: &Vec<String>,
) -> (r: Timestamp)
    requires
        now.valid(),
        latest is Some ==> latest->0.valid(),
        spec_start_key(now, latest) + existing@.len() <= Timestamp::spec_max().minute_index(),
    ensures
        r.valid(),
        now.spec_le(r),
        latest matches Some(l) ==> (now.spec_lt(l) ==> l.spec_lt(r)),
        forall|i: int| 0 <= i < existing@.len() ==> existing@[i]@ != spec_str_of(r),
        spec_start_key(now, latest) <= r.minute_index(),
        forall|k: int|
            spec_start_key(now, latest) <= k < r.minute_index() ==> spec_minute_taken(
                existing@,
                k,
            ),
{
    let ghost n = existing@.len() as int;
    let ghost start = spec_start_key(now, latest);
    let mut cur: Timestamp = match latest {
        Some(l) => {
            if now < l {
                proof {
                    lemma_order_is_minute_order(l, Timestamp::spec_max());
                }
                l.get_next()
            } else {
                now
            }
        },
        None => now,
    };
    let ghost mut used: Set<int> = Set::empty();
    let ghost mut wit: int = 0;
    let name = cur.to_string();
    let mut taken = name_taken(existing, name.as_str());
    while taken
        invariant
            cur.valid(),
            taken == spec_name_taken(existing@, cur),
            used.finite(),
            used.subset_of(set_int_range(0, n)),
            cur.minute_index() == start + used.len(),
            used.len() <= n,
            now.spec_le(cur),
            latest matches Some(l) ==> (now.spec_lt(l) ==> l.spec_lt(cur)),
            forall|idx: int|
                used.contains(idx) ==> 0 <= idx < n && (spec_minute_of(existing@[idx]@) matches
                Some(k) && start <= k < cur.minute_index()),
            forall|k: int| start <= k < cur.minute_index() ==> spec_minute_taken(existing@, k),
        decreases n - used.len(),
    {
        proof {
            let w = choose|w: int| 0 <= w < existing@.len() && existing@[w]@ == spec_str_of(cur);
            lemma_format_then_parse(cur);
            assert(spec_parse(existing@[w]@) == Some(cur));
            assert(!used.contains(w));
            used = used.insert(w);
            wit = w;
            lemma_int_range(0, n);
            lemma_len_subset(used, set_int_range(0, n));
            lemma_order_is_minute_order(cur, Timestamp::spec_max());
        }
        cur = cur.get_next();
        proof {
            assert forall|k: int| start <= k < cur.minute_index() implies spec_minute_taken(
                existing@,
                k,
            ) by {
                if k == cur.minute_index() - 1 {
                    assert(0 <= wit < existing@.len() && spec_minute_of(existing@[wit]@) == Some(
                        k,
                    ));
                }
            }
        }
        let name2 = cur.to_string();
        taken = name_taken(existing, name2.as_str());
    }
    cur
}

/// The paths of the index rows stamped with the given timestamp.
pub open spec fn spec_own_paths(rows: Seq<(Timestamp, Seq<char>)>, t0: Timestamp) -> Seq<Seq<char>>
    decreases rows.len(),
{
    if rows.len() == 0 {
        Seq::empty()
    } else {
        (if rows[0].0 == t0 {
            seq![rows[0].1]
        } else {
            Seq::empty()
        }) + spec_own_paths(rows.drop_first(), t0)
    }
}

proof fn lemma_own_paths_take_step(rows: Seq<(Timestamp, Seq<char>)>, t0: Timestamp, i: int)
    requires
        0 <= i < rows.len(),
    ensures
        spec_own_paths(rows.take(i + 1), t0) == spec_own_paths(rows.take(i), t0) + (if rows[i].0
            == t0 {
            seq![rows[i].1]
        } else {
            Seq::<Seq<char>>::empty()
        }),
    decreases i,
{
    if i == 0 {
        assert(rows.take(1).drop_first() =~= Seq::<(Timestamp, Seq<char>)>::empty());
        assert(rows.take(0) =~= Seq::<(Timestamp, Seq<char>)>::empty());
        assert(spec_own_paths(rows.take(1), t0) =~= spec_own_paths(rows.take(0), t0) + (if rows[0].0
            == t0 {
            seq![rows[0].1]
        } else {
            Seq::<Seq<char>>::empty()
        }));
    } else {
        lemma_own_paths_take_step(rows.drop_first(), t0, i - 1);
        assert(rows.take(i + 1).drop_first() =~= rows.drop_first().take(i));
        assert(rows.take(i).drop_first() =~= rows.drop_first().take(i - 1));
        assert(spec_own_paths(rows.take(i + 1), t0) =~= spec_own_paths(rows.take(i), t0) + (if rows[
            i].0 == t0 {
            seq![rows[i].1]
        } else {
            Seq::<Seq<char>>::empty()
        }));
    }
}

proof fn lemma_parse_index_all_ok(lines: Seq<Seq<char>>)
    requires
        forall|i: int| 0 <= i < lines.len() ==> spec_parse_line(#[trigger] lines[i]) is Ok,
    ensures
        spec_parse_index(lines) is Some,
        spec_parse_index(lines)->0.len() == lines.len(),
        forall|i: int|
            0 <= i < lines.len() ==> #[trigger] spec_parse_index(lines)->0[i] == spec_parse_line(
                lines[i],
            )->Ok_0,
    decreases lines.len(),
{
    if lines.len() > 0 {
        assert(forall|i: int|
            0 <= i < lines.drop_first().len() ==> #[trigger] lines.drop_first()[i] == lines[i
                + 1]);
        lemma_parse_index_all_ok(lines.drop_first());
    }
}

/// A filesystem node met during a walk: its canonical absolute path, its
/// kind and byte length, and its modification and creation minutes where
/// the platform exposes them.
pub struct WalkedEntry {
    pub canonical_path: String,
    pub kind: EntryKind,
    pub len: u64,
    pub mtime: Option<Timestamp>,
    pub ctime: Option<Timestamp>,
}

impl WalkedEntry {
    pub open spec fn wf(self) -> bool {
        &&& (self.mtime matches Some(t) ==> t.valid())
        &&& (self.ctime matches Some(t) ==> t.valid())
    }
}

/// What the engine decides for one walked entry.
pub enum EntryDecision {
    Reuse(Timestamp),
    CopyNew,
    Refuse,
}

/// What the surrounding program is told to do for one walked entry.
pub enum EntryAction {
    Reuse(Timestamp),
    Copy(String),
    Skip(crate::files::FilesError),
}

/// One snapshot under construction: its directory, its own timestamp, its
/// index and files store, and the previous snapshot's index when the
/// snapshot is incremental.
pub struct Snapshot {
    pub location: String,
    pub timestamp: Timestamp,
    pub index: Index,
    pub files: Files,
    pub base_index: Option<IndexPreview>,
}

/// The minute an entry's metadata time may reach without counting as
/// changed: one minute before the recorded timestamp, the fixed margin
/// absorbing filesystem timestamp resolution and clock jitter.
pub open spec fn spec_margin_key(prev: Timestamp) -> int {
    if prev.minute_index() == 0 {
        0
    } else {
        prev.minute_index() - 1
    }
}

impl Snapshot {
    pub open spec fn wf(self) -> bool {
        &&& self.timestamp.valid()
        &&& self.index.wf()
        &&& (self.base_index matches Some(pv) ==> pv.wf())
    }

    /// The timestamp whose snapshot already owns this entry's bytes: the
    /// one the baseline records for the path, provided the modification
    /// time is known and no available metadata time is newer than the
    /// recorded minute less the one-minute margin. A creation time is
    /// consulted only where the platform exposes one. `None` means the
    /// entry must be copied afresh.
    pub open spec fn spec_reuse(self, e: WalkedEntry) -> Option<Timestamp> {
        match self.base_index {
            None => None,
            Some(pv) => match spec_preview_find(preview_views(pv.entries@), e.canonical_path@) {
                None => None,
                Some(prev) => match e.mtime {
                    None => None,
                    Some(mt) => if mt.minute_index() <= spec_margin_key(prev) && (e.ctime matches
                    Some(ct) ==> ct.minute_index() <= spec_margin_key(prev)) {
                        Some(prev)
                    } else {
                        None
                    },
                },
            },
        }
    }

    /// The copy-or-skip decision for one walked entry.
    pub open spec fn spec_decision(self, e: WalkedEntry, symlinks_supported: bool) -> EntryDecision {
        match self.spec_reuse(e) {
            Some(t) => EntryDecision::Reuse(t),
            None => if e.kind == EntryKind::Other || (e.kind == EntryKind::Symlink
                && !symlinks_supported) {
                EntryDecision::Refuse
            } else {
                EntryDecision::CopyNew
            },
        }
    }

    /// The index rows one processed entry contributes: a reused entry keeps
    /// the baseline's timestamp, a fresh copy (when it succeeded) carries
    /// this snapshot's own, and a refused or failed entry leaves no row.
    pub open spec fn spec_event_rows(
        self,
        e: WalkedEntry,
        copy_ok: bool,
        symlinks_supported: bool,
    ) -> Seq<(Timestamp, Seq<char>)> {
        match self.spec_decision(e, symlinks_supported) {
            EntryDecision::Reuse(t) => seq![(t, e.canonical_path@)],
            EntryDecision::CopyNew => if copy_ok {
                seq![(self.timestamp, e.canonical_path@)]
            } else {
                Seq::empty()
            },
            EntryDecision::Refuse => Seq::empty(),
        }
    }

    /// The bytes one processed entry adds to the files store.
    pub open spec fn spec_event_bytes(
        self,
        e: WalkedEntry,
        copy_ok: bool,
        symlinks_supported: bool,
    ) -> int {
        match self.spec_decision(e, symlinks_supported) {
            EntryDecision::CopyNew => if copy_ok {
                e.len as int
            } else {
                0
            },
            _ => 0,
        }
    }

    /// Lays a new snapshot out under `root`: its timestamp chosen by
    /// `get_timestamp_for_new_snapshot` from the wall clock, the latest
    /// existing snapshot and the names already under the root; its
    /// directory named by that timestamp; an empty index and files store
    /// beneath it. `root_is_dir` reports whether the root directory is
    /// accessible; the surrounding program creates the snapshot directory
    /// itself afterwards.
    pub fn create(
        root: String,
        root_is_dir: bool,
        now: Timestamp,
        latest: Option<Timestamp>,
        existing: &Vec<String>,
    ) -> (r: Result<Snapshot, String>)
        requires
            now.valid(),
            latest is Some ==> latest->0.valid(),
            spec_start_key(now, latest) + existing@.len() <= Timestamp::spec_max().minute_index(),
        ensures
            match r {
                Ok(s) => {
                    &&& root_is_dir
                    &&& s.wf()
                    &&& s.base_index is None
                    &&& s.index.entries@.len() == 0
                    &&& s.files.size == 0
                    &&& now.spec_le(s.timestamp)
                    &&& (latest matches Some(l) ==> (now.spec_lt(l) ==> l.spec_lt(s.timestamp)))
                    &&& (forall|i: int|
                        0 <= i < existing@.len() ==> existing@[i]@ != spec_str_of(s.timestamp))
                    &&& spec_start_key(now, latest) <= s.timestamp.minute_index()
                    &&& (forall|k: int|
                        spec_start_key(now, latest) <= k < s.timestamp.minute_index()
                            ==> spec_minute_taken(existing@, k))
                    &&& s.location@ == spec_path_join(root@, spec_str_of(s.timestamp))
                    &&& s.index.location@ == spec_path_join(s.location@, "index.txt"@)
                    &&& s.files.root@ == spec_path_join(s.location@, "files"@)
                },
                Err(e) => !root_is_dir && e@
                    == "Folder with backup does not exist or is not accessible"@,
            },
    {
        if !root_is_dir {
            return Err(String::from_str("Folder with backup does not exist or is not accessible"));
        }
        let timestamp = get_timestamp_for_new_snapshot(now, latest, existing);
        let name = timestamp.to_string();
        let location = path_join(root.as_str(), name.as_str());
        let index = Index::new(path_join(location.as_str(), "index.txt"));
        let files = Files::new(path_join(location.as_str(), "files"));
        Ok(Snapshot { location, timestamp, index, files, base_index: None })
    }

    /// Reopens a saved snapshot read-only from its directory name and the
    /// lines of its saved index; used to inspect a snapshot, not to extend
    /// it, so no baseline is wired and no store size is counted.
    pub fn open(location: &str, lines: &Vec<String>) -> (r: Result<Snapshot, String>)
        ensures
            match r {
                Ok(s) => {
                    &&& spec_parse(spec_last_component(location@)) == Some(s.timestamp)
                    &&& s.location@ == location@
                    &&& spec_parse_index(seq_views(lines@)) == Some(entry_views(s.index.entries@))
                    &&& s.index.location@ == spec_path_join(location@, "index.txt"@)
                    &&& s.files.root@ == spec_path_join(location@, "files"@)
                    &&& s.files.size == 0
                    &&& s.base_index is None
                    &&& s.wf()
                },
                Err(e) => (spec_parse(spec_last_component(location@)) is None && e@
                    == "Failed to parse timestamp"@) || (spec_parse(
                    spec_last_component(location@),
                ) is Some && spec_parse_index(seq_views(lines@)) is None && e@
                    == "index.txt is broken"@),
            },
    {
        let name = last_component_of(location);
        let timestamp = match Timestamp::parse_from(name.as_str()) {
            None => {
                return Err(String::from_str("Failed to parse timestamp"));
            },
            Some(t) => t,
        };
        let index = match Index::open(path_join(location, "index.txt"), lines) {
            Ok(ix) => ix,
            Err(e) => {
                return Err(e);
            },
        };
        let files = Files::new(path_join(location, "files"));
        Ok(
            Snapshot {
                location: String::from_str(location),
                timestamp,
                index,
                files,
                base_index: None,
            },
        )
    }

    /// The lightweight handle on this snapshot.
    pub fn to_preview(&self) -> (r: crate::backup::SnapshotPreview)
        ensures
            r.timestamp == self.timestamp,
            r.index@ == spec_path_join(self.location@, "index.txt"@),
            r.files@ == spec_path_join(self.location@, "files"@),
    {
        crate::backup::SnapshotPreview {
            timestamp: self.timestamp,
            index: path_join(self.location.as_str(), "index.txt"),
            files: path_join(self.location.as_str(), "files"),
        }
    }

    /// Whether a directory name is a well-formed snapshot name.
    pub fn has_valid_name(name: &str) -> (r: bool)
        ensures
            r == (spec_parse(name@) is Some),
    {
        Timestamp::is_valid(name)
    }

    /// Wires the incremental baseline; `None` forces full-snapshot
    /// semantics.
    pub fn set_base_snapshot(&mut self, base: Option<IndexPreview>)
        requires
            base matches Some(pv) ==> pv.wf(),
        ensures
            final(self).location == old(self).location,
            final(self).timestamp == old(self).timestamp,
            final(self).index == old(self).index,
            final(self).files == old(self).files,
            final(self).base_index == base,
            old(self).wf() ==> final(self).wf(),
    {
        self.base_index = base;
    }

    /// The snapshot's name: its timestamp's canonical rendering.
    pub fn name(&self) -> (r: String)
        requires
            self.wf(),
        ensures
            r@ == spec_str_of(self.timestamp),
    {
        self.timestamp.to_string()
    }

    /// The full text of the index file to be saved for this snapshot.
    pub fn render_index(&self) -> (r: String)
        requires
            self.wf(),
        ensures
            r@ == crate::index::spec_render(entry_views(self.index.entries@)),
    {
        self.index.render()
    }

    /// Consults the baseline for one entry, as `spec_reuse` describes.
    pub fn is_entry_already_backed_up(&self, entry: &WalkedEntry) -> (r: Option<Timestamp>)
        requires
            self.wf(),
            entry.wf(),
        ensures
            r == self.spec_reuse(*entry),
            r matches Some(t) ==> t.valid(),
    {
        match &self.base_index {
            None => None,
            Some(pv) => match pv.find(entry.canonical_path.as_str()) {
                None => None,
                Some(prev) => match &entry.mtime {
                    None => None,
                    Some(mt) => {
                        let pm = prev.previous();
                        proof {
                            lemma_order_is_minute_order(pm, *mt);
                            lemma_order_is_minute_order(prev, Timestamp::spec_min());
                            assert(Timestamp::spec_min().minute_index() == 0);
                            assert(pm.minute_index() == spec_margin_key(prev));
                        }
                        let mut changed = *mt > pm;
                        match &entry.ctime {
                            None => {},
                            Some(ct) => {
                                proof {
                                    lemma_order_is_minute_order(pm, *ct);
                                }
                                if *ct > pm {
                                    changed = true;
                                }
                            },
                        }
                        if changed {
                            None
                        } else {
                            Some(prev)
                        }
                    },
                },
            },
        }
    }

    /// Plans one walked entry: reuse the baseline's timestamp, copy to the
    /// returned store destination, or skip with the reason.
    pub fn plan_entry(&self, entry: &WalkedEntry, symlinks_supported: bool) -> (r: EntryAction)
        requires
            self.wf(),
            entry.wf(),
        ensures
            match self.spec_decision(*entry, symlinks_supported) {
                EntryDecision::Reuse(t) => r == EntryAction::Reuse(t),
                EntryDecision::CopyNew => r matches EntryAction::Copy(d) && d@
                    == spec_snapshot_path(self.files.root@, entry.canonical_path@),
                EntryDecision::Refuse => r matches EntryAction::Skip(er) && ((er
                    == crate::files::FilesError::UnknownEntryType) <==> entry.kind
                    == EntryKind::Other),
            },
    {
        match self.is_entry_already_backed_up(entry) {
            Some(t) => EntryAction::Reuse(t),
            None => {
                if matches!(entry.kind, EntryKind::Other) {
                    EntryAction::Skip(crate::files::FilesError::UnknownEntryType)
                } else if matches!(entry.kind, EntryKind::Symlink) && !symlinks_supported {
                    EntryAction::Skip(crate::files::FilesError::SymlinksUnsupported)
                } else {
                    EntryAction::Copy(
                        Files::to_snapshot_path_unchecked(
                            self.files.root.as_str(),
                            entry.canonical_path.as_str(),
                        ),
                    )
                }
            },
        }
    }

    /// Records one walked entry after the surrounding program carried the
    /// planned action out; `copy_ok` reports whether a planned copy
    /// physically succeeded. The index grows by exactly the rows
    /// `spec_event_rows` gives, and the store size by `spec_event_bytes`;
    /// nothing else changes.
    pub fn commit_entry(&mut self, entry: &WalkedEntry, copy_ok: bool, symlinks_supported: bool)
        requires
            old(self).wf(),
            entry.wf(),
            old(self).files.size + entry.len <= u64::MAX,
        ensures
            final(self).wf(),
            final(self).location == old(self).location,
            final(self).timestamp == old(self).timestamp,
            final(self).base_index == old(self).base_index,
            final(self).index.location == old(self).index.location,
            final(self).files.root == old(self).files.root,
            entry_views(final(self).index.entries@) == entry_views(old(self).index.entries@)
                + old(self).spec_event_rows(*entry, copy_ok, symlinks_supported),
            final(self).files.size == old(self).files.size + old(self).spec_event_bytes(
                *entry,
                copy_ok,
                symlinks_supported,
            ),
    {
        let ghost pre = *self;
        match self.is_entry_already_backed_up(entry) {
            Some(t) => {
                let ghost before = self.index.entries@;
                self.index.push(t, entry.canonical_path.clone());
                proof {
                    assert(entry_views(self.index.entries@) =~= entry_views(before) + seq![
                        (t, entry.canonical_path@),
                    ]);
                }
            },
            None => {
                if copy_ok {
                    let r = self.files.copy_entry(
                        entry.kind,
                        entry.canonical_path.as_str(),
                        entry.len,
                        symlinks_supported,
                    );
                    match r {
                        Ok(dest) => {
                            let ghost before = self.index.entries@;
                            let own = self.timestamp;
                            self.index.push(own, entry.canonical_path.clone());
                            proof {
                                assert(entry_views(self.index.entries@) =~= entry_views(before)
                                    + seq![(pre.timestamp, entry.canonical_path@)]);
                            }
                        },
                        Err(e) => {},
                    }
                }
            },
        }
        proof {
            assert(entry_views(self.index.entries@) =~= entry_views(pre.index.entries@)
                + pre.spec_event_rows(*entry, copy_ok, symlinks_supported));
        }
    }

    /// The index rows a whole walk adds: the concatenation, in walk order,
    /// of each processed entry's rows.
    pub open spec fn spec_walk_rows(
        self,
        events: Seq<(WalkedEntry, bool)>,
        symlinks_supported: bool,
    ) -> Seq<(Timestamp, Seq<char>)>
        decreases events.len(),
    {
        if events.len() == 0 {
            Seq::empty()
        } else {
            self.spec_event_rows(events[0].0, events[0].1, symlinks_supported)
                + self.spec_walk_rows(events.drop_first(), symlinks_supported)
        }
    }

    /// The bytes a whole walk copies into the files store.
    pub open spec fn spec_walk_bytes(
        self,
        events: Seq<(WalkedEntry, bool)>,
        symlinks_supported: bool,
    ) -> int
        decreases events.len(),
    {
        if events.len() == 0 {
            0
        } else {
            self.spec_event_bytes(events[0].0, events[0].1, symlinks_supported)
                + self.spec_walk_bytes(events.drop_first(), symlinks_supported)
        }
    }
}

/// Full-snapshot law: with no baseline wired, a walk of entries that are
/// all copyable (no unknown kinds, no symlinks on a platform without them)
/// and whose copies all succeed indexes every entry, one row each in walk
/// order, every row stamped with the snapshot's own timestamp.
pub proof fn lemma_full_snapshot_rows(
    s: Snapshot,
    events: Seq<(WalkedEntry, bool)>,
    symlinks_supported: bool,
)
    requires
        s.base_index is None,
        forall|i: int|
            0 <= i < events.len() ==> (#[trigger] events[i].0).kind != EntryKind::Other && (
            events[i].0.kind != EntryKind::Symlink || symlinks_supported) && events[i].1,
    ensures
        s.spec_walk_rows(events, symlinks_supported).len() == events.len(),
        forall|i: int|
            0 <= i < events.len() ==> s.spec_walk_rows(events, symlinks_supported)[i] == (
            s.timestamp,
            (#[trigger] events[i].0).canonical_path@,
            ),
    decreases events.len(),
{
    if events.len() > 0 {
        lemma_full_snapshot_rows(s, events.drop_first(), symlinks_supported);
        assert(s.spec_event_rows(events[0].0, events[0].1, symlinks_supported) == seq![
            (s.timestamp, events[0].0.canonical_path@),
        ]);
        let rows = s.spec_walk_rows(events, symlinks_supported);
        let rec = s.spec_walk_rows(events.drop_first(), symlinks_supported);
        assert forall|i: int| 0 <= i < events.len() implies rows[i] == (
            s.timestamp,
            events[i].0.canonical_path@,
        ) by {
            if i > 0 {
                assert(events.drop_first()[i - 1] == events[i]);
                assert(rows[i] == rec[i - 1]);
            }
        }
    }
}

/// Incremental no-change law: with a baseline wired, a walk in which every
/// entry is recorded in the baseline and no metadata time is newer than
/// the recorded minute less the margin indexes every entry with the
/// baseline's timestamp — never the new snapshot's — and copies nothing.
pub proof fn lemma_incremental_unchanged_rows(
    s: Snapshot,
    events: Seq<(WalkedEntry, bool)>,
    symlinks_supported: bool,
)
    requires
        s.base_index matches Some(pv) ==> true,
        s.base_index is Some,
        forall|i: int|
            0 <= i < events.len() ==> spec_unchanged_entry(
                s.base_index->0,
                #[trigger] events[i].0,
            ),
    ensures
        s.spec_walk_rows(events, symlinks_supported).len() == events.len(),
        forall|i: int|
            0 <= i < events.len() ==> s.spec_walk_rows(events, symlinks_supported)[i] == (
            spec_preview_find(
                preview_views(s.base_index->0.entries@),
                (#[trigger] events[i].0).canonical_path@,
            )->0,
            events[i].0.canonical_path@,
            ),
        s.spec_walk_bytes(events, symlinks_supported) == 0,
    decreases events.len(),
{
    if events.len() > 0 {
        lemma_incremental_unchanged_rows(s, events.drop_first(), symlinks_supported);
        let pv = s.base_index->0;
        let prev = spec_preview_find(preview_views(pv.entries@), events[0].0.canonical_path@)->0;
        assert(s.spec_reuse(events[0].0) == Some(prev));
        let rows = s.spec_walk_rows(events, symlinks_supported);
        let rec = s.spec_walk_rows(events.drop_first(), symlinks_supported);
        assert forall|i: int| 0 <= i < events.len() implies rows[i] == (
            spec_preview_find(preview_views(pv.entries@), events[i].0.canonical_path@)->0,
            events[i].0.canonical_path@,
        ) by {
            if i > 0 {
                assert(events.drop_first()[i - 1] == events[i]);
                assert(rows[i] == rec[i - 1]);
            }
        }
    }
}

impl Snapshot {
    /// Checks one saved snapshot end to end: the directory must exist, its
    /// name must be a well-formed timestamp, every index line must parse,
    /// and the files store must reconcile with the index entries whose own
    /// timestamp equals the snapshot's name (entries inherited from earlier
    /// snapshots are not re-verified). The first finding is returned.
    ///
    /// The surrounding program supplies what only the disk can tell:
    /// whether the snapshot directory, index file and files directory
    /// exist, the index file's lines, and the store's walked entries.
    pub fn check_integrity(
        location: &str,
        location_exists: bool,
        index_file_exists: bool,
        index_lines: &Vec<String>,
        files_dir_exists: bool,
        walked: &Vec<String>,
    ) -> (r: IntegrityCheckResult)
        ensures
            !location_exists ==> r == Err::<(), IntegrityCheckError>(
                IntegrityCheckError::SnapshotDoesntExist,
            ),
            location_exists && spec_parse(spec_last_component(location@)) is None ==> (r matches Err(
                IntegrityCheckError::SnapshotNameHasInvalidTimestamp(s),
            ) && s@ == spec_last_component(location@)),
            location_exists && spec_parse(spec_last_component(location@)) is Some
                && !index_file_exists ==> r == Err::<(), IntegrityCheckError>(
                IntegrityCheckError::IndexFileDoesntExist,
            ),
            location_exists && spec_parse(spec_last_component(location@)) is Some
                && index_file_exists && (exists|i: int|
                0 <= i < index_lines@.len() && !(spec_parse_line(
                    #[trigger] index_lines@[i]@,
                ) is Ok)) ==> match r {
                Err(IntegrityCheckError::IndexFileContainsInvalidTimestampInLine(n)) => {
                    &&& 1 <= n <= index_lines@.len()
                    &&& !(spec_parse_line(index_lines@[n - 1]@) is Ok)
                    &&& !(spec_parse_line(index_lines@[n - 1]@) == Err::<(Timestamp, Seq<char>),
                        IndexEntryParseError,
                    >(IndexEntryParseError::InvalidPath))
                    &&& forall|i: int|
                        0 <= i < n - 1 ==> spec_parse_line(#[trigger] index_lines@[i]@) is Ok
                },
                Err(IntegrityCheckError::IndexFileContainsInvalidPathInLine(n)) => {
                    &&& 1 <= n <= index_lines@.len()
                    &&& spec_parse_line(index_lines@[n - 1]@) == Err::<(Timestamp, Seq<char>),
                        IndexEntryParseError,
                    >(IndexEntryParseError::InvalidPath)
                    &&& forall|i: int|
                        0 <= i < n - 1 ==> spec_parse_line(#[trigger] index_lines@[i]@) is Ok
                },
                _ => false,
            },
            location_exists && spec_parse(spec_last_component(location@)) is Some
                && index_file_exists && (forall|i: int|
                0 <= i < index_lines@.len() ==> spec_parse_line(
                    #[trigger] index_lines@[i]@,
                ) is Ok) ==> {
                let rows = spec_parse_index(seq_views(index_lines@))->0;
                let own = spec_own_paths(rows, spec_parse(spec_last_component(location@))->0);
                let froot = spec_path_join(location@, "files"@);
                if !files_dir_exists {
                    r == Err::<(), IntegrityCheckError>(IntegrityCheckError::FilesFolderDoesntExist)
                } else {
                    match r {
                        Ok(u) => (forall|j: int|
                            0 <= j < walked@.len() ==> !spec_walk_violation(
                                froot,
                                own,
                                seq_views(walked@),
                                j,
                            )) && (forall|i: int|
                            0 <= i < own.len() ==> spec_matched(
                                spec_snapshot_path(froot, #[trigger] own[i]),
                                seq_views(walked@),
                                walked@.len() as int,
                            )),
                        Err(IntegrityCheckError::EntryExistsButNotIndexed(p)) => exists|j: int|
                            0 <= j < walked@.len() && #[trigger] spec_walk_violation(
                                froot,
                                own,
                                seq_views(walked@),
                                j,
                            ) && (forall|j2: int|
                                0 <= j2 < j ==> !spec_walk_violation(
                                    froot,
                                    own,
                                    seq_views(walked@),
                                    j2,
                                )) && p@ == walked@[j]@,
                        Err(IntegrityCheckError::EntryIndexedButNotExists(p)) => (forall|j: int|
                            0 <= j < walked@.len() ==> !spec_walk_violation(
                                froot,
                                own,
                                seq_views(walked@),
                                j,
                            )) && (exists|i: int|
                            0 <= i < own.len() && !spec_matched(
                                spec_snapshot_path(froot, #[trigger] own[i]),
                                seq_views(walked@),
                                walked@.len() as int,
                            ) && (forall|i2: int|
                                0 <= i2 < i ==> spec_matched(
                                    spec_snapshot_path(froot, #[trigger] own[i2]),
                                    seq_views(walked@),
                                    walked@.len() as int,
                                )) && p@ == own[i]),
                        _ => false,
                    }
                }
            },
    {
        if !location_exists {
            return Err(IntegrityCheckError::SnapshotDoesntExist);
        }
        let name = last_component_of(location);
        let t0 = match Timestamp::parse_from(name.as_str()) {
            None => {
                return Err(IntegrityCheckError::SnapshotNameHasInvalidTimestamp(name));
            },
            Some(t0) => t0,
        };
        match Index::check_integrity(index_file_exists, index_lines) {
            Err(e) => {
                return Err(e);
            },
            Ok(u) => {},
        }
        proof {
            assert(forall|i: int|
                0 <= i < seq_views(index_lines@).len() ==> #[trigger] seq_views(index_lines@)[i]
                    == index_lines@[i]@);
            lemma_parse_index_all_ok(seq_views(index_lines@));
        }
        let index_location = path_join(location, "index.txt");
        let ix = match Index::open(index_location, index_lines) {
            Ok(ix) => ix,
            Err(e) => {
                proof {
                    assert(false);
                }
                return Err(IntegrityCheckError::UnexpectedError(e));
            },
        };
        let mut own: Vec<String> = Vec::new();
        let n = ix.entries.len();
        let mut i: usize = 0;
        proof {
            assert(entry_views(ix.entries@).take(0) =~= Seq::<(Timestamp, Seq<char>)>::empty());
        }
        while i < n
            invariant
                i <= n,
                n == ix.entries@.len(),
                n == entry_views(ix.entries@).len(),
                forall|t: int|
                    0 <= t < n ==> #[trigger] entry_views(ix.entries@)[t] == (
                    ix.entries@[t].timestamp,
                    ix.entries@[t].path@,
                ),
                seq_views(own@) == spec_own_paths(entry_views(ix.entries@).take(i as int), t0),
            decreases n - i,
        {
            proof {
                lemma_own_paths_take_step(entry_views(ix.entries@), t0, i as int);
            }
            let e = &ix.entries[i];
            if e.timestamp == t0 {
                own.push(e.path.clone());
                proof {
                    assert(seq_views(own@) =~= spec_own_paths(
                        entry_views(ix.entries@).take(i as int + 1),
                        t0,
                    ));
                }
            } else {
                proof {
                    assert(seq_views(own@) =~= spec_own_paths(
                        entry_views(ix.entries@).take(i as int + 1),
                        t0,
                    ));
                }
            }
            i = i + 1;
        }
        proof {
            assert(entry_views(ix.entries@).take(n as int) =~= entry_views(ix.entries@));
        }
        let files_root = path_join(location, "files");
        let r = Files::check_integrity(files_root.as_str(), &own, walked, files_dir_exists);
        proof {
            let rows = spec_parse_index(seq_views(index_lines@))->0;
            let tn = spec_parse(spec_last_component(location@))->0;
            assert(t0 == tn);
            assert(rows == entry_views(ix.entries@));
            let own_s = spec_own_paths(rows, tn);
            let froot = spec_path_join(location@, "files"@);
            let wk = seq_views(walked@);
            let m = walked@.len() as int;
            assert(own_s == seq_views(own@));
            assert(froot == files_root@);
            assert forall|i: int| 0 <= i < own_s.len() implies #[trigger] own_s[i] == own@[i]@ by {
                assert(seq_views(own@)[i] == own@[i]@);
            }
            if files_dir_exists {
                match &r {
                    Ok(u) => {
                        assert forall|j: int| 0 <= j < walked@.len() implies !spec_walk_violation(
                            froot,
                            own_s,
                            wk,
                            j,
                        ) by {
                            assert(!spec_walk_violation(files_root@, seq_views(own@), wk, j));
                        }
                        assert forall|i: int| 0 <= i < own_s.len() implies spec_matched(
                            spec_snapshot_path(froot, #[trigger] own_s[i]),
                            wk,
                            m,
                        ) by {
                            assert(spec_matched(spec_snapshot_path(files_root@, own@[i]@), wk, m));
                        }
                    },
                    Err(IntegrityCheckError::EntryExistsButNotIndexed(p)) => {
                        let j = choose|j: int|
                            0 <= j < walked@.len() && spec_walk_violation(
                                files_root@,
                                seq_views(own@),
                                wk,
                                j,
                            ) && (forall|j2: int|
                                0 <= j2 < j ==> !spec_walk_violation(
                                    files_root@,
                                    seq_views(own@),
                                    wk,
                                    j2,
                                )) && p@ == walked@[j]@;
                        assert(spec_walk_violation(froot, own_s, wk, j));
                        assert forall|j2: int| 0 <= j2 < j implies !spec_walk_violation(
                            froot,
                            own_s,
                            wk,
                            j2,
                        ) by {
                            assert(!spec_walk_violation(files_root@, seq_views(own@), wk, j2));
                        }
                    },
                    Err(IntegrityCheckError::EntryIndexedButNotExists(p)) => {
                        assert forall|j: int| 0 <= j < walked@.len() implies !spec_walk_violation(
                            froot,
                            own_s,
                            wk,
                            j,
                        ) by {
                            assert(!spec_walk_violation(files_root@, seq_views(own@), wk, j));
                        }
                        let i = choose|i: int|
                            0 <= i < own@.len() && !spec_matched(
                                spec_snapshot_path(files_root@, own@[i]@),
                                wk,
                                m,
                            ) && (forall|i2: int|
                                0 <= i2 < i ==> spec_matched(
                                    spec_snapshot_path(files_root@, own@[i2]@),
                                    wk,
                                    m,
                                )) && p@ == own@[i]@;
                        assert(!spec_matched(spec_snapshot_path(froot, own_s[i]), wk, m));
                        assert forall|i2: int| 0 <= i2 < i implies spec_matched(
                            spec_snapshot_path(froot, #[trigger] own_s[i2]),
                            wk,
                            m,
                        ) by {
                            assert(spec_matched(spec_snapshot_path(files_root@, own@[i2]@), wk, m));
                        }
                        assert(p@ == own_s[i]);
                    },
                    _ => {},
                }
            }
        }
        r
    }
}

proof fn lemma_own_paths_all(rows: Seq<(Timestamp, Seq<char>)>, t0: Timestamp)
    requires
        forall|i: int| 0 <= i < rows.len() ==> (#[trigger] rows[i]).0 == t0,
    ensures
        spec_own_paths(rows, t0).len() == rows.len(),
        forall|i: int|
            0 <= i < rows.len() ==> #[trigger] spec_own_paths(rows, t0)[i] == rows[i].1,
    decreases rows.len(),
{
    if rows.len() > 0 {
        assert(forall|i: int|
            0 <= i < rows.len() - 1 ==> #[trigger] rows.drop_first()[i] == rows[i + 1]);
        lemma_own_paths_all(rows.drop_first(), t0);
    }
}

/// A just-created, fully saved snapshot passes its integrity check: when
/// every index row carries the snapshot's own timestamp and a clean
/// absolute path, the saved index text splits and parses back to exactly
/// those rows, and when the walked store holds exactly the rows' store
/// paths, no walked entry is unindexed and no indexed path is missing.
pub proof fn lemma_fresh_snapshot_reports_success(
    location: Seq<char>,
    rows: Seq<(Timestamp, Seq<char>)>,
    walked: Seq<Seq<char>>,
)
    requires
        spec_parse(spec_last_component(location)) is Some,
        forall|i: int|
            0 <= i < rows.len() ==> crate::index::spec_clean_row(#[trigger] rows[i]) && rows[i].0
                == spec_parse(spec_last_component(location))->0,
        forall|j: int|
            #![trigger walked[j]]
            0 <= j < walked.len() ==> exists|i: int|
                0 <= i < rows.len() && #[trigger] spec_snapshot_path(
                    spec_path_join(location, "files"@),
                    rows[i].1,
                ) == walked[j],
        forall|i: int|
            #![trigger rows[i]]
            0 <= i < rows.len() ==> exists|j: int|
                0 <= j < walked.len() && #[trigger] walked[j] == spec_snapshot_path(
                    spec_path_join(location, "files"@),
                    rows[i].1,
                ),
    ensures
        crate::text::spec_lines(crate::index::spec_render(rows)).len() == rows.len(),
        forall|i: int|
            0 <= i < rows.len() ==> spec_parse_line(
                #[trigger] crate::text::spec_lines(crate::index::spec_render(rows))[i],
            ) is Ok,
        spec_parse_index(crate::text::spec_lines(crate::index::spec_render(rows))) == Some(rows),
        forall|j: int|
            0 <= j < walked.len() ==> !spec_walk_violation(
                spec_path_join(location, "files"@),
                spec_own_paths(rows, spec_parse(spec_last_component(location))->0),
                walked,
                j,
            ),
        forall|i: int|
            0 <= i < spec_own_paths(rows, spec_parse(spec_last_component(location))->0).len()
                ==> spec_matched(
                spec_snapshot_path(
                    spec_path_join(location, "files"@),
                    #[trigger] spec_own_paths(
                        rows,
                        spec_parse(spec_last_component(location))->0,
                    )[i],
                ),
                walked,
                walked.len() as int,
            ),
{
    let t0 = spec_parse(spec_last_component(location))->0;
    let froot = spec_path_join(location, "files"@);
    let own = spec_own_paths(rows, t0);
    crate::index::lemma_index_round_trip(rows);
    let lines = crate::text::spec_lines(crate::index::spec_render(rows));
    assert forall|i: int| 0 <= i < rows.len() implies spec_parse_line(
        #[trigger] lines[i],
    ) is Ok by {
        crate::index::lemma_entry_line_round_trip(rows[i].0, rows[i].1);
    }
    lemma_own_paths_all(rows, t0);
    assert forall|j: int| 0 <= j < walked.len() implies !spec_walk_violation(
        froot,
        own,
        walked,
        j,
    ) by {
        let i = choose|i: int|
            0 <= i < rows.len() && spec_snapshot_path(spec_path_join(location, "files"@), rows[i].1)
                == walked[j];
        assert(spec_snapshot_path(froot, own[i]) == walked[j]);
    }
    assert forall|i: int| 0 <= i < own.len() implies spec_matched(
        spec_snapshot_path(froot, #[trigger] own[i]),
        walked,
        walked.len() as int,
    ) by {
        let j = choose|j: int|
            0 <= j < walked.len() && walked[j] == spec_snapshot_path(froot, rows[i].1);
        assert(walked[j] == spec_snapshot_path(froot, own[i]));
    }
}

/// An entry the baseline already owns: its path is recorded there, its
/// modification time is known, and no available metadata time is newer
/// than the recorded minute less the one-minute margin.
pub open spec fn spec_unchanged_entry(pv: IndexPreview, e: WalkedEntry) -> bool {
    &&& spec_preview_find(preview_views(pv.entries@), e.canonical_path@) is Some
    &&& e.mtime is Some
    &&& e.mtime->0.minute_index() <= spec_margin_key(
        spec_preview_find(preview_views(pv.entries@), e.canonical_path@)->0,
    )
    &&& (e.ctime matches Some(ct) ==> ct.minute_index() <= spec_margin_key(
        spec_preview_find(preview_views(pv.entries@), e.canonical_path@)->0,
    ))
}

/// Incremental one-change law: when exactly one walked entry's
/// modification time is newer than its recorded minute less the margin,
/// only that entry is copied — its row carries the new snapshot's
/// timestamp and its bytes are the only bytes copied — while every other
/// row keeps the baseline's timestamp.
pub proof fn lemma_incremental_one_changed(
    s: Snapshot,
    events: Seq<(WalkedEntry, bool)>,
    c: int,
    symlinks_supported: bool,
)
    requires
        s.base_index is Some,
        0 <= c < events.len(),
        forall|i: int|
            0 <= i < events.len() && i != c ==> spec_unchanged_entry(
                s.base_index->0,
                #[trigger] events[i].0,
            ),
        !(s.spec_reuse(events[c].0) is Some),
        events[c].0.kind != EntryKind::Other,
        events[c].0.kind != EntryKind::Symlink || symlinks_supported,
        events[c].1,
    ensures
        s.spec_walk_rows(events, symlinks_supported).len() == events.len(),
        forall|i: int|
            0 <= i < events.len() && i != c ==> s.spec_walk_rows(events, symlinks_supported)[i]
                == (
            spec_preview_find(
                preview_views(s.base_index->0.entries@),
                (#[trigger] events[i].0).canonical_path@,
            )->0,
            events[i].0.canonical_path@,
            ),
        s.spec_walk_rows(events, symlinks_supported)[c] == (
            s.timestamp,
            events[c].0.canonical_path@,
        ),
        s.spec_walk_bytes(events, symlinks_supported) == events[c].0.len,
    decreases events.len(),
{
    let pv = s.base_index->0;
    let rows = s.spec_walk_rows(events, symlinks_supported);
    let rec = s.spec_walk_rows(events.drop_first(), symlinks_supported);
    if c == 0 {
        lemma_incremental_unchanged_rows(s, events.drop_first(), symlinks_supported);
        assert(s.spec_decision(events[0].0, symlinks_supported) is CopyNew);
    } else {
        lemma_incremental_one_changed(s, events.drop_first(), c - 1, symlinks_supported);
        assert(spec_unchanged_entry(pv, events[0].0));
        let prev = spec_preview_find(preview_views(pv.entries@), events[0].0.canonical_path@)->0;
        assert(s.spec_reuse(events[0].0) == Some(prev));
        assert(events.drop_first()[c - 1] == events[c]);
        assert(rows[c] == rec[c - 1]);
    }
    assert forall|i: int| 0 <= i < events.len() && i != c implies rows[i] == (
        spec_preview_find(preview_views(pv.entries@), events[i].0.canonical_path@)->0,
        events[i].0.canonical_path@,
    ) by {
        if i > 0 {
            assert(events.drop_first()[i - 1] == events[i]);
            assert(rows[i] == rec[i - 1]);
        }
    }
}

} // verus!
