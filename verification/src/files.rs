//! The files store: the per-snapshot copy area.
//!
//! Every stored node's location is a deterministic, reversible function of
//! its original absolute path: the volume or root designator collapses to at
//! most one leading segment, and the remaining segments are joined verbatim
//! beneath the store root. The mapping is pure string algebra, so POSIX-style
//! and Windows-style inputs behave identically on any host.

use vstd::prelude::*;
use vstd::string::StrSliceExecFns;
use vstd::string::StringExecFns;

use crate::paths::is_ascii_alpha;
use crate::paths::ascii_alpha;
use crate::paths::join_with;
use crate::paths::path_join;
use crate::paths::segments_of;
use crate::paths::seq_views;
use crate::paths::spec_join_with;
use crate::paths::spec_path_join;
use crate::paths::spec_segments;
use crate::paths::path_starts_with;
use crate::paths::spec_path_prefix;
use crate::result::IntegrityCheckError;
use crate::result::IntegrityCheckResult;
use crate::text::has_prefix;
use crate::text::spec_has_prefix;
use crate::text::str_eq;

verus! {

/// The `\\?\UNC\` form.
pub open spec fn verbatim_unc_prefix() -> Seq<char> {
    seq!['\\', '\\', '?', '\\', 'U', 'N', 'C', '\\']
}

/// The `\\?\` form.
pub open spec fn verbatim_prefix() -> Seq<char> {
    seq!['\\', '\\', '?', '\\']
}

/// The `\\.\` form.
pub open spec fn device_prefix() -> Seq<char> {
    seq!['\\', '\\', '.', '\\']
}

/// The `\\server\share` form.
pub open spec fn unc_prefix() -> Seq<char> {
    seq!['\\', '\\']
}

/// The store-relative form of a source path: its volume or root designator
/// collapsed to at most one leading segment (a drive letter, or the
/// verbatim, UNC or device name), followed by the path's own segments.
/// Windows-style results join with backslashes, POSIX-style with slashes;
/// verbatim forms treat only backslashes as separators.
pub open spec fn spec_store_rel(s: Seq<char>) -> Seq<char> {
    if spec_has_prefix(s, verbatim_unc_prefix()) {
        spec_join_with(spec_segments(s.skip(8), false, true), '\\')
    } else if spec_has_prefix(s, verbatim_prefix()) {
        if s.len() >= 6 && is_ascii_alpha(s[4]) && s[5] == ':' {
            spec_join_with(seq![seq![s[4]]] + spec_segments(s.skip(6), false, true), '\\')
        } else {
            spec_join_with(spec_segments(s.skip(4), false, true), '\\')
        }
    } else if spec_has_prefix(s, device_prefix()) {
        spec_join_with(spec_segments(s.skip(4), true, true), '\\')
    } else if spec_has_prefix(s, unc_prefix()) {
        spec_join_with(spec_segments(s.skip(2), true, true), '\\')
    } else if s.len() >= 2 && is_ascii_alpha(s[0]) && s[1] == ':' {
        spec_join_with(seq![seq![s[0]]] + spec_segments(s.skip(2), true, true), '\\')
    } else {
        spec_join_with(spec_segments(s, true, false), '/')
    }
}

/// Where a source path's copy lives: the store-relative form of the path,
/// joined under the store root.
pub open spec fn spec_snapshot_path(root: Seq<char>, entry: Seq<char>) -> Seq<char> {
    spec_path_join(root, spec_store_rel(entry))
}

/// The kind of a filesystem node, read from its metadata without following
/// symbolic links.
#[derive(Clone, Copy, Debug, PartialEq, Eq, Structural)]
pub enum EntryKind {
    Directory,
    File,
    Symlink,
    Other,
}

/// Why an entry cannot be copied into the store.
#[derive(Clone, Copy, Debug, PartialEq, Eq, Structural)]
pub enum FilesError {
    SymlinksUnsupported,
    UnknownEntryType,
}

/// The sum of a sequence of sizes.
pub open spec fn spec_sum(s: Seq<u64>) -> int
    decreases s.len(),
{
    if s.len() == 0 {
        0
    } else {
        s[0] + spec_sum(s.drop_first())
    }
}

proof fn lemma_sum_take_step(s: Seq<u64>, i: int)
    requires
        0 <= i < s.len(),
    ensures
        spec_sum(s.take(i + 1)) == spec_sum(s.take(i)) + s[i],
    decreases i,
{
    if i == 0 {
        assert(s.take(1).drop_first() =~= Seq::<u64>::empty());
        assert(s.take(0) =~= Seq::<u64>::empty());
    } else {
        lemma_sum_take_step(s.drop_first(), i - 1);
        assert(s.take(i + 1).drop_first() =~= s.drop_first().take(i));
        assert(s.take(i).drop_first() =~= s.drop_first().take(i - 1));
    }
}

proof fn lemma_sum_bounds(s: Seq<u64>, i: int)
    requires
        0 <= i <= s.len(),
    ensures
        0 <= spec_sum(s.take(i)) <= spec_sum(s),
    decreases s.len() - i,
{
    if i == s.len() {
        assert(s.take(i) =~= s);
        lemma_sum_nonneg(s);
    } else {
        lemma_sum_take_step(s, i);
        lemma_sum_bounds(s, i + 1);
        lemma_sum_nonneg(s.take(i));
    }
}

proof fn lemma_sum_nonneg(s: Seq<u64>)
    ensures
        spec_sum(s) >= 0,
    decreases s.len(),
{
    if s.len() > 0 {
        lemma_sum_nonneg(s.drop_first());
    }
}

/// Whether `store` equals one of the first `n` walked entries.
pub open spec fn spec_matched(store: Seq<char>, walked: Seq<Seq<char>>, n: int) -> bool {
    exists|k: int| 0 <= k < n && walked[k] == store
}

/// Whether walked entry `j` violates the store: its path is not the store
/// path of any indexed file, and it is not an ancestor of the store path of
/// an indexed file still unmatched after the first `j + 1` walked entries.
pub open spec fn spec_walk_violation(
    loc: Seq<char>,
    idx: Seq<Seq<char>>,
    walked: Seq<Seq<char>>,
    j: int,
) -> bool {
    &&& !(exists|i: int|
        0 <= i < idx.len() && spec_snapshot_path(loc, idx[i]) == walked[j])
    &&& !(exists|i: int|
        0 <= i < idx.len() && !spec_matched(spec_snapshot_path(loc, idx[i]), walked, j + 1)
            && spec_path_prefix(walked[j], spec_snapshot_path(loc, idx[i])))
}

proof fn lemma_matched_step(store: Seq<char>, walked: Seq<Seq<char>>, j: int)
    requires
        0 <= j < walked.len(),
    ensures
        spec_matched(store, walked, j + 1) == (spec_matched(store, walked, j) || walked[j]
            == store),
{
    if spec_matched(store, walked, j + 1) {
        let k = choose|k: int| 0 <= k < j + 1 && walked[k] == store;
        if k < j {
            assert(spec_matched(store, walked, j));
        }
    }
    if spec_matched(store, walked, j) {
        let k = choose|k: int| 0 <= k < j && walked[k] == store;
        assert(0 <= k < j + 1 && walked[k] == store);
    }
    if walked[j] == store {
        assert(0 <= j < j + 1 && walked[j] == store);
    }
}

/// A snapshot's copy area: its root directory and the bytes accounted to it.
pub struct Files {
    pub root: String,
    pub size: u64,
}

impl Files {
    /// A fresh, empty store rooted at `location`. The surrounding program
    /// creates the directory itself before copying into it.
    pub fn new(location: String) -> (r: Files)
        ensures
            r.root == location,
            r.size == 0,
    {
        Files { root: location, size: 0 }
    }

    /// Reopens a store from the sizes of the entries found under its root;
    /// `exists` reports whether the root directory is there at all.
    pub fn open(location: String, exists: bool, entry_sizes: &Vec<u64>) -> (r: Result<
        Files,
        String,
    >)
        requires
            spec_sum(entry_sizes@) <= u64::MAX,
        ensures
            match r {
                Ok(f) => exists && f.root == location && f.size == spec_sum(entry_sizes@),
                Err(e) => !exists && e@
                    == "Folder with files doesn't exist or isn't accessible"@,
            },
    {
        if !exists {
            return Err(String::from_str("Folder with files doesn't exist or isn't accessible"));
        }
        let n = entry_sizes.len();
        let mut total: u64 = 0;
        let mut i: usize = 0;
        proof {
            assert(entry_sizes@.take(0) =~= Seq::<u64>::empty());
        }
        while i < n
            invariant
                i <= n,
                n == entry_sizes@.len(),
                spec_sum(entry_sizes@) <= u64::MAX,
                total == spec_sum(entry_sizes@.take(i as int)),
            decreases n - i,
        {
            proof {
                lemma_sum_take_step(entry_sizes@, i as int);
                lemma_sum_bounds(entry_sizes@, i as int + 1);
            }
            total = total + entry_sizes[i];
            i = i + 1;
        }
        proof {
            assert(entry_sizes@.take(n as int) =~= entry_sizes@);
        }
        Ok(Files { root: location, size: total })
    }

    /// The bytes accounted to this store.
    pub fn size(&self) -> (r: u64)
        ensures
            r == self.size,
    {
        self.size
    }

    /// Maps an absolute source path beneath `root`, with no check that the
    /// path exists anywhere.
    pub fn to_snapshot_path_unchecked(root: &str, entry: &str) -> (r: String)
        ensures
            r@ == spec_snapshot_path(root@, entry@),
    {
        let rel = Files::join_components_to_relative_path(entry);
        path_join(root, rel.as_str())
    }

    /// The store-relative form of a source path, as `spec_store_rel`
    /// describes it.
    pub fn join_components_to_relative_path(entry: &str) -> (r: String)
        ensures
            r@ == spec_store_rel(entry@),
    {
        proof {
            reveal_strlit("\\\\?\\UNC\\");
            reveal_strlit("\\\\?\\");
            reveal_strlit("\\\\.\\");
            reveal_strlit("\\\\");
            reveal_strlit("\\");
            reveal_strlit("/");
            assert("\\\\?\\UNC\\"@ =~= verbatim_unc_prefix());
            assert("\\\\?\\"@ =~= verbatim_prefix());
            assert("\\\\.\\"@ =~= device_prefix());
            assert("\\\\"@ =~= unc_prefix());
        }
        let len = entry.unicode_len();
        if has_prefix(entry, "\\\\?\\UNC\\") {
            let rest = entry.substring_char(8, len);
            proof {
                assert(entry@.subrange(8, len as int) =~= entry@.skip(8));
            }
            let parts = segments_of(rest, false, true);
            proof {
                assert(seq_views(parts@) =~= spec_segments(entry@.skip(8), false, true));
            }
            join_with(&parts, "\\")
        } else if has_prefix(entry, "\\\\?\\") {
            let is_drive = len >= 6 && ascii_alpha(entry.get_char(4)) && entry.get_char(5) == ':';
            if is_drive {
                let rest = entry.substring_char(6, len);
                proof {
                    assert(entry@.subrange(6, len as int) =~= entry@.skip(6));
                }
                let mut parts = segments_of(rest, false, true);
                let letter = String::from_str(entry.substring_char(4, 5));
                proof {
                    assert(letter@ =~= seq![entry@[4]]);
                }
                parts.insert(0, letter);
                proof {
                    assert(seq_views(parts@) =~= seq![seq![entry@[4]]] + spec_segments(
                        entry@.skip(6),
                        false,
                        true,
                    ));
                }
                join_with(&parts, "\\")
            } else {
                let rest = entry.substring_char(4, len);
                proof {
                    assert(entry@.subrange(4, len as int) =~= entry@.skip(4));
                }
                let parts = segments_of(rest, false, true);
                proof {
                    assert(seq_views(parts@) =~= spec_segments(entry@.skip(4), false, true));
                }
                join_with(&parts, "\\")
            }
        } else if has_prefix(entry, "\\\\.\\") {
            let rest = entry.substring_char(4, len);
            proof {
                assert(entry@.subrange(4, len as int) =~= entry@.skip(4));
            }
            let parts = segments_of(rest, true, true);
            proof {
                assert(seq_views(parts@) =~= spec_segments(entry@.skip(4), true, true));
            }
            join_with(&parts, "\\")
        } else if has_prefix(entry, "\\\\") {
            let rest = entry.substring_char(2, len);
            proof {
                assert(entry@.subrange(2, len as int) =~= entry@.skip(2));
            }
            let parts = segments_of(rest, true, true);
            proof {
                assert(seq_views(parts@) =~= spec_segments(entry@.skip(2), true, true));
            }
            join_with(&parts, "\\")
        } else if len >= 2 && ascii_alpha(entry.get_char(0)) && entry.get_char(1) == ':' {
            let rest = entry.substring_char(2, len);
            proof {
                assert(entry@.subrange(2, len as int) =~= entry@.skip(2));
            }
            let mut parts = segments_of(rest, true, true);
            let letter = String::from_str(entry.substring_char(0, 1));
            proof {
                assert(letter@ =~= seq![entry@[0]]);
            }
            parts.insert(0, letter);
            proof {
                assert(seq_views(parts@) =~= seq![seq![entry@[0]]] + spec_segments(
                    entry@.skip(2),
                    true,
                    true,
                ));
            }
            join_with(&parts, "\\")
        } else {
            let parts = segments_of(entry, true, false);
            proof {
                assert(seq_views(parts@) =~= spec_segments(entry@, true, false));
            }
            join_with(&parts, "/")
        }
    }

    /// Reconciles the physical store against the indexed paths. `walked`
    /// holds every physical entry found under `location`, in walk order;
    /// `indexed` the absolute source paths the index expects. The first
    /// walked entry that is neither an indexed file's store path nor a
    /// necessary ancestor of a still-unmatched one is reported as present
    /// but not indexed; otherwise the first indexed path whose store path
    /// no walked entry matched is reported as indexed but not present.
    #[verifier::loop_isolation(false)]
    pub fn check_integrity(
        location: &str,
        indexed: &Vec<String>,
        walked: &Vec<String>,
        location_exists: bool,
    ) -> (r: IntegrityCheckResult)
        ensures
            !location_exists ==> r == Err::<(), IntegrityCheckError>(
                IntegrityCheckError::FilesFolderDoesntExist,
            ),
            location_exists ==> match r {
                Ok(u) => (forall|j: int|
                    0 <= j < walked@.len() ==> !spec_walk_violation(
                        location@,
                        seq_views(indexed@),
                        seq_views(walked@),
                        j,
                    )) && (forall|i: int|
                    0 <= i < indexed@.len() ==> spec_matched(
                        spec_snapshot_path(location@, indexed@[i]@),
                        seq_views(walked@),
                        walked@.len() as int,
                    )),
                Err(IntegrityCheckError::EntryExistsButNotIndexed(p)) => exists|j: int|
                    0 <= j < walked@.len() && spec_walk_violation(
                        location@,
                        seq_views(indexed@),
                        seq_views(walked@),
                        j,
                    ) && (forall|j2: int|
                        0 <= j2 < j ==> !spec_walk_violation(
                            location@,
                            seq_views(indexed@),
                            seq_views(walked@),
                            j2,
                        )) && p@ == walked@[j]@,
                Err(IntegrityCheckError::EntryIndexedButNotExists(p)) => (forall|j: int|
                    0 <= j < walked@.len() ==> !spec_walk_violation(
                        location@,
                        seq_views(indexed@),
                        seq_views(walked@),
                        j,
                    )) && (exists|i: int|
                    0 <= i < indexed@.len() && !spec_matched(
                        spec_snapshot_path(location@, indexed@[i]@),
                        seq_views(walked@),
                        walked@.len() as int,
                    ) && (forall|i2: int|
                        0 <= i2 < i ==> spec_matched(
                            spec_snapshot_path(location@, indexed@[i2]@),
                            seq_views(walked@),
                            walked@.len() as int,
                        )) && p@ == indexed@[i]@),
                _ => false,
            },
    {
        let ghost loc = location@;
        let ghost idx = seq_views(indexed@);
        let ghost wk = seq_views(walked@);
        proof {
            assert(idx.len() == indexed@.len());
            assert(wk.len() == walked@.len());
            assert(forall|t: int| 0 <= t < idx.len() ==> idx[t] == indexed@[t]@);
            assert(forall|k: int| 0 <= k < wk.len() ==> wk[k] == walked@[k]@);
        }
        if !location_exists {
            return Err(IntegrityCheckError::FilesFolderDoesntExist);
        }
        let n = indexed.len();
        let mut stores: Vec<String> = Vec::new();
        let mut matched: Vec<bool> = Vec::new();
        let mut i: usize = 0;
        while i < n
            invariant
                i <= n,
                n == indexed@.len(),
                loc == location@,
                idx == seq_views(indexed@),
                stores@.len() == i,
                matched@.len() == i,
                forall|t: int| 0 <= t < i ==> stores@[t]@ == spec_snapshot_path(loc, idx[t]),
                forall|t: int| 0 <= t < i ==> matched@[t] == false,
            decreases n - i,
        {
            let sp = Files::to_snapshot_path_unchecked(location, indexed[i].as_str());
            stores.push(sp);
            matched.push(false);
            i = i + 1;
        }
        let m = walked.len();
        let mut j: usize = 0;
        while j < m
            invariant
                j <= m,
                m == walked@.len(),
                n == indexed@.len(),
                loc == location@,
                idx == seq_views(indexed@),
                wk == seq_views(walked@),
                stores@.len() == n,
                matched@.len() == n,
                forall|t: int| 0 <= t < n ==> stores@[t]@ == spec_snapshot_path(loc, idx[t]),
                forall|t: int|
                    0 <= t < n ==> matched@[t] == spec_matched(stores@[t]@, wk, j as int),
                forall|j2: int| 0 <= j2 < j ==> !spec_walk_violation(loc, idx, wk, j2),
            decreases m - j,
        {
            let w = &walked[j];
            let mut found = false;
            let mut t: usize = 0;
            while t < n
                invariant
                    t <= n,
                    j < m,
                    m == walked@.len(),
                    n == indexed@.len(),
                    wk == seq_views(walked@),
                    w == walked@[j as int],
                    stores@.len() == n,
                    matched@.len() == n,
                    forall|t2: int| 0 <= t2 < n ==> stores@[t2]@ == spec_snapshot_path(loc, idx[t2]),
                    forall|t2: int|
                        t <= t2 < n ==> matched@[t2] == spec_matched(stores@[t2]@, wk, j as int),
                    forall|t2: int|
                        0 <= t2 < t ==> matched@[t2] == (spec_matched(stores@[t2]@, wk, j as int)
                            || stores@[t2]@ == wk[j as int]),
                    found == exists|t2: int| 0 <= t2 < t && stores@[t2]@ == wk[j as int],
                decreases n - t,
            {
                if str_eq(stores[t].as_str(), w.as_str()) {
                    matched[t] = true;
                    found = true;
                }
                t = t + 1;
            }
            proof {
                assert forall|t2: int| 0 <= t2 < n implies matched@[t2] == spec_matched(
                    stores@[t2]@,
                    wk,
                    j as int + 1,
                ) by {
                    lemma_matched_step(stores@[t2]@, wk, j as int);
                }
            }
            if !found {
                let mut tolerated = false;
                let mut t2: usize = 0;
                while t2 < n
                    invariant
                        t2 <= n,
                        j < m,
                        m == walked@.len(),
                        n == indexed@.len(),
                        wk == seq_views(walked@),
                        w == walked@[j as int],
                        stores@.len() == n,
                        matched@.len() == n,
                        forall|t3: int|
                            0 <= t3 < n ==> stores@[t3]@ == spec_snapshot_path(loc, idx[t3]),
                        forall|t3: int|
                            0 <= t3 < n ==> matched@[t3] == spec_matched(
                                stores@[t3]@,
                                wk,
                                j as int + 1,
                            ),
                        tolerated == exists|t3: int|
                            0 <= t3 < t2 && !spec_matched(stores@[t3]@, wk, j as int + 1)
                                && spec_path_prefix(wk[j as int], stores@[t3]@),
                    decreases n - t2,
                {
                    if !matched[t2] && path_starts_with(stores[t2].as_str(), w.as_str()) {
                        tolerated = true;
                    }
                    t2 = t2 + 1;
                }
                if !tolerated {
                    assert(spec_walk_violation(loc, idx, wk, j as int));
                    return Err(
                        IntegrityCheckError::EntryExistsButNotIndexed(String::from_str(w.as_str())),
                    );
                }
                proof {
                    let t3 = choose|t3: int|
                        0 <= t3 < n && !spec_matched(stores@[t3]@, wk, j as int + 1)
                            && spec_path_prefix(wk[j as int], stores@[t3]@);
                    assert(stores@[t3]@ == spec_snapshot_path(loc, idx[t3]));
                    assert(!spec_walk_violation(loc, idx, wk, j as int));
                }
            } else {
                proof {
                    let t0 = choose|t0: int| 0 <= t0 < n && stores@[t0]@ == wk[j as int];
                    assert(spec_snapshot_path(loc, idx[t0]) == wk[j as int]);
                    assert(!spec_walk_violation(loc, idx, wk, j as int));
                }
            }
            j = j + 1;
        }
        let mut i2: usize = 0;
        while i2 < n
            invariant
                i2 <= n,
                n == indexed@.len(),
                m == walked@.len(),
                loc == location@,
                idx == seq_views(indexed@),
                wk == seq_views(walked@),
                stores@.len() == n,
                matched@.len() == n,
                forall|t: int| 0 <= t < n ==> stores@[t]@ == spec_snapshot_path(loc, idx[t]),
                forall|t: int| 0 <= t < n ==> matched@[t] == spec_matched(stores@[t]@, wk, m as int),
                forall|j2: int| 0 <= j2 < m ==> !spec_walk_violation(loc, idx, wk, j2),
                forall|t: int| 0 <= t < i2 ==> spec_matched(stores@[t]@, wk, m as int),
            decreases n - i2,
        {
            if !matched[i2] {
                proof {
                    assert forall|t: int| 0 <= t < i2 implies spec_matched(
                        spec_snapshot_path(location@, indexed@[t]@),
                        seq_views(walked@),
                        walked@.len() as int,
                    ) by {
                        assert(idx[t] == indexed@[t]@);
                        assert(stores@[t]@ == spec_snapshot_path(loc, idx[t]));
                        assert(spec_matched(stores@[t]@, wk, m as int));
                    }
                    assert(idx[i2 as int] == indexed@[i2 as int]@);
                    assert(stores@[i2 as int]@ == spec_snapshot_path(loc, idx[i2 as int]));
                    assert(!spec_matched(
                        spec_snapshot_path(location@, indexed@[i2 as int]@),
                        seq_views(walked@),
                        walked@.len() as int,
                    ));
                }
                return Err(IntegrityCheckError::EntryIndexedButNotExists(indexed[i2].clone()));
            }
            i2 = i2 + 1;
        }
        proof {
            assert forall|t: int| 0 <= t < indexed@.len() implies spec_matched(
                spec_snapshot_path(location@, indexed@[t]@),
                seq_views(walked@),
                walked@.len() as int,
            ) by {
                assert(idx[t] == indexed@[t]@);
                assert(stores@[t]@ == spec_snapshot_path(loc, idx[t]));
                assert(spec_matched(stores@[t]@, wk, m as int));
            }
        }
        Ok(())
    }

    /// Decides how one filesystem node enters the store: directories, files
    /// and (where the platform supports recreating them) symbolic links map
    /// to their store path, and `len` bytes are accounted; any other node
    /// kind is refused. The surrounding program performs the actual copy to
    /// the returned destination.
    pub fn copy_entry(&mut self, kind: EntryKind, entry: &str, len: u64, symlinks_supported: bool)
        -> (r: Result<String, FilesError>)
        requires
            old(self).size + len <= u64::MAX,
        ensures
            final(self).root == old(self).root,
            r is Ok <==> kind != EntryKind::Other && (kind != EntryKind::Symlink
                || symlinks_supported),
            match r {
                Ok(dest) => dest@ == spec_snapshot_path(old(self).root@, entry@)
                    && final(self).size == old(self).size + len,
                Err(e) => final(self).size == old(self).size && (e == FilesError::UnknownEntryType
                    <==> kind == EntryKind::Other),
            },
    {
        match kind {
            EntryKind::Other => Err(FilesError::UnknownEntryType),
            EntryKind::Symlink => {
                if symlinks_supported {
                    self.size = self.size + len;
                    Ok(Files::to_snapshot_path_unchecked(self.root.as_str(), entry))
                } else {
                    Err(FilesError::SymlinksUnsupported)
                }
            },
            _ => {
                self.size = self.size + len;
                Ok(Files::to_snapshot_path_unchecked(self.root.as_str(), entry))
            },
        }
    }
}

} // verus!
