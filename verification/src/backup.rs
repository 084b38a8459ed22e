//! The backup repository: the ordered collection of snapshots under one
//! root, and the validation of caller-supplied input paths.

use vstd::prelude::*;
use vstd::string::StringExecFns;

use crate::paths::last_component_of;
use crate::paths::path_join;
use crate::paths::path_starts_with;
use crate::paths::spec_last_component;
use crate::paths::spec_path_join;
use crate::paths::spec_path_prefix;
use crate::text::str_eq;
use crate::timestamp::spec_parse;
use crate::timestamp::Timestamp;

verus! {

broadcast use vstd::seq_lib::group_to_multiset_ensures;

/// A lightweight handle on a saved snapshot: its timestamp, and where its
/// index file and files directory live.
pub struct SnapshotPreview {
    pub timestamp: Timestamp,
    pub index: String,
    pub files: String,
}

impl Clone for SnapshotPreview {
    fn clone(&self) -> (r: Self)
        ensures
            r == *self,
    {
        SnapshotPreview {
            timestamp: self.timestamp,
            index: self.index.clone(),
            files: self.files.clone(),
        }
    }
}

/// The plain value a preview stands for.
pub open spec fn preview_view(p: SnapshotPreview) -> (Timestamp, Seq<char>, Seq<char>) {
    (p.timestamp, p.index@, p.files@)
}

/// The plain values a sequence of previews stands for.
pub open spec fn preview_seq_views(ps: Seq<SnapshotPreview>) -> Seq<
    (Timestamp, Seq<char>, Seq<char>),
> {
    ps.map_values(|p: SnapshotPreview| preview_view(p))
}

impl SnapshotPreview {
    /// Accepts a directory as a snapshot only when its name parses as a
    /// timestamp and it holds both an index file and a files directory;
    /// `has_index` and `has_files` report what the disk showed.
    pub fn new(location: &str, has_index: bool, has_files: bool) -> (r: Option<SnapshotPreview>)
        ensures
            match spec_parse(spec_last_component(location@)) {
                None => r is None,
                Some(t) => if has_index && has_files {
                    r matches Some(p) && p.timestamp == t && t.valid() && p.index@
                        == spec_path_join(location@, "index.txt"@) && p.files@ == spec_path_join(
                        location@,
                        "files"@,
                    )
                } else {
                    r is None
                },
            },
    {
        let name = last_component_of(location);
        match Timestamp::parse_from(name.as_str()) {
            None => None,
            Some(t) => {
                if has_index && has_files {
                    Some(
                        SnapshotPreview {
                            timestamp: t,
                            index: path_join(location, "index.txt"),
                            files: path_join(location, "files"),
                        },
                    )
                } else {
                    None
                }
            },
        }
    }
}

/// One directory entry found under a backup root, with what the disk
/// showed of it.
pub struct ScanEntry {
    pub name: String,
    pub has_index: bool,
    pub has_files: bool,
}

/// The previews the qualifying scan entries stand for, in scan order.
pub open spec fn spec_scan_views(root: Seq<char>, entries: Seq<ScanEntry>) -> Seq<
    (Timestamp, Seq<char>, Seq<char>),
>
    decreases entries.len(),
{
    if entries.len() == 0 {
        Seq::empty()
    } else {
        let loc = spec_path_join(root, entries[0].name@);
        let head: Seq<(Timestamp, Seq<char>, Seq<char>)> = match spec_parse(
            spec_last_component(loc),
        ) {
            None => Seq::empty(),
            Some(t) => if entries[0].has_index && entries[0].has_files {
                seq![
                    (t, spec_path_join(loc, "index.txt"@), spec_path_join(loc, "files"@)),
                ]
            } else {
                Seq::empty()
            },
        };
        head + spec_scan_views(root, entries.drop_first())
    }
}

proof fn lemma_scan_views_take_step(root: Seq<char>, entries: Seq<ScanEntry>, i: int)
    requires
        0 <= i < entries.len(),
    ensures
        spec_scan_views(root, entries.take(i + 1)) == spec_scan_views(root, entries.take(i)) + ({
            let loc = spec_path_join(root, entries[i].name@);
            match spec_parse(spec_last_component(loc)) {
                None => Seq::<(Timestamp, Seq<char>, Seq<char>)>::empty(),
                Some(t) => if entries[i].has_index && entries[i].has_files {
                    seq![
                        (t, spec_path_join(loc, "index.txt"@), spec_path_join(loc, "files"@)),
                    ]
                } else {
                    Seq::empty()
                },
            }
        }),
    decreases i,
{
    if i == 0 {
        assert(entries.take(1).drop_first() =~= Seq::<ScanEntry>::empty());
        assert(entries.take(0) =~= Seq::<ScanEntry>::empty());
        assert(entries.take(1)[0] == entries[0]);
        assert(spec_scan_views(root, entries.take(1)) =~= spec_scan_views(root, entries.take(0))
            + ({
            let loc = spec_path_join(root, entries[0].name@);
            match spec_parse(spec_last_component(loc)) {
                None => Seq::<(Timestamp, Seq<char>, Seq<char>)>::empty(),
                Some(t) => if entries[0].has_index && entries[0].has_files {
                    seq![
                        (t, spec_path_join(loc, "index.txt"@), spec_path_join(loc, "files"@)),
                    ]
                } else {
                    Seq::empty()
                },
            }
        }));
    } else {
        lemma_scan_views_take_step(root, entries.drop_first(), i - 1);
        assert(entries.take(i + 1).drop_first() =~= entries.drop_first().take(i));
        assert(entries.take(i).drop_first() =~= entries.drop_first().take(i - 1));
        assert(entries.take(i + 1)[0] == entries[0]);
        assert(entries.take(i)[0] == entries[0]);
        assert(entries.drop_first()[i - 1] == entries[i]);
        assert(spec_scan_views(root, entries.take(i + 1)) =~= spec_scan_views(
            root,
            entries.take(i),
        ) + ({
            let loc = spec_path_join(root, entries[i].name@);
            match spec_parse(spec_last_component(loc)) {
                None => Seq::<(Timestamp, Seq<char>, Seq<char>)>::empty(),
                Some(t) => if entries[i].has_index && entries[i].has_files {
                    seq![
                        (t, spec_path_join(loc, "index.txt"@), spec_path_join(loc, "files"@)),
                    ]
                } else {
                    Seq::empty()
                },
            }
        }));
    }
}

/// Ascending timestamp order over previews.
pub open spec fn spec_previews_sorted(ps: Seq<SnapshotPreview>) -> bool {
    forall|i: int, j: int|
        0 <= i < j < ps.len() ==> (#[trigger] ps[i]).timestamp.spec_le((#[trigger] ps[j]).timestamp)
}

/// Inserts a preview before the first strictly greater timestamp, keeping
/// the sequence sorted.
fn insert_sorted(v: &mut Vec<SnapshotPreview>, p: SnapshotPreview)
    requires
        spec_previews_sorted(old(v)@),
    ensures
        spec_previews_sorted(final(v)@),
        preview_seq_views(final(v)@).to_multiset() == preview_seq_views(old(v)@).to_multiset()
            .insert(preview_view(p)),
{
    let n = v.len();
    let mut k: usize = 0;
    while k < n && !(p.timestamp < v[k].timestamp)
        invariant
            k <= n,
            n == v@.len(),
            v@ == old(v)@,
            spec_previews_sorted(v@),
            forall|t: int| 0 <= t < k ==> (#[trigger] v@[t]).timestamp.spec_le(p.timestamp),
        decreases n - k,
    {
        k = k + 1;
    }
    let ghost before = v@;
    v.insert(k, p);
    proof {
        let vw_new = preview_seq_views(v@);
        let vw_old = preview_seq_views(before);
        assert(forall|t: int| 0 <= t < v@.len() ==> #[trigger] vw_new[t] == preview_view(v@[t]));
        assert(forall|t: int|
            0 <= t < before.len() ==> #[trigger] vw_old[t] == preview_view(before[t]));
        assert(vw_new.remove(k as int) =~= vw_old);
        assert(vw_new[k as int] == preview_view(p));
        assert(vw_new.remove(k as int).to_multiset() =~= vw_new.to_multiset().remove(
            vw_new[k as int],
        ));
        assert(vw_new.to_multiset().contains(preview_view(p)));
        assert(vw_new.to_multiset() =~= vw_old.to_multiset().insert(preview_view(p)));
        assert forall|i: int, j: int|
            0 <= i < j < v@.len() implies (#[trigger] v@[i]).timestamp.spec_le(
            (#[trigger] v@[j]).timestamp,
        ) by {
            if i < k && j == k {
                assert(v@[i] == before[i]);
            } else if i == k && j > k {
                assert(v@[j] == before[j - 1]);
                assert(k < before.len());
                assert(p.timestamp.spec_lt(before[k as int].timestamp));
                if j - 1 > k {
                    assert(before[k as int].timestamp.spec_le(before[j - 1].timestamp));
                }
            } else if i < k && j > k {
                assert(v@[i] == before[i]);
                assert(v@[j] == before[j - 1]);
            } else if i > k && j > k {
                assert(v@[i] == before[i - 1]);
                assert(v@[j] == before[j - 1]);
            } else if j < k {
                assert(v@[i] == before[i]);
                assert(v@[j] == before[j]);
            }
        }
    }
}

/// Builds previews for every qualifying directory entry under a backup
/// root and keeps them in ascending timestamp order: the result holds
/// exactly the qualifying entries' previews, sorted.
pub fn load_all(root: &str, entries: &Vec<ScanEntry>) -> (r: Vec<SnapshotPreview>)
    ensures
        spec_previews_sorted(r@),
        preview_seq_views(r@).to_multiset() == spec_scan_views(root@, entries@).to_multiset(),
{
    let mut out: Vec<SnapshotPreview> = Vec::new();
    let n = entries.len();
    let mut i: usize = 0;
    proof {
        assert(entries@.take(0) =~= Seq::<ScanEntry>::empty());
        assert(preview_seq_views(out@) =~= Seq::<(Timestamp, Seq<char>, Seq<char>)>::empty());
    }
    while i < n
        invariant
            i <= n,
            n == entries@.len(),
            spec_previews_sorted(out@),
            preview_seq_views(out@).to_multiset() == spec_scan_views(
                root@,
                entries@.take(i as int),
            ).to_multiset(),
        decreases n - i,
    {
        proof {
            lemma_scan_views_take_step(root@, entries@, i as int);
        }
        let e = &entries[i];
        let loc = path_join(root, e.name.as_str());
        match SnapshotPreview::new(loc.as_str(), e.has_index, e.has_files) {
            Some(p) => {
                proof {
                    let delta = seq![preview_view(p)];
                    assert(spec_scan_views(root@, entries@.take(i as int + 1)).to_multiset()
                        =~= spec_scan_views(root@, entries@.take(i as int)).to_multiset().insert(
                        preview_view(p),
                    )) by {
                        let a = spec_scan_views(root@, entries@.take(i as int));
                        assert(spec_scan_views(root@, entries@.take(i as int + 1)) == a + delta);
                        assert(a + delta =~= a.push(preview_view(p)));
                    }
                }
                insert_sorted(&mut out, p);
            },
            None => {
                proof {
                    let a = spec_scan_views(root@, entries@.take(i as int));
                    assert(spec_scan_views(root@, entries@.take(i as int + 1)) =~= a);
                }
            },
        }
        i = i + 1;
    }
    proof {
        assert(entries@.take(n as int) =~= entries@);
    }
    out
}

/// The previews under a backup root, sorted ascending by timestamp.
pub fn load_all_snapshot_previews(root: &str, entries: &Vec<ScanEntry>) -> (r: Vec<
    SnapshotPreview,
>)
    ensures
        spec_previews_sorted(r@),
        preview_seq_views(r@).to_multiset() == spec_scan_views(root@, entries@).to_multiset(),
{
    load_all(root, entries)
}

/// The newest snapshot under a root: present exactly when a qualifying
/// entry exists, its view among the scanned previews, and its timestamp no
/// earlier than any of theirs.
pub fn get_latest_snapshot_preview(root: &str, entries: &Vec<ScanEntry>) -> (r: Option<
    SnapshotPreview,
>)
    ensures
        (r is Some) <==> spec_scan_views(root@, entries@).len() > 0,
        r matches Some(p) ==> spec_scan_views(root@, entries@).to_multiset().contains(
            preview_view(p),
        ),
        r matches Some(p) ==> forall|v: (Timestamp, Seq<char>, Seq<char>)|
            spec_scan_views(root@, entries@).to_multiset().contains(v) ==> (#[trigger] v.0).spec_le(
                p.timestamp,
            ),
{
    let all = load_all(root, entries);
    let ghost vs = preview_seq_views(all@);
    let ghost scan = spec_scan_views(root@, entries@);
    proof {
        assert(vs.to_multiset().len() == vs.len());
        assert(scan.to_multiset().len() == scan.len());
        assert(forall|t: int| 0 <= t < all@.len() ==> #[trigger] vs[t] == preview_view(all@[t]));
    }
    match all.last() {
        None => None,
        Some(p) => {
            let r = p.clone();
            proof {
                assert(vs[vs.len() - 1] == preview_view(r));
                assert(vs.contains(preview_view(r)));
                assert forall|v: (Timestamp, Seq<char>, Seq<char>)|
                    scan.to_multiset().contains(v) implies (#[trigger] v.0).spec_le(
                    r.timestamp,
                ) by {
                    assert(vs.to_multiset().contains(v));
                    assert(vs.contains(v));
                    let idx = choose|idx: int| 0 <= idx < vs.len() && vs[idx] == v;
                    assert(v.0 == all@[idx].timestamp);
                    if idx < vs.len() - 1 {
                        assert(all@[idx].timestamp.spec_le(all@[vs.len() - 1].timestamp));
                    }
                }
            }
            Some(r)
        },
    }
}

/// An ordered repository of snapshots under one backup root.
pub struct Backup {
    pub location: String,
    pub snapshots: Vec<SnapshotPreview>,
}

impl Backup {
    /// Whether the previews are in ascending timestamp order.
    pub open spec fn wf(self) -> bool {
        spec_previews_sorted(self.snapshots@)
    }

    /// Opens a repository: `root_exists` reports whether the root
    /// directory is accessible, and `entries` what a scan of it found.
    pub fn open(path: String, root_exists: bool, entries: &Vec<ScanEntry>) -> (r: Result<
        Backup,
        String,
    >)
        ensures
            match r {
                Ok(b) => {
                    &&& root_exists
                    &&& b.location == path
                    &&& b.wf()
                    &&& preview_seq_views(b.snapshots@).to_multiset() == spec_scan_views(
                        path@,
                        entries@,
                    ).to_multiset()
                },
                Err(e) => !root_exists && e@
                    == "Folder with backup doesn't exist or isn't accessible"@,
            },
    {
        if !root_exists {
            return Err(String::from_str("Folder with backup doesn't exist or isn't accessible"));
        }
        let snapshots = load_all(path.as_str(), entries);
        Ok(Backup { location: path, snapshots })
    }

    /// The previews under a root, sorted ascending; the same scan the
    /// repository itself keeps.
    pub fn get_all_snapshot_previews(path: &str, entries: &Vec<ScanEntry>) -> (r: Vec<
        SnapshotPreview,
    >)
        ensures
            spec_previews_sorted(r@),
            preview_seq_views(r@).to_multiset() == spec_scan_views(path@, entries@).to_multiset(),
    {
        load_all(path, entries)
    }

    /// The newest snapshot, the default incremental baseline.
    pub fn latest_snapshot(&self) -> (r: Option<&SnapshotPreview>)
        ensures
            match r {
                Some(p) => self.snapshots@.len() > 0 && *p == self.snapshots@.last(),
                None => self.snapshots@.len() == 0,
            },
    {
        self.snapshots.last()
    }
}

/// One caller-supplied input path: the raw string, and its canonical
/// absolute form when the path exists and resolves.
pub struct InputPath {
    pub raw: String,
    pub canonical: Option<String>,
}

impl Clone for InputPath {
    fn clone(&self) -> (r: Self)
        ensures
            r == *self,
    {
        InputPath {
            raw: self.raw.clone(),
            canonical: match &self.canonical {
                Some(c) => Some(c.clone()),
                None => None,
            },
        }
    }
}

/// The canonical form of an input path that has one.
pub open spec fn canon(p: InputPath) -> Seq<char> {
    p.canonical->0@
}

/// Validation step one: drop the paths that do not exist, keeping order.
pub open spec fn spec_remove_nonexistent(s: Seq<InputPath>) -> Seq<InputPath>
    decreases s.len(),
{
    if s.len() == 0 {
        s
    } else {
        spec_remove_nonexistent(s.drop_last()) + (if s.last().canonical is Some {
            seq![s.last()]
        } else {
            Seq::empty()
        })
    }
}

/// Validation step two: drop a path when an earlier one canonicalizes to
/// the same form; the first occurrence survives.
pub open spec fn spec_remove_duplicated(s: Seq<InputPath>) -> Seq<InputPath>
    decreases s.len(),
{
    if s.len() == 0 {
        s
    } else {
        spec_remove_duplicated(s.drop_last()) + (if (exists|j: int|
            0 <= j < s.len() - 1 && canon(s[j]) == canon(s.last())) {
            Seq::empty()
        } else {
            seq![s.last()]
        })
    }
}

/// Whether some path in `ctx` is a proper ancestor of `p`: canonically
/// distinct, yet a path prefix.
pub open spec fn spec_overlapped(ctx: Seq<InputPath>, p: InputPath) -> bool {
    exists|j: int|
        0 <= j < ctx.len() && canon(#[trigger] ctx[j]) != canon(p) && spec_path_prefix(
            canon(ctx[j]),
            canon(p),
        )
}

/// Validation step three: drop the descendants, each judged against the
/// whole list `ctx`.
pub open spec fn spec_remove_overlapping_in(ctx: Seq<InputPath>, s: Seq<InputPath>) -> Seq<
    InputPath,
>
    decreases s.len(),
{
    if s.len() == 0 {
        s
    } else {
        spec_remove_overlapping_in(ctx, s.drop_last()) + (if spec_overlapped(ctx, s.last()) {
            Seq::empty()
        } else {
            seq![s.last()]
        })
    }
}

pub open spec fn spec_remove_overlapping(s: Seq<InputPath>) -> Seq<InputPath> {
    spec_remove_overlapping_in(s, s)
}

/// The whole validation: existence, then duplicates, then overlaps — in
/// that order, which decides who survives an overlapping pair.
pub open spec fn spec_validate(s: Seq<InputPath>) -> Seq<InputPath> {
    spec_remove_overlapping(spec_remove_duplicated(spec_remove_nonexistent(s)))
}

impl Backup {
    /// Keeps the input paths that exist, in order.
    pub fn remove_nonexistent_paths(paths: &Vec<InputPath>) -> (r: Vec<InputPath>)
        ensures
            r@ == spec_remove_nonexistent(paths@),
    {
        let n = paths.len();
        let mut out: Vec<InputPath> = Vec::new();
        let mut i: usize = 0;
        proof {
            assert(paths@.take(0) =~= Seq::<InputPath>::empty());
        }
        while i < n
            invariant
                i <= n,
                n == paths@.len(),
                out@ == spec_remove_nonexistent(paths@.take(i as int)),
            decreases n - i,
        {
            proof {
                assert(paths@.take(i as int + 1).drop_last() =~= paths@.take(i as int));
                assert(paths@.take(i as int + 1).last() == paths@[i as int]);
            }
            if paths[i].canonical.is_some() {
                out.push(paths[i].clone());
                proof {
                    assert(out@ =~= spec_remove_nonexistent(paths@.take(i as int + 1)));
                }
            } else {
                proof {
                    assert(out@ =~= spec_remove_nonexistent(paths@.take(i as int + 1)));
                }
            }
            i = i + 1;
        }
        proof {
            assert(paths@.take(n as int) =~= paths@);
        }
        out
    }

    /// Drops every path whose canonical form an earlier path already has;
    /// the earlier one survives.
    pub fn remove_duplicated_paths(paths: &Vec<InputPath>) -> (r: Vec<InputPath>)
        requires
            forall|i: int| 0 <= i < paths@.len() ==> (#[trigger] paths@[i]).canonical is Some,
        ensures
            r@ == spec_remove_duplicated(paths@),
    {
        let n = paths.len();
        let mut out: Vec<InputPath> = Vec::new();
        let mut i: usize = 0;
        proof {
            assert(paths@.take(0) =~= Seq::<InputPath>::empty());
        }
        while i < n
            invariant
                i <= n,
                n == paths@.len(),
                forall|t: int| 0 <= t < n ==> (#[trigger] paths@[t]).canonical is Some,
                out@ == spec_remove_duplicated(paths@.take(i as int)),
            decreases n - i,
        {
            proof {
                assert(paths@.take(i as int + 1).drop_last() =~= paths@.take(i as int));
                assert(paths@.take(i as int + 1).last() == paths@[i as int]);
                assert(forall|j: int|
                    0 <= j < i ==> #[trigger] paths@.take(i as int + 1)[j] == paths@[j]);
            }
            let ci = match &paths[i].canonical {
                Some(c) => c,
                None => {
                    proof {
                        assert(false);
                    }
                    &paths[i].raw
                },
            };
            let mut dup = false;
            let mut j: usize = 0;
            while j < i
                invariant
                    j <= i,
                    i < n,
                    n == paths@.len(),
                    forall|t: int| 0 <= t < n ==> (#[trigger] paths@[t]).canonical is Some,
                    ci@ == canon(paths@[i as int]),
                    dup == (exists|t: int| 0 <= t < j && canon(#[trigger] paths@[t]) == canon(
                        paths@[i as int],
                    )),
                decreases i - j,
            {
                let cj = match &paths[j].canonical {
                    Some(c) => c,
                    None => {
                        proof {
                            assert(false);
                        }
                        &paths[j].raw
                    },
                };
                if str_eq(cj.as_str(), ci.as_str()) {
                    dup = true;
                }
                j = j + 1;
            }
            if !dup {
                out.push(paths[i].clone());
                proof {
                    assert forall|j: int| 0 <= j < i implies canon(
                        #[trigger] paths@.take(i as int + 1)[j],
                    ) != canon(paths@.take(i as int + 1).last()) by {
                        assert(paths@.take(i as int + 1)[j] == paths@[j]);
                    }
                    assert(out@ =~= spec_remove_duplicated(paths@.take(i as int + 1)));
                }
            } else {
                proof {
                    let t = choose|t: int|
                        0 <= t < i && canon(#[trigger] paths@[t]) == canon(paths@[i as int]);
                    assert(canon(paths@.take(i as int + 1)[t]) == canon(
                        paths@.take(i as int + 1).last(),
                    ));
                    assert(out@ =~= spec_remove_duplicated(paths@.take(i as int + 1)));
                }
            }
            i = i + 1;
        }
        proof {
            assert(paths@.take(n as int) =~= paths@);
        }
        out
    }

    /// Drops every path that lies beneath another, canonically distinct
    /// path of the list; the ancestor survives.
    pub fn remove_overlapping_paths(paths: &Vec<InputPath>) -> (r: Vec<InputPath>)
        requires
            forall|i: int| 0 <= i < paths@.len() ==> (#[trigger] paths@[i]).canonical is Some,
        ensures
            r@ == spec_remove_overlapping(paths@),
    {
        let n = paths.len();
        let mut out: Vec<InputPath> = Vec::new();
        let mut i: usize = 0;
        proof {
            assert(paths@.take(0) =~= Seq::<InputPath>::empty());
        }
        while i < n
            invariant
                i <= n,
                n == paths@.len(),
                forall|t: int| 0 <= t < n ==> (#[trigger] paths@[t]).canonical is Some,
                out@ == spec_remove_overlapping_in(paths@, paths@.take(i as int)),
            decreases n - i,
        {
            proof {
                assert(paths@.take(i as int + 1).drop_last() =~= paths@.take(i as int));
                assert(paths@.take(i as int + 1).last() == paths@[i as int]);
            }
            let ci = match &paths[i].canonical {
                Some(c) => c,
                None => {
                    proof {
                        assert(false);
                    }
                    &paths[i].raw
                },
            };
            let mut overlapped = false;
            let mut j: usize = 0;
            while j < n
                invariant
                    j <= n,
                    i < n,
                    n == paths@.len(),
                    forall|t: int| 0 <= t < n ==> (#[trigger] paths@[t]).canonical is Some,
                    ci@ == canon(paths@[i as int]),
                    overlapped == (exists|t: int|
                        0 <= t < j && canon(#[trigger] paths@[t]) != canon(paths@[i as int])
                            && spec_path_prefix(canon(paths@[t]), canon(paths@[i as int]))),
                decreases n - j,
            {
                let cj = match &paths[j].canonical {
                    Some(c) => c,
                    None => {
                        proof {
                            assert(false);
                        }
                        &paths[j].raw
                    },
                };
                if !str_eq(cj.as_str(), ci.as_str()) && path_starts_with(ci.as_str(), cj.as_str())
                {
                    overlapped = true;
                }
                j = j + 1;
            }
            if !overlapped {
                out.push(paths[i].clone());
                proof {
                    assert(!spec_overlapped(paths@, paths@[i as int]));
                    assert(out@ =~= spec_remove_overlapping_in(paths@, paths@.take(i as int + 1)));
                }
            } else {
                proof {
                    assert(spec_overlapped(paths@, paths@[i as int]));
                    assert(out@ =~= spec_remove_overlapping_in(paths@, paths@.take(i as int + 1)));
                }
            }
            i = i + 1;
        }
        proof {
            assert(paths@.take(n as int) =~= paths@);
        }
        out
    }

    /// The whole validation pass, in its load-bearing order: existence,
    /// then duplicates, then overlaps.
    pub fn validate_input_paths(paths: &Vec<InputPath>) -> (r: Vec<InputPath>)
        ensures
            r@ == spec_validate(paths@),
    {
        let existent = Backup::remove_nonexistent_paths(paths);
        proof {
            lemma_nonexistent_all_some(paths@);
        }
        let without_duplicates = Backup::remove_duplicated_paths(&existent);
        proof {
            lemma_dedup_all_some(existent@);
        }
        Backup::remove_overlapping_paths(&without_duplicates)
    }
}

proof fn lemma_nonexistent_all_some(s: Seq<InputPath>)
    ensures
        forall|k: int|
            0 <= k < spec_remove_nonexistent(s).len() ==> (#[trigger] spec_remove_nonexistent(
                s,
            )[k]).canonical is Some,
        forall|k: int|
            0 <= k < spec_remove_nonexistent(s).len() ==> exists|idx: int|
                0 <= idx < s.len() && #[trigger] spec_remove_nonexistent(s)[k] == s[idx],
    decreases s.len(),
{
    if s.len() > 0 {
        lemma_nonexistent_all_some(s.drop_last());
        assert(forall|idx: int|
            0 <= idx < s.len() - 1 ==> #[trigger] s.drop_last()[idx] == s[idx]);
    }
}

proof fn lemma_nonexistent_id(s: Seq<InputPath>)
    requires
        forall|i: int| 0 <= i < s.len() ==> (#[trigger] s[i]).canonical is Some,
    ensures
        spec_remove_nonexistent(s) == s,
    decreases s.len(),
{
    if s.len() > 0 {
        assert(forall|i: int| 0 <= i < s.len() - 1 ==> #[trigger] s.drop_last()[i] == s[i]);
        lemma_nonexistent_id(s.drop_last());
        assert(spec_remove_nonexistent(s) =~= s);
    }
}

/// Pairwise canonically distinct.
pub open spec fn spec_canon_distinct(s: Seq<InputPath>) -> bool {
    forall|i: int, j: int|
        0 <= i < j < s.len() ==> canon(#[trigger] s[i]) != canon(#[trigger] s[j])
}

proof fn lemma_dedup_id(s: Seq<InputPath>)
    requires
        spec_canon_distinct(s),
    ensures
        spec_remove_duplicated(s) == s,
    decreases s.len(),
{
    if s.len() > 0 {
        assert(forall|i: int| 0 <= i < s.len() - 1 ==> #[trigger] s.drop_last()[i] == s[i]);
        lemma_dedup_id(s.drop_last());
        assert(spec_remove_duplicated(s) =~= s);
    }
}

proof fn lemma_dedup_distinct(s: Seq<InputPath>)
    ensures
        spec_canon_distinct(spec_remove_duplicated(s)),
    decreases s.len(),
{
    if s.len() > 0 {
        assert(forall|i: int| 0 <= i < s.len() - 1 ==> #[trigger] s.drop_last()[i] == s[i]);
        lemma_dedup_distinct(s.drop_last());
        lemma_dedup_membership(s.drop_last());
        let d = spec_remove_duplicated(s);
        let dp = spec_remove_duplicated(s.drop_last());
        if !(exists|j: int| 0 <= j < s.len() - 1 && canon(s[j]) == canon(s.last())) {
            assert forall|i: int, j: int| 0 <= i < j < d.len() implies canon(#[trigger] d[i])
                != canon(#[trigger] d[j]) by {
                if j == d.len() - 1 {
                    assert(d[j] == s.last());
                    assert(d[i] == dp[i]);
                    let idx = choose|idx: int|
                        0 <= idx < s.drop_last().len() && dp[i] == s.drop_last()[idx];
                    assert(canon(d[i]) == canon(s[idx]));
                } else {
                    assert(d[i] == dp[i]);
                    assert(d[j] == dp[j]);
                }
            }
        }
    }
}

proof fn lemma_dedup_membership(s: Seq<InputPath>)
    ensures
        forall|k: int|
            0 <= k < spec_remove_duplicated(s).len() ==> exists|idx: int|
                0 <= idx < s.len() && #[trigger] spec_remove_duplicated(s)[k] == s[idx],
    decreases s.len(),
{
    if s.len() > 0 {
        assert(forall|i: int| 0 <= i < s.len() - 1 ==> #[trigger] s.drop_last()[i] == s[i]);
        lemma_dedup_membership(s.drop_last());
        let d = spec_remove_duplicated(s);
        let dp = spec_remove_duplicated(s.drop_last());
        assert forall|k: int| 0 <= k < d.len() implies exists|idx: int|
            0 <= idx < s.len() && #[trigger] d[k] == s[idx] by {
            if k < dp.len() {
                assert(d[k] == dp[k]);
                let idx = choose|idx: int|
                    0 <= idx < s.drop_last().len() && dp[k] == s.drop_last()[idx];
                assert(0 <= idx < s.len() && d[k] == s[idx]);
            } else {
                assert(d[k] == s[s.len() - 1]);
            }
        }
    }
}

proof fn lemma_overlap_membership(ctx: Seq<InputPath>, s: Seq<InputPath>)
    ensures
        forall|k: int|
            0 <= k < spec_remove_overlapping_in(ctx, s).len() ==> !spec_overlapped(
                ctx,
                #[trigger] spec_remove_overlapping_in(ctx, s)[k],
            ),
        forall|k: int|
            0 <= k < spec_remove_overlapping_in(ctx, s).len() ==> exists|idx: int|
                0 <= idx < s.len() && #[trigger] spec_remove_overlapping_in(ctx, s)[k] == s[idx],
    decreases s.len(),
{
    if s.len() > 0 {
        assert(forall|i: int| 0 <= i < s.len() - 1 ==> #[trigger] s.drop_last()[i] == s[i]);
        lemma_overlap_membership(ctx, s.drop_last());
        let d = spec_remove_overlapping_in(ctx, s);
        let dp = spec_remove_overlapping_in(ctx, s.drop_last());
        assert forall|k: int| 0 <= k < d.len() implies !spec_overlapped(
            ctx,
            #[trigger] d[k],
        ) && exists|idx: int| 0 <= idx < s.len() && d[k] == s[idx] by {
            if k < dp.len() {
                assert(d[k] == dp[k]);
                let idx = choose|idx: int|
                    0 <= idx < s.drop_last().len() && dp[k] == s.drop_last()[idx];
                assert(0 <= idx < s.len() && d[k] == s[idx]);
            } else {
                assert(d[k] == s[s.len() - 1]);
            }
        }
    }
}

proof fn lemma_overlap_id(ctx: Seq<InputPath>, s: Seq<InputPath>)
    requires
        forall|k: int| 0 <= k < s.len() ==> !spec_overlapped(ctx, #[trigger] s[k]),
    ensures
        spec_remove_overlapping_in(ctx, s) == s,
    decreases s.len(),
{
    if s.len() > 0 {
        assert(forall|i: int| 0 <= i < s.len() - 1 ==> #[trigger] s.drop_last()[i] == s[i]);
        lemma_overlap_id(ctx, s.drop_last());
        assert(spec_remove_overlapping_in(ctx, s) =~= s);
    }
}

proof fn lemma_overlap_distinct(ctx: Seq<InputPath>, s: Seq<InputPath>)
    requires
        spec_canon_distinct(s),
    ensures
        spec_canon_distinct(spec_remove_overlapping_in(ctx, s)),
    decreases s.len(),
{
    if s.len() > 0 {
        assert(forall|i: int| 0 <= i < s.len() - 1 ==> #[trigger] s.drop_last()[i] == s[i]);
        lemma_overlap_distinct(ctx, s.drop_last());
        lemma_overlap_membership(ctx, s.drop_last());
        let d = spec_remove_overlapping_in(ctx, s);
        let dp = spec_remove_overlapping_in(ctx, s.drop_last());
        if !spec_overlapped(ctx, s.last()) {
            assert forall|i: int, j: int| 0 <= i < j < d.len() implies canon(#[trigger] d[i])
                != canon(#[trigger] d[j]) by {
                if j == d.len() - 1 {
                    assert(d[j] == s.last());
                    assert(d[i] == dp[i]);
                    let idx = choose|idx: int|
                        0 <= idx < s.drop_last().len() && dp[i] == s.drop_last()[idx];
                    assert(canon(d[i]) == canon(s[idx]));
                } else {
                    assert(d[i] == dp[i]);
                    assert(d[j] == dp[j]);
                }
            }
        }
    }
}

/// Idempotent filtering: applying input-path validation to its own output
/// drops nothing further.
pub proof fn lemma_validation_idempotent(s: Seq<InputPath>)
    ensures
        spec_validate(spec_validate(s)) == spec_validate(s),
{
    let n1 = spec_remove_nonexistent(s);
    let d1 = spec_remove_duplicated(n1);
    let v = spec_remove_overlapping_in(d1, d1);
    lemma_nonexistent_all_some(s);
    lemma_dedup_all_some(n1);
    lemma_overlap_membership(d1, d1);
    assert forall|k: int| 0 <= k < v.len() implies (#[trigger] v[k]).canonical is Some by {
        let idx = choose|idx: int| 0 <= idx < d1.len() && v[k] == d1[idx];
    }
    lemma_nonexistent_id(v);
    lemma_dedup_distinct(n1);
    lemma_overlap_distinct(d1, d1);
    lemma_dedup_id(v);
    assert forall|k: int| 0 <= k < v.len() implies !spec_overlapped(v, #[trigger] v[k]) by {
        if spec_overlapped(v, v[k]) {
            let j = choose|j: int|
                0 <= j < v.len() && canon(#[trigger] v[j]) != canon(v[k]) && spec_path_prefix(
                    canon(v[j]),
                    canon(v[k]),
                );
            let idx = choose|idx: int| 0 <= idx < d1.len() && v[j] == d1[idx];
            assert(canon(d1[idx]) != canon(v[k]) && spec_path_prefix(canon(d1[idx]), canon(v[k])));
            assert(spec_overlapped(d1, v[k]));
        }
    }
    lemma_overlap_id(v, v);
}

/// Validation ordering: two paths that are distinct strings but
/// canonicalize identically both survive overlap filtering — the ancestor
/// rule never fires on canonically equal paths, so only the earlier
/// duplicate rule can remove one of them.
pub proof fn lemma_equal_canonical_paths_survive_overlap(a: InputPath, b: InputPath)
    requires
        a.canonical is Some,
        b.canonical is Some,
        canon(a) == canon(b),
    ensures
        spec_remove_overlapping(seq![a, b]) == seq![a, b],
{
    let s = seq![a, b];
    assert forall|k: int| 0 <= k < s.len() implies !spec_overlapped(s, #[trigger] s[k]) by {
        if spec_overlapped(s, s[k]) {
            let j = choose|j: int|
                0 <= j < s.len() && canon(#[trigger] s[j]) != canon(s[k]) && spec_path_prefix(
                    canon(s[j]),
                    canon(s[k]),
                );
            assert(canon(s[0]) == canon(s[1]));
            assert(false);
        }
    }
    lemma_overlap_id(s, s);
}

proof fn lemma_dedup_all_some(s: Seq<InputPath>)
    requires
        forall|i: int| 0 <= i < s.len() ==> (#[trigger] s[i]).canonical is Some,
    ensures
        forall|k: int|
            0 <= k < spec_remove_duplicated(s).len() ==> (#[trigger] spec_remove_duplicated(
                s,
            )[k]).canonical is Some,
        forall|k: int|
            0 <= k < spec_remove_duplicated(s).len() ==> exists|idx: int|
                0 <= idx < s.len() && #[trigger] spec_remove_duplicated(s)[k] == s[idx],
    decreases s.len(),
{
    if s.len() > 0 {
        assert(forall|i: int| 0 <= i < s.len() - 1 ==> #[trigger] s.drop_last()[i] == s[i]);
        lemma_dedup_all_some(s.drop_last());
    }
}

} // verus!
