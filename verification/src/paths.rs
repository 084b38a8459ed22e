//! Cross-platform path algebra over plain strings.
//!
//! Paths are treated as character sequences, so POSIX-style and
//! Windows-style forms can be handled uniformly on any host. A path is
//! decomposed into separator-delimited segments; `.` and `..` segments are
//! dropped, as the store mapping never keeps them.

use vstd::prelude::*;
use vstd::string::StrSliceExecFns;
use vstd::string::StringExecFns;

use crate::text::char_index;
use crate::text::has_prefix;
use crate::text::spec_char_index;
use crate::text::spec_has_prefix;

verus! {

/// A separator character: `/` where slashes separate, `\` where
/// backslashes separate (verbatim Windows forms use backslashes alone).
pub open spec fn is_sep(c: char, slash: bool, backslash: bool) -> bool {
    (slash && c == '/') || (backslash && c == '\\')
}

/// A separator character of either convention.
pub open spec fn is_any_sep(c: char) -> bool {
    c == '/' || c == '\\'
}

fn any_sep_exec(c: char) -> (r: bool)
    ensures
        r == is_any_sep(c),
{
    c == '/' || c == '\\'
}

fn sep_exec(c: char, slash: bool, backslash: bool) -> (r: bool)
    ensures
        r == is_sep(c, slash, backslash),
{
    (slash && c == '/') || (backslash && c == '\\')
}

/// True for ASCII letters.
pub open spec fn is_ascii_alpha(c: char) -> bool {
    (65 <= c as u32 <= 90) || (97 <= c as u32 <= 122)
}

pub fn ascii_alpha(c: char) -> (r: bool)
    ensures
        r == is_ascii_alpha(c),
{
    let u = c as u32;
    (65 <= u && u <= 90) || (97 <= u && u <= 122)
}

/// The index of the first separator, or the length if none occurs.
pub open spec fn spec_sep_index(s: Seq<char>, slash: bool, backslash: bool) -> int
    decreases s.len(),
{
    if s.len() == 0 {
        0
    } else if is_sep(s[0], slash, backslash) {
        0
    } else {
        1 + spec_sep_index(s.drop_first(), slash, backslash)
    }
}

proof fn lemma_sep_index_bounds(s: Seq<char>, slash: bool, backslash: bool)
    ensures
        0 <= spec_sep_index(s, slash, backslash) <= s.len(),
        forall|j: int| 0 <= j < spec_sep_index(s, slash, backslash) ==> !is_sep(s[j], slash, backslash),
        spec_sep_index(s, slash, backslash) < s.len() ==> is_sep(
            s[spec_sep_index(s, slash, backslash)],
            slash,
            backslash,
        ),
    decreases s.len(),
{
    if s.len() > 0 && !is_sep(s[0], slash, backslash) {
        lemma_sep_index_bounds(s.drop_first(), slash, backslash);
        assert(forall|j: int|
            1 <= j < spec_sep_index(s, slash, backslash) ==> s[j] == s.drop_first()[j - 1]
                && !is_sep(s[j], slash, backslash));
    }
}

fn sep_index(s: &str, slash: bool, backslash: bool) -> (r: usize)
    ensures
        r == spec_sep_index(s@, slash, backslash),
        r <= s@.len(),
        r < s@.len() ==> is_sep(s@[r as int], slash, backslash),
        forall|j: int| 0 <= j < r ==> !is_sep(s@[j], slash, backslash),
{
    let len = s.unicode_len();
    proof {
        assert(s@.skip(0) =~= s@);
    }
    let mut i: usize = 0;
    while i < len && !sep_exec(s.get_char(i), slash, backslash)
        invariant
            i <= len,
            len == s@.len(),
            spec_sep_index(s@, slash, backslash) == i + spec_sep_index(s@.skip(i as int), slash, backslash),
            forall|j: int| 0 <= j < i ==> !is_sep(s@[j], slash, backslash),
        decreases len - i,
    {
        proof {
            assert(s@.skip(i as int).drop_first() =~= s@.skip(i as int + 1));
        }
        i = i + 1;
    }
    proof {
        lemma_sep_index_bounds(s@.skip(i as int), slash, backslash);
        if i < len {
            assert(s@.skip(i as int)[0] == s@[i as int]);
        }
    }
    i
}

/// The segment `.`, which names the directory itself.
pub open spec fn is_dot(seg: Seq<char>) -> bool {
    seg.len() == 1 && seg[0] == '.'
}

/// The segment `..`, which names the parent directory.
pub open spec fn is_dot_dot(seg: Seq<char>) -> bool {
    seg.len() == 2 && seg[0] == '.' && seg[1] == '.'
}

/// The separator-delimited segments of a string, in order, with empty,
/// `.` and `..` segments dropped.
pub open spec fn spec_segments(s: Seq<char>, slash: bool, backslash: bool) -> Seq<Seq<char>>
    decreases s.len(),
{
    if s.len() == 0 {
        Seq::empty()
    } else if is_sep(s[0], slash, backslash) {
        spec_segments(s.drop_first(), slash, backslash)
    } else {
        let k0 = spec_sep_index(s, slash, backslash);
        let k = if 1 <= k0 <= s.len() {
            k0
        } else {
            s.len() as int
        };
        let head = s.take(k);
        let rest = spec_segments(s.skip(k), slash, backslash);
        if is_dot(head) || is_dot_dot(head) {
            rest
        } else {
            seq![head] + rest
        }
    }
}

/// Splits a string into its segments, as `spec_segments` describes.
pub fn segments_of(s: &str, slash: bool, backslash: bool) -> (r: Vec<String>)
    ensures
        r@.len() == spec_segments(s@, slash, backslash).len(),
        forall|i: int| 0 <= i < r@.len() ==> r@[i]@ == spec_segments(s@, slash, backslash)[i],
    decreases s@.len(),
{
    let len = s.unicode_len();
    if len == 0 {
        return Vec::new();
    }
    if sep_exec(s.get_char(0), slash, backslash) {
        let rest = s.substring_char(1, len);
        proof {
            assert(s@.drop_first() =~= s@.subrange(1, len as int));
        }
        return segments_of(rest, slash, backslash);
    }
    let k = sep_index(s, slash, backslash);
    proof {
        lemma_sep_index_bounds(s@, slash, backslash);
        assert(k >= 1);
    }
    let head = s.substring_char(0, k);
    let tail = s.substring_char(k, len);
    proof {
        assert(s@.take(k as int) =~= s@.subrange(0, k as int));
        assert(s@.skip(k as int) =~= s@.subrange(k as int, len as int));
    }
    let mut r = segments_of(tail, slash, backslash);
    let hlen = head.unicode_len();
    let keep = if hlen == 1 {
        head.get_char(0) != '.'
    } else if hlen == 2 {
        head.get_char(0) != '.' || head.get_char(1) != '.'
    } else {
        true
    };
    if keep {
        r.insert(0, String::from_str(head));
    }
    r
}

/// The ancestor relation on path strings: `base` is a prefix of `s` that
/// ends at a segment boundary.
pub open spec fn spec_path_prefix(base: Seq<char>, s: Seq<char>) -> bool {
    &&& spec_has_prefix(s, base)
    &&& {
        ||| base.len() == s.len()
        ||| is_any_sep(s[base.len() as int])
        ||| (base.len() > 0 && is_any_sep(base[base.len() - 1]))
    }
}

/// True when `s` lies at or below `base`.
pub fn path_starts_with(s: &str, base: &str) -> (r: bool)
    ensures
        r == spec_path_prefix(base@, s@),
{
    if !has_prefix(s, base) {
        return false;
    }
    let blen = base.unicode_len();
    let slen = s.unicode_len();
    if blen == slen {
        return true;
    }
    let c = s.get_char(blen);
    if c == '/' || c == '\\' {
        return true;
    }
    if blen > 0 {
        let e = base.get_char(blen - 1);
        if e == '/' || e == '\\' {
            return true;
        }
    }
    false
}

/// The characters after the last separator; empty when the string ends
/// with a separator.
pub open spec fn spec_last_component(s: Seq<char>) -> Seq<char>
    decreases s.len(),
{
    if s.len() == 0 {
        s
    } else if is_any_sep(s[s.len() - 1]) {
        Seq::empty()
    } else {
        spec_last_component(s.drop_last()).push(s[s.len() - 1])
    }
}

proof fn lemma_last_component_at(s: Seq<char>, cut: int)
    requires
        0 <= cut <= s.len(),
        forall|j: int| cut <= j < s.len() ==> !is_any_sep(s[j]),
        cut > 0 ==> is_any_sep(s[cut - 1]),
    ensures
        spec_last_component(s) == s.subrange(cut, s.len() as int),
    decreases s.len(),
{
    if s.len() == 0 {
        assert(s.subrange(0, 0) =~= s);
    } else if is_any_sep(s[s.len() - 1]) {
        assert(cut == s.len());
        assert(s.subrange(cut, s.len() as int) =~= Seq::<char>::empty());
    } else {
        assert(cut < s.len());
        lemma_last_component_at(s.drop_last(), cut);
        assert(s.drop_last().subrange(cut, s.len() - 1).push(s[s.len() - 1]) =~= s.subrange(
            cut,
            s.len() as int,
        ));
    }
}

/// The last component of a path string.
pub fn last_component_of(s: &str) -> (r: String)
    ensures
        r@ == spec_last_component(s@),
{
    let len = s.unicode_len();
    let mut cut: usize = len;
    while cut > 0 && !any_sep_exec(s.get_char(cut - 1))
        invariant
            cut <= len,
            len == s@.len(),
            forall|j: int| cut <= j < len ==> !is_any_sep(s@[j]),
        decreases cut,
    {
        cut = cut - 1;
    }
    proof {
        lemma_last_component_at(s@, cut as int);
    }
    String::from_str(s.substring_char(cut, len))
}

/// An absolute path: a POSIX root, a Windows UNC/verbatim/device form, or
/// a drive letter with a root.
pub open spec fn spec_is_absolute(s: Seq<char>) -> bool {
    ||| (s.len() >= 1 && s[0] == '/')
    ||| (s.len() >= 2 && s[0] == '\\' && s[1] == '\\')
    ||| (s.len() >= 3 && is_ascii_alpha(s[0]) && s[1] == ':' && is_any_sep(s[2]))
}

pub fn is_absolute_path(s: &str) -> (r: bool)
    ensures
        r == spec_is_absolute(s@),
{
    let len = s.unicode_len();
    if len >= 1 && s.get_char(0) == '/' {
        return true;
    }
    if len >= 2 && s.get_char(0) == '\\' && s.get_char(1) == '\\' {
        return true;
    }
    if len >= 3 && ascii_alpha(s.get_char(0)) && s.get_char(1) == ':' {
        let c = s.get_char(2);
        if c == '/' || c == '\\' {
            return true;
        }
    }
    false
}

/// Segments joined with a separator between each pair.
pub open spec fn spec_join_with(parts: Seq<Seq<char>>, sep: char) -> Seq<char>
    decreases parts.len(),
{
    if parts.len() == 0 {
        Seq::empty()
    } else if parts.len() == 1 {
        parts[0]
    } else {
        parts[0] + seq![sep] + spec_join_with(parts.drop_first(), sep)
    }
}

proof fn lemma_join_take_step(parts: Seq<Seq<char>>, sep: char, i: int)
    requires
        0 < i < parts.len(),
    ensures
        spec_join_with(parts.take(i + 1), sep) == spec_join_with(parts.take(i), sep) + seq![sep]
            + parts[i],
    decreases i,
{
    let q = parts.drop_first();
    assert(parts.take(i + 1).drop_first() =~= q.take(i));
    assert(parts.take(i + 1)[0] == parts[0]);
    if i == 1 {
        assert(q.take(1)[0] == q[0]);
        assert(spec_join_with(q.take(1), sep) == q[0]);
        assert(parts.take(1)[0] == parts[0]);
        assert(spec_join_with(parts.take(1), sep) == parts[0]);
    } else {
        lemma_join_take_step(q, sep, i - 1);
        assert(parts.take(i).drop_first() =~= q.take(i - 1));
        assert(q[i - 1] == parts[i]);
    }
}

/// Joins path segments with a one-character separator.
pub fn join_with(parts: &Vec<String>, sep: &str) -> (r: String)
    requires
        sep@.len() == 1,
    ensures
        r@ == spec_join_with(seq_views(parts@), sep@[0]),
{
    let ghost ps = seq_views(parts@);
    let mut r = String::new();
    let n = parts.len();
    let mut i: usize = 0;
    while i < n
        invariant
            i <= n,
            n == parts@.len(),
            ps == seq_views(parts@),
            sep@.len() == 1,
            r@ == spec_join_with(ps.take(i as int), sep@[0]),
        decreases n - i,
    {
        if i > 0 {
            r.append(sep);
        }
        let part = &parts[i];
        r.append(part.as_str());
        proof {
            assert(ps[i as int] == parts@[i as int]@);
            if i == 0 {
                assert(ps.take(1)[0] == ps[0]);
                assert(spec_join_with(ps.take(1), sep@[0]) == ps[0]);
                assert(r@ =~= ps[0]);
            } else {
                lemma_join_take_step(ps, sep@[0], i as int);
                assert(r@ =~= spec_join_with(ps.take(i as int), sep@[0]) + seq![sep@[0]] + ps[
                    i as int]);
            }
        }
        i = i + 1;
    }
    proof {
        assert(ps.take(n as int) =~= ps);
    }
    r
}

/// The views of a sequence of strings.
pub open spec fn seq_views(ss: Seq<String>) -> Seq<Seq<char>> {
    ss.map_values(|x: String| x@)
}

/// `base` and `rel` joined by one separator, in `base`'s own style:
/// a backslash when `base` holds one, else a slash. A trailing separator
/// on `base`, an empty `base`, or an empty `rel` adds nothing.
pub open spec fn spec_path_join(base: Seq<char>, rel: Seq<char>) -> Seq<char> {
    if rel.len() == 0 {
        base
    } else if base.len() == 0 {
        rel
    } else if is_any_sep(base[base.len() - 1]) {
        base + rel
    } else if spec_char_index(base, '\\') < base.len() {
        base + seq!['\\'] + rel
    } else {
        base + seq!['/'] + rel
    }
}

/// Joins two path strings as `spec_path_join` describes.
pub fn path_join(base: &str, rel: &str) -> (r: String)
    ensures
        r@ == spec_path_join(base@, rel@),
{
    proof {
        reveal_strlit("\\");
        reveal_strlit("/");
    }
    let blen = base.unicode_len();
    let rlen = rel.unicode_len();
    if rlen == 0 {
        return String::from_str(base);
    }
    if blen == 0 {
        return String::from_str(rel);
    }
    let mut r = String::from_str(base);
    if !any_sep_exec(base.get_char(blen - 1)) {
        if char_index(base, '\\') < blen {
            r.append("\\");
        } else {
            r.append("/");
        }
    }
    r.append(rel);
    assert(r@ =~= spec_path_join(base@, rel@));
    r
}

} // verus!
