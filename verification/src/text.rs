//! Character-level helpers on strings: equality, prefix tests, ASCII
//! whitespace trimming, and splitting a text into lines.

use vstd::prelude::*;
use vstd::string::StrSliceExecFns;
use vstd::string::StringExecFns;

verus! {

/// Character-for-character equality of two string slices.
pub fn str_eq(a: &str, b: &str) -> (r: bool)
    ensures
        r == (a@ == b@),
{
    let alen = a.unicode_len();
    let blen = b.unicode_len();
    if alen != blen {
        assert(a@ != b@);
        return false;
    }
    let mut i: usize = 0;
    while i < alen
        invariant
            i <= alen,
            alen == a@.len(),
            alen == b@.len(),
            forall|j: int| 0 <= j < i ==> a@[j] == b@[j],
        decreases alen - i,
    {
        if a.get_char(i) != b.get_char(i) {
            return false;
        }
        i = i + 1;
    }
    assert(a@ =~= b@);
    true
}

/// True when `p` is a leading subsequence of `s`.
pub open spec fn spec_has_prefix(s: Seq<char>, p: Seq<char>) -> bool {
    p.len() <= s.len() && s.take(p.len() as int) == p
}

pub fn has_prefix(s: &str, p: &str) -> (r: bool)
    ensures
        r == spec_has_prefix(s@, p@),
{
    let slen = s.unicode_len();
    let plen = p.unicode_len();
    if plen > slen {
        assert(!spec_has_prefix(s@, p@));
        return false;
    }
    let mut i: usize = 0;
    while i < plen
        invariant
            i <= plen,
            plen == p@.len(),
            slen == s@.len(),
            plen <= slen,
            forall|j: int| 0 <= j < i ==> s@[j] == p@[j],
        decreases plen - i,
    {
        if s.get_char(i) != p.get_char(i) {
            assert(s@.take(p@.len() as int)[i as int] != p@[i as int]);
            return false;
        }
        i = i + 1;
    }
    assert(s@.take(p@.len() as int) =~= p@);
    true
}

/// ASCII whitespace: space, tab, carriage return, line feed.
pub open spec fn is_ascii_ws(c: char) -> bool {
    c == ' ' || c == '\t' || c == '\r' || c == '\n'
}

/// The string without its leading ASCII whitespace.
pub open spec fn spec_trim_front(s: Seq<char>) -> Seq<char>
    decreases s.len(),
{
    if s.len() > 0 && is_ascii_ws(s[0]) {
        spec_trim_front(s.drop_first())
    } else {
        s
    }
}

/// The string without its trailing ASCII whitespace.
pub open spec fn spec_trim_back(s: Seq<char>) -> Seq<char>
    decreases s.len(),
{
    if s.len() > 0 && is_ascii_ws(s[s.len() - 1]) {
        spec_trim_back(s.drop_last())
    } else {
        s
    }
}

/// The string without leading or trailing ASCII whitespace.
pub open spec fn spec_trim(s: Seq<char>) -> Seq<char> {
    spec_trim_back(spec_trim_front(s))
}

fn is_ws(c: char) -> (r: bool)
    ensures
        r == is_ascii_ws(c),
{
    c == ' ' || c == '\t' || c == '\r' || c == '\n'
}

/// Trims ASCII whitespace from both ends.
pub fn trim(s: &str) -> (r: String)
    ensures
        r@ == spec_trim(s@),
{
    let len = s.unicode_len();
    proof {
        assert(s@.skip(0) =~= s@);
    }
    let mut from: usize = 0;
    while from < len && is_ws(s.get_char(from))
        invariant
            from <= len,
            len == s@.len(),
            spec_trim_front(s@) == spec_trim_front(s@.skip(from as int)),
        decreases len - from,
    {
        proof {
            assert(s@.skip(from as int).drop_first() =~= s@.skip(from as int + 1));
        }
        from = from + 1;
    }
    proof {
        assert(spec_trim_front(s@.skip(from as int)) == s@.skip(from as int));
        assert(s@.subrange(from as int, len as int) =~= s@.skip(from as int));
    }
    let mut to: usize = len;
    while to > from && is_ws(s.get_char(to - 1))
        invariant
            from <= to <= len,
            len == s@.len(),
            spec_trim_front(s@) == s@.skip(from as int),
            spec_trim_back(s@.subrange(from as int, to as int)) == spec_trim_back(
                s@.skip(from as int),
            ),
        decreases to,
    {
        proof {
            assert(s@.subrange(from as int, to as int).drop_last() =~= s@.subrange(
                from as int,
                to as int - 1,
            ));
        }
        to = to - 1;
    }
    proof {
        assert(spec_trim_back(s@.subrange(from as int, to as int)) == s@.subrange(
            from as int,
            to as int,
        ));
    }
    let sub = s.substring_char(from, to);
    String::from_str(sub)
}

/// The lines of a text, split at line feeds; a trailing carriage return is
/// removed from each line, and a final line feed opens no further line.
pub open spec fn spec_lines(s: Seq<char>) -> Seq<Seq<char>>
    decreases s.len(),
{
    if s.len() == 0 {
        Seq::empty()
    } else {
        let k0 = spec_char_index(s, '\n');
        let k = if 0 <= k0 < s.len() {
            k0
        } else {
            s.len() as int
        };
        if k == s.len() {
            seq![spec_strip_cr(s)]
        } else {
            seq![spec_strip_cr(s.take(k))] + spec_lines(s.skip(k + 1))
        }
    }
}

/// The index of the first occurrence of `c`, or the length if absent.
pub open spec fn spec_char_index(s: Seq<char>, c: char) -> int
    decreases s.len(),
{
    if s.len() == 0 {
        0
    } else if s[0] == c {
        0
    } else {
        1 + spec_char_index(s.drop_first(), c)
    }
}

/// The string without one trailing carriage return, if it has one.
pub open spec fn spec_strip_cr(s: Seq<char>) -> Seq<char> {
    if s.len() > 0 && s[s.len() - 1] == '\r' {
        s.drop_last()
    } else {
        s
    }
}

/// Where the first occurrence sits, from what the characters show.
pub proof fn lemma_char_index_at(s: Seq<char>, c: char, k: int)
    requires
        0 <= k <= s.len(),
        forall|j: int| 0 <= j < k ==> s[j] != c,
        k < s.len() ==> s[k] == c,
    ensures
        spec_char_index(s, c) == k,
    decreases s.len(),
{
    if s.len() > 0 && s[0] != c {
        assert(forall|j: int| 0 <= j < s.len() - 1 ==> #[trigger] s.drop_first()[j] == s[j + 1]);
        lemma_char_index_at(s.drop_first(), c, k - 1);
    }
}

proof fn lemma_trim_front_len(s: Seq<char>)
    ensures
        spec_trim_front(s).len() <= s.len(),
        s.len() > 0 && is_ascii_ws(s[0]) ==> spec_trim_front(s).len() < s.len(),
    decreases s.len(),
{
    if s.len() > 0 && is_ascii_ws(s[0]) {
        lemma_trim_front_len(s.drop_first());
    }
}

proof fn lemma_trim_back_len(s: Seq<char>)
    ensures
        spec_trim_back(s).len() <= s.len(),
        s.len() > 0 && is_ascii_ws(s[s.len() - 1]) ==> spec_trim_back(s).len() < s.len(),
    decreases s.len(),
{
    if s.len() > 0 && is_ascii_ws(s[s.len() - 1]) {
        lemma_trim_back_len(s.drop_last());
    }
}

/// A string that trimming leaves alone has no whitespace at either end.
pub proof fn lemma_trim_stable_ends(s: Seq<char>)
    requires
        spec_trim(s) == s,
        s.len() > 0,
    ensures
        !is_ascii_ws(s[0]),
        !is_ascii_ws(s[s.len() - 1]),
{
    lemma_trim_front_len(s);
    lemma_trim_back_len(spec_trim_front(s));
    if is_ascii_ws(s[0]) {
        assert(spec_trim(s).len() < s.len());
    }
    if !is_ascii_ws(s[0]) {
        assert(spec_trim_front(s) == s);
        if is_ascii_ws(s[s.len() - 1]) {
            lemma_trim_back_len(s);
            assert(spec_trim(s).len() < s.len());
        }
    }
}

proof fn lemma_char_index_bounds(s: Seq<char>, c: char)
    ensures
        0 <= spec_char_index(s, c) <= s.len(),
        forall|j: int| 0 <= j < spec_char_index(s, c) ==> s[j] != c,
        spec_char_index(s, c) < s.len() ==> s[spec_char_index(s, c)] == c,
    decreases s.len(),
{
    if s.len() > 0 && s[0] != c {
        lemma_char_index_bounds(s.drop_first(), c);
        assert(forall|j: int|
            1 <= j < spec_char_index(s, c) ==> s[j] == s.drop_first()[j - 1] && s[j] != c);
    }
}

/// Locates the first occurrence of `c` at or after nothing — over the whole
/// string — returning the index, or the length if `c` does not occur.
pub fn char_index(s: &str, c: char) -> (r: usize)
    ensures
        r == spec_char_index(s@, c),
        r <= s@.len(),
        r < s@.len() ==> s@[r as int] == c,
        forall|j: int| 0 <= j < r ==> s@[j] != c,
{
    let len = s.unicode_len();
    proof {
        assert(s@.skip(0) =~= s@);
    }
    let mut i: usize = 0;
    while i < len && s.get_char(i) != c
        invariant
            i <= len,
            len == s@.len(),
            spec_char_index(s@, c) == i + spec_char_index(s@.skip(i as int), c),
            forall|j: int| 0 <= j < i ==> s@[j] != c,
        decreases len - i,
    {
        proof {
            assert(s@.skip(i as int).drop_first() =~= s@.skip(i as int + 1));
        }
        i = i + 1;
    }
    proof {
        lemma_char_index_bounds(s@.skip(i as int), c);
        if i < len {
            assert(s@.skip(i as int)[0] == s@[i as int]);
        }
    }
    i
}

/// Splits a text into lines as `spec_lines` describes.
pub fn lines_of(s: &str) -> (r: Vec<String>)
    ensures
        r@.len() == spec_lines(s@).len(),
        forall|i: int| 0 <= i < r@.len() ==> r@[i]@ == spec_lines(s@)[i],
    decreases s@.len(),
{
    let len = s.unicode_len();
    if len == 0 {
        return Vec::new();
    }
    let k = char_index(s, '\n');
    proof {
        lemma_char_index_bounds(s@, '\n');
    }
    if k == len {
        let line = strip_cr(s);
        let mut r: Vec<String> = Vec::new();
        r.push(line);
        r
    } else {
        let head = s.substring_char(0, k);
        let line = strip_cr(head);
        let rest = s.substring_char(k + 1, len);
        let mut r: Vec<String> = Vec::new();
        r.push(line);
        let mut tail = lines_of(rest);
        let mut j: usize = 0;
        let tn = tail.len();
        while j < tn
            invariant
                j <= tn,
                tn == tail@.len(),
                tail@.len() == spec_lines(s@.skip(k as int + 1)).len(),
                forall|i: int| 0 <= i < tn ==> tail@[i]@ == spec_lines(s@.skip(k as int + 1))[i],
                r@.len() == 1 + j,
                r@[0]@ == spec_strip_cr(s@.take(k as int)),
                forall|i: int| 1 <= i < r@.len() ==> r@[i]@ == spec_lines(s@.skip(k as int + 1))[i
                    - 1],
            decreases tn - j,
        {
            let item = tail[j].clone();
            r.push(item);
            j = j + 1;
        }
        r
    }
}

/// Removes one trailing carriage return, if present.
fn strip_cr(s: &str) -> (r: String)
    ensures
        r@ == spec_strip_cr(s@),
{
    let len = s.unicode_len();
    if len > 0 && s.get_char(len - 1) == '\r' {
        String::from_str(s.substring_char(0, len - 1))
    } else {
        String::from_str(s)
    }
}

} // verus!
