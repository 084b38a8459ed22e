//! Small path helpers shared with the surrounding program.

use vstd::prelude::*;
use vstd::string::StrSliceExecFns;
use vstd::string::StringExecFns;

use crate::paths::path_join;
use crate::paths::spec_path_join;

verus! {

/// The string without its colons.
pub open spec fn spec_remove_colons(s: Seq<char>) -> Seq<char>
    decreases s.len(),
{
    if s.len() == 0 {
        s
    } else if s[0] == ':' {
        spec_remove_colons(s.drop_first())
    } else {
        seq![s[0]] + spec_remove_colons(s.drop_first())
    }
}

fn remove_colons(s: &str) -> (r: String)
    ensures
        r@ == spec_remove_colons(s@),
    decreases s@.len(),
{
    let len = s.unicode_len();
    if len == 0 {
        return String::new();
    }
    let rest = remove_colons(s.substring_char(1, len));
    proof {
        assert(s@.subrange(1, len as int) =~= s@.drop_first());
    }
    if s.get_char(0) == ':' {
        rest
    } else {
        let mut r = String::from_str(s.substring_char(0, 1));
        proof {
            assert(r@ =~= seq![s@[0]]);
        }
        r.append(rest.as_str());
        r
    }
}

/// Where an origin path's copy lives beneath a snapshot directory: the
/// origin, stripped of one leading slash and of any colons, joined under
/// `<snapshot>/files`.
pub open spec fn spec_origin_snapshot_path(origin: Seq<char>, snapshot: Seq<char>) -> Seq<char> {
    let stripped = if origin.len() > 0 && origin[0] == '/' {
        origin.drop_first()
    } else {
        origin
    };
    spec_path_join(spec_path_join(snapshot, "files"@), spec_remove_colons(stripped))
}

/// Maps an origin path beneath a snapshot directory, as
/// `spec_origin_snapshot_path` describes.
pub fn map_origin_to_snapshot_path(origin: &str, snapshot: &str) -> (r: String)
    ensures
        r@ == spec_origin_snapshot_path(origin@, snapshot@),
{
    let len = origin.unicode_len();
    let stripped: &str = if len > 0 && origin.get_char(0) == '/' {
        let t = origin.substring_char(1, len);
        proof {
            assert(origin@.subrange(1, len as int) =~= origin@.drop_first());
        }
        t
    } else {
        origin
    };
    let flat = remove_colons(stripped);
    let base = path_join(snapshot, "files");
    path_join(base.as_str(), flat.as_str())
}

} // verus!
