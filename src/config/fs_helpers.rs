use vstd::prelude::*;

use crate::order::{sort_by_path, sort_paths, views};
use crate::text::{starts_with, str_eq};

verus! {

/// Whether a directory entry of this name is scanned: hidden names (a
/// leading `.`) and `node_modules` are passed over, with all they hold.
pub open spec fn scanned_name(name: Seq<char>) -> bool {
    !(name.len() > 0 && name[0] == '.') && name != "node_modules"@
}

/// Whether a directory entry of this name is scanned.
pub fn is_scanned_name(name: &str) -> (r: bool)
    ensures
        r == scanned_name(name@),
{
    proof {
        reveal_strlit(".");
        assert("."@ =~= seq!['.']);
        if name@.len() > 0 && name@[0] == '.' {
            assert(name@.subrange(0, 1) =~= "."@);
        }
    }
    let hidden = starts_with(name, ".");
    proof {
        if hidden {
            assert(name@.subrange(0, 1)[0] == "."@[0]);
        }
    }
    !hidden && !str_eq(name, "node_modules")
}

/// The files of a content tree (paths relative to its root) in the order
/// the loader lists them: by directory, then by file name, each collated.
pub fn sort_tree(paths: &Vec<String>) -> (r: Vec<String>)
    ensures
        views(r@) == sort_paths(views(paths@)),
{
    sort_by_path(paths)
}

} // verus!
