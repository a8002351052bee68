//! Display helpers the report sinks rely on: the path of a module relative
//! to the project root, and the display name of a module.

use vstd::prelude::*;

use crate::graph::Module;
use crate::strutil;

verus! {

/// What [`relative_path`] returns: the path with the root prefix and its
/// separator removed, or the path itself when it does not lie under the
/// root.
pub open spec fn relative_path_ok(path: Seq<char>, root: Seq<char>, r: Seq<char>) -> bool {
    if path.len() > root.len() && path.subrange(0, root.len() + 1int) == root + seq!['/'] {
        r == path.skip(root.len() + 1int)
    } else if path == root {
        r == Seq::<char>::empty()
    } else {
        r == path
    }
}

/// The path relative to the project root: the part below the root when the
/// path lies under it, the path itself otherwise.
pub fn relative_path(path: &String, root: &String) -> (r: String)
    ensures
        relative_path_ok(path@, root@, r@),
{
    let root_slash = strutil::concat2(root.as_str(), "/");
    proof {
        reveal_strlit("/");
        assert(root_slash@ =~= root@ + seq!['/']);
    }
    if strutil::str_starts_with(path.as_str(), root_slash.as_str()) {
        let start = root_slash.unicode_len();
        let n = path.as_str().unicode_len();
        let r = String::from_str(path.as_str().substring_char(start, n));
        proof {
            assert(r@ =~= path@.skip(root@.len() + 1int));
        }
        r
    } else if strutil::str_eq(path.as_str(), root.as_str()) {
        String::new()
    } else {
        String::from_str(path.as_str())
    }
}

/// The display name of a module: its package name when it has one, else
/// its path relative to the root.
pub fn display_name(m: &Module, root: &String) -> (r: String)
    ensures
        match m.package {
            Some(p) => r@ == p@,
            None => relative_path_ok(m.path@, root@, r@),
        },
{
    match &m.package {
        Some(p) => p.clone(),
        None => relative_path(&m.path, root),
    }
}

} // verus!
