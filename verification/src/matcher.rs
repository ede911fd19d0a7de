//! Path matching: hidden/VCS ignore policy and exclusion rules.
//!
//! A filtered copy consults two independent predicates for every entry it
//! visits: whether the entry's name is ignored under the hidden-file and
//! VCS-metadata policies, and whether the entry's path falls under an
//! exclusion rule.

use crate::paths::{RelPath, is_path_prefix};
use vstd::prelude::*;

verus! {

/// True iff `name` names version-control metadata: its first four bytes
/// spell `.git`.
pub open spec fn spec_is_vcs_name(name: Seq<u8>) -> bool {
    name.len() >= 4 && name[0] == 0x2eu8 && name[1] == 0x67u8 && name[2] == 0x69u8 && name[3]
        == 0x74u8
}

/// True iff `name` is a hidden (dot-prefixed) file name.
pub open spec fn spec_is_hidden_name(name: Seq<u8>) -> bool {
    name.len() >= 1 && name[0] == 0x2eu8
}

/// Decides whether a directory entry is skipped during a filtered copy.
///
/// The traversal root itself is never skipped.  A name that starts with
/// the VCS metadata prefix is governed by `ignore_vcs` alone; any other
/// dot-prefixed name is governed by `ignore_hidden`.  The two policies
/// are independent axes, not a combined condition.
pub open spec fn spec_is_ignored(
    name: Seq<u8>,
    is_root: bool,
    ignore_hidden: bool,
    ignore_vcs: bool,
) -> bool {
    if is_root {
        false
    } else if spec_is_vcs_name(name) {
        ignore_vcs
    } else if spec_is_hidden_name(name) {
        ignore_hidden
    } else {
        false
    }
}

/// A relative path is dropped by a filtered copy exactly when one of its
/// components is ignored; the copy's root itself has no components here
/// and is therefore never dropped.
pub open spec fn spec_rel_ignored(path: Seq<Seq<u8>>, ignore_hidden: bool, ignore_vcs: bool) -> bool {
    exists|i: int|
        0 <= i < path.len() && spec_is_ignored(path[i], false, ignore_hidden, ignore_vcs)
}

/// A path is excluded exactly when it equals, or lies below, one of the
/// exclusion rules.  Rules and path must be in the same canonical form.
pub open spec fn spec_excluded(path: Seq<Seq<u8>>, excludes: Seq<Seq<Seq<u8>>>) -> bool {
    exists|i: int| 0 <= i < excludes.len() && is_path_prefix(excludes[i], path)
}

/// The component-list views of a list of paths.
pub open spec fn view_paths(v: Seq<RelPath>) -> Seq<Seq<Seq<u8>>> {
    Seq::new(v.len(), |i: int| v[i]@)
}

/// Executable form of [`spec_is_ignored`].
pub fn is_ignored(name: &Vec<u8>, is_root: bool, ignore_hidden: bool, ignore_vcs: bool) -> (r:
    bool)
    ensures
        r == spec_is_ignored(name@, is_root, ignore_hidden, ignore_vcs),
{
    if is_root {
        false
    } else if name.len() >= 4 && name[0] == 0x2eu8 && name[1] == 0x67u8 && name[2] == 0x69u8
        && name[3] == 0x74u8 {
        ignore_vcs
    } else if name.len() >= 1 && name[0] == 0x2eu8 {
        ignore_hidden
    } else {
        false
    }
}

/// Executable form of [`spec_rel_ignored`].
pub fn rel_ignored(path: &RelPath, ignore_hidden: bool, ignore_vcs: bool) -> (r: bool)
    ensures
        r == spec_rel_ignored(path@, ignore_hidden, ignore_vcs),
{
    let mut i: usize = 0;
    while i < path.parts.len()
        invariant
            0 <= i <= path.parts.len(),
            forall|j: int|
                0 <= j < i ==> !spec_is_ignored(path@[j], false, ignore_hidden, ignore_vcs),
        decreases path.parts.len() - i,
    {
        if is_ignored(&path.parts[i], false, ignore_hidden, ignore_vcs) {
            proof {
                assert(spec_is_ignored(path@[i as int], false, ignore_hidden, ignore_vcs));
            }
            return true;
        }
        i = i + 1;
    }
    false
}

/// Executable form of [`spec_excluded`].
pub fn is_excluded(path: &RelPath, excludes: &Vec<RelPath>) -> (r: bool)
    ensures
        r == spec_excluded(path@, view_paths(excludes@)),
{
    let mut i: usize = 0;
    while i < excludes.len()
        invariant
            0 <= i <= excludes.len(),
            forall|j: int| 0 <= j < i ==> !is_path_prefix(view_paths(excludes@)[j], path@),
        decreases excludes.len() - i,
    {
        if path.starts_with(&excludes[i]) {
            proof {
                assert(is_path_prefix(view_paths(excludes@)[i as int], path@));
            }
            return true;
        }
        i = i + 1;
    }
    false
}

} // verus!
