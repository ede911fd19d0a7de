//! Deterministic archive planning.
//!
//! The archiver turns a staged tree into an ordered list of normalized
//! entries: metadata is normalized when the build must be reproducible,
//! and the list is sorted by path.  The sort is the reproducibility
//! linchpin: without a stable global order, two walks over the same
//! content would emit entries in different orders and produce different
//! archive bytes.

use crate::paths::{lemma_path_le_total, lemma_path_le_transitive, path_le};
use crate::stage::{EntryKind, EntryV, FsEntry, view_entries};
use vstd::multiset::Multiset;
use vstd::prelude::*;

verus! {

broadcast use {
    vstd::seq_lib::group_to_multiset_ensures,
    vstd::multiset::group_multiset_axioms,
};

/// The path order is reflexive.
pub proof fn lemma_path_le_refl(a: Seq<Seq<u8>>)
    ensures
        path_le(a, a),
    decreases a.len(),
{
    if a.len() > 0 {
        lemma_path_le_refl(a.skip(1));
    }
}

/// Entries in nondecreasing path order.
pub open spec fn entries_sorted(s: Seq<EntryV>) -> bool {
    forall|i: int, j: int| 0 <= i < j < s.len() ==> path_le(s[i].path, s[j].path)
}

/// The deterministic permission bits of a reproducible entry: a default
/// umask mode, propagating only whether the owner could execute the
/// entry — nothing machine- or run-specific.  Directories and symbolic
/// links (whose own permission bits always carry the owner-execute bit)
/// come out `0o755`; a regular file keeps `0o755` exactly when its
/// owner-execute bit was set, and is `0o644` otherwise.
pub open spec fn spec_norm_mode(kind: EntryKind, mode: u32) -> u32 {
    match kind {
        EntryKind::Dir => 0o755u32,
        EntryKind::Symlink => 0o755u32,
        EntryKind::File => if mode & 0o100 == 0o100 {
            0o755u32
        } else {
            0o644u32
        },
    }
}

/// A reproducible entry carries no modification time and no ownership,
/// and a deterministic mode; a non-reproducible entry keeps its metadata
/// as read from the filesystem.
pub open spec fn spec_normalize(e: EntryV, reproducible: bool) -> EntryV {
    if reproducible {
        EntryV {
            path: e.path,
            kind: e.kind,
            data: e.data,
            mode: spec_norm_mode(e.kind, e.mode),
            mtime: 0,
            uid: 0,
            gid: 0,
        }
    } else {
        e
    }
}

/// Header normalization over a whole list.
pub open spec fn normalize_all(s: Seq<EntryV>, reproducible: bool) -> Seq<EntryV> {
    s.map_values(|e: EntryV| spec_normalize(e, reproducible))
}

/// Normalizing twice is normalizing once.
pub proof fn lemma_normalize_idempotent(e: EntryV, reproducible: bool)
    ensures
        spec_normalize(spec_normalize(e, reproducible), reproducible) == spec_normalize(
            e,
            reproducible,
        ),
{
    assert(0o755u32 & 0o100u32 == 0o100u32) by (bit_vector);
    assert(0o644u32 & 0o100u32 != 0o100u32) by (bit_vector);
}

/// Executable form of [`spec_normalize`].
pub fn normalize_entry(e: FsEntry, reproducible: bool) -> (r: FsEntry)
    ensures
        r@ == spec_normalize(e@, reproducible),
{
    if reproducible {
        let mode = match e.kind {
            EntryKind::Dir => 0o755u32,
            EntryKind::Symlink => 0o755u32,
            EntryKind::File => if e.mode & 0o100 == 0o100 {
                0o755u32
            } else {
                0o644u32
            },
        };
        FsEntry { path: e.path, kind: e.kind, data: e.data, mode, mtime: 0, uid: 0, gid: 0 }
    } else {
        e
    }
}

/// Sorts entries by path.  Equal content in, equal content out: the
/// result is a permutation of the input in nondecreasing path order.
#[verifier::loop_isolation(false)]
pub fn sort_entries(input: Vec<FsEntry>) -> (r: Vec<FsEntry>)
    ensures
        view_entries(r@).to_multiset() == view_entries(input@).to_multiset(),
        entries_sorted(view_entries(r@)),
{
    let mut src = input;
    let mut out: Vec<FsEntry> = Vec::new();
    proof {
        assert(view_entries(out@) =~= Seq::<EntryV>::empty());
        assert(view_entries(out@).to_multiset().add(view_entries(src@).to_multiset()) =~=
            view_entries(input@).to_multiset());
    }
    while src.len() > 0
        invariant
            view_entries(out@).to_multiset().add(view_entries(src@).to_multiset())
                == view_entries(input@).to_multiset(),
            entries_sorted(view_entries(out@)),
            forall|a: int, b: int|
                0 <= a < out@.len() && 0 <= b < src@.len() ==> path_le(
                    view_entries(out@)[a].path,
                    view_entries(src@)[b].path,
                ),
        decreases src.len(),
    {
        let mut m: usize = 0;
        let mut t: usize = 1;
        proof {
            lemma_path_le_refl(view_entries(src@)[0].path);
        }
        while t < src.len()
            invariant
                0 <= m < src@.len(),
                m < t <= src@.len(),
                forall|j: int|
                    0 <= j < t ==> path_le(
                        view_entries(src@)[m as int].path,
                        view_entries(src@)[j].path,
                    ),
            decreases src.len() - t,
        {
            if !src[m].path.path_le_exec(&src[t].path) {
                proof {
                    lemma_path_le_total(
                        view_entries(src@)[m as int].path,
                        view_entries(src@)[t as int].path,
                    );
                    assert forall|j: int| 0 <= j < t + 1 implies path_le(
                        view_entries(src@)[t as int].path,
                        view_entries(src@)[j].path,
                    ) by {
                        if j < t {
                            lemma_path_le_transitive(
                                view_entries(src@)[t as int].path,
                                view_entries(src@)[m as int].path,
                                view_entries(src@)[j].path,
                            );
                        } else {
                            lemma_path_le_refl(view_entries(src@)[t as int].path);
                        }
                    }
                }
                m = t;
            }
            t = t + 1;
        }
        let ghost src_before = src@;
        let ghost out_before = out@;
        let e = src.remove(m);
        out.push(e);
        proof {
            let ghost ev = e@;
            assert(ev == view_entries(src_before)[m as int]);
            assert(view_entries(src@) =~= view_entries(src_before).remove(m as int));
            assert(view_entries(out@) =~= view_entries(out_before).push(ev));
            assert(view_entries(src_before).remove(m as int).to_multiset() =~= view_entries(
                src_before,
            ).to_multiset().remove(ev));
            assert(view_entries(out_before).push(ev).to_multiset() =~= view_entries(
                out_before,
            ).to_multiset().insert(ev));
            assert(view_entries(src_before).to_multiset().count(ev) > 0);
            assert(view_entries(out@).to_multiset().add(view_entries(src@).to_multiset()) =~=
                view_entries(out_before).to_multiset().add(
                view_entries(src_before).to_multiset(),
            ));
        }
    }
    proof {
        assert(view_entries(src@) =~= Seq::<EntryV>::empty());
        assert(view_entries(src@).to_multiset() =~= Multiset::<EntryV>::empty());
        assert(view_entries(out@).to_multiset().add(Multiset::<EntryV>::empty()) =~= view_entries(
            out@,
        ).to_multiset());
    }
    out
}

/// Builds the archive plan for a staged tree: every entry normalized
/// under the reproducibility policy, then the whole list brought into
/// nondecreasing path order.
#[verifier::loop_isolation(false)]
pub fn plan_archive(staged: Vec<FsEntry>, reproducible: bool) -> (r: Vec<FsEntry>)
    ensures
        view_entries(r@).to_multiset() == normalize_all(
            view_entries(staged@),
            reproducible,
        ).to_multiset(),
        entries_sorted(view_entries(r@)),
{
    let mut normalized: Vec<FsEntry> = Vec::new();
    let mut i: usize = 0;
    while i < staged.len()
        invariant
            0 <= i <= staged@.len(),
            normalized@.len() == i,
            forall|j: int|
                0 <= j < i ==> view_entries(normalized@)[j] == spec_normalize(
                    view_entries(staged@)[j],
                    reproducible,
                ),
        decreases staged.len() - i,
    {
        let ne = normalize_entry(crate::stage::clone_entry(&staged[i]), reproducible);
        proof {
            assert(ne@ == spec_normalize(view_entries(staged@)[i as int], reproducible));
        }
        let ghost before = normalized@;
        normalized.push(ne);
        proof {
            assert forall|j: int| 0 <= j < i + 1 implies view_entries(normalized@)[j]
                == spec_normalize(view_entries(staged@)[j], reproducible) by {
                if j < i {
                    assert(view_entries(before)[j] == spec_normalize(
                        view_entries(staged@)[j],
                        reproducible,
                    ));
                    assert(normalized@[j] == before[j]);
                } else {
                    assert(view_entries(normalized@)[j] == ne@);
                }
            }
        }
        i = i + 1;
    }
    proof {
        assert(view_entries(normalized@) =~= normalize_all(view_entries(staged@), reproducible));
    }
    sort_entries(normalized)
}

} // verus!
