//! The guarantees the archiver gives as theorems.
//!
//! The central one is reproducibility: however a staged tree is walked,
//! planning the archive yields the same entry list, entry for entry, so
//! the serialized bytes cannot depend on traversal order.  Alongside it
//! stand the round-trip law (planning a plan changes nothing) and the
//! self-copy guard (the main copy never stages the staging tree itself).

use crate::archive::{entries_sorted, normalize_all, spec_normalize};
use crate::paths::{lemma_path_le_antisymmetric, path_le};
use crate::stage::{
    EntryV, StagedV, AddlV, addl_lists, addl_warns, has_path, include_lists, include_warns,
    keep_main, pass_list, rebase, spec_assemble, spec_put, spec_put_all, staged_list, unique_paths,
};
use vstd::prelude::*;

verus! {

broadcast use {
    vstd::seq_lib::group_to_multiset_ensures,
    vstd::multiset::group_multiset_axioms,
};

/// Entries with pairwise distinct paths are pairwise distinct values.
pub proof fn lemma_unique_paths_no_duplicates(x: Seq<EntryV>)
    requires
        unique_paths(x),
    ensures
        x.no_duplicates(),
{
    assert forall|i: int, j: int|
        0 <= i < x.len() && 0 <= j < x.len() && i != j implies x[i] != x[j] by {
        assert(x[i].path != x[j].path);
    }
}

/// Path uniqueness carries over to any permutation.
pub proof fn lemma_unique_transfer(x: Seq<EntryV>, y: Seq<EntryV>)
    requires
        unique_paths(x),
        x.to_multiset() == y.to_multiset(),
    ensures
        unique_paths(y),
{
    lemma_unique_paths_no_duplicates(x);
    x.lemma_multiset_has_no_duplicates();
    assert forall|i: int, j: int|
        0 <= i < y.len() && 0 <= j < y.len() && i != j implies y[i].path != y[j].path by {
        if y[i].path == y[j].path {
            assert(y.contains(y[i]));
            assert(y.contains(y[j]));
            assert(x.to_multiset().count(y[i]) > 0);
            assert(x.to_multiset().count(y[j]) > 0);
            assert(x.contains(y[i]));
            assert(x.contains(y[j]));
            if y[i] == y[j] {
                let yr = y.remove(i);
                assert(yr.to_multiset() =~= y.to_multiset().remove(y[i]));
                if j < i {
                    assert(yr[j] == y[j]);
                    assert(yr.contains(y[i]));
                } else {
                    assert(yr[j - 1] == y[j]);
                    assert(yr.contains(y[i]));
                }
                assert(yr.to_multiset().count(y[i]) > 0);
                assert(y.to_multiset().count(y[i]) >= 2);
                assert(x.to_multiset().count(y[i]) >= 2);
                assert(false);
            } else {
                let a = choose|a: int| 0 <= a < x.len() && x[a] == y[i];
                let b = choose|b: int| 0 <= b < x.len() && x[b] == y[j];
                assert(a != b);
                assert(x[a].path == x[b].path);
                assert(false);
            }
        }
    }
}

/// Two path-sorted lists with distinct paths and the same entries are
/// the same list.
pub proof fn lemma_sorted_unique_paths(x: Seq<EntryV>, y: Seq<EntryV>)
    requires
        entries_sorted(x),
        entries_sorted(y),
        unique_paths(x),
        x.to_multiset() == y.to_multiset(),
    ensures
        x == y,
    decreases x.len(),
{
    lemma_unique_transfer(x, y);
    assert(x.to_multiset().len() == x.len());
    assert(y.to_multiset().len() == y.len());
    if x.len() == 0 {
        assert(x =~= y);
    } else {
        assert(y.contains(y[0]));
        assert(x.to_multiset().count(y[0]) > 0);
        assert(x.contains(y[0]));
        let i = choose|i: int| 0 <= i < x.len() && x[i] == y[0];
        assert(x.contains(x[0]));
        assert(y.to_multiset().count(x[0]) > 0);
        assert(y.contains(x[0]));
        let j = choose|j: int| 0 <= j < y.len() && y[j] == x[0];
        if i == 0 {
        } else {
            assert(path_le(x[0].path, x[i].path));
            if j == 0 {
            } else {
                assert(path_le(y[0].path, y[j].path));
            }
            lemma_path_le_antisymmetric(x[0].path, y[0].path);
            assert(x[0].path == x[i].path);
            assert(false);
        }
        assert(x[0] == y[0]);
        let xr = x.remove(0);
        let yr = y.remove(0);
        assert(xr.to_multiset() =~= x.to_multiset().remove(x[0]));
        assert(yr.to_multiset() =~= y.to_multiset().remove(y[0]));
        assert(entries_sorted(xr)) by {
            assert forall|a: int, b: int| 0 <= a < b < xr.len() implies path_le(
                xr[a].path,
                xr[b].path,
            ) by {
                assert(xr[a] == x[a + 1]);
                assert(xr[b] == x[b + 1]);
            }
        }
        assert(entries_sorted(yr)) by {
            assert forall|a: int, b: int| 0 <= a < b < yr.len() implies path_le(
                yr[a].path,
                yr[b].path,
            ) by {
                assert(yr[a] == y[a + 1]);
                assert(yr[b] == y[b + 1]);
            }
        }
        assert(unique_paths(xr)) by {
            assert forall|a: int, b: int|
                0 <= a < xr.len() && 0 <= b < xr.len() && a != b implies xr[a].path
                != xr[b].path by {
                assert(xr[a] == x[a + 1]);
                assert(xr[b] == x[b + 1]);
            }
        }
        lemma_sorted_unique_paths(xr, yr);
        assert(x =~= seq![x[0]] + xr);
        assert(y =~= seq![y[0]] + yr);
    }
}

/// Mapping a function over permutations gives permutations.
pub proof fn lemma_map_multiset(s1: Seq<EntryV>, s2: Seq<EntryV>, f: spec_fn(EntryV) -> EntryV)
    requires
        s1.to_multiset() == s2.to_multiset(),
    ensures
        s1.map_values(f).to_multiset() == s2.map_values(f).to_multiset(),
    decreases s1.len(),
{
    assert(s1.to_multiset().len() == s1.len());
    assert(s2.to_multiset().len() == s2.len());
    if s1.len() == 0 {
        assert(s1.map_values(f) =~= s2.map_values(f));
    } else {
        let x = s1[0];
        assert(s1.contains(x));
        assert(s2.to_multiset().count(x) > 0);
        assert(s2.contains(x));
        let j = choose|j: int| 0 <= j < s2.len() && s2[j] == x;
        let r1 = s1.remove(0);
        let r2 = s2.remove(j);
        assert(r1.to_multiset() =~= s1.to_multiset().remove(x));
        assert(r2.to_multiset() =~= s2.to_multiset().remove(x));
        lemma_map_multiset(r1, r2, f);
        assert(r1.map_values(f) =~= s1.map_values(f).remove(0));
        assert(r2.map_values(f) =~= s2.map_values(f).remove(j));
        let m1 = s1.map_values(f).to_multiset();
        let m2 = s2.map_values(f).to_multiset();
        assert(s1.map_values(f)[0] == f(x));
        assert(s2.map_values(f)[j] == f(x));
        assert(s1.map_values(f).remove(0).to_multiset() =~= m1.remove(f(x)));
        assert(s2.map_values(f).remove(j).to_multiset() =~= m2.remove(f(x)));
        assert(m1.remove(f(x)) == m2.remove(f(x)));
        assert(s1.map_values(f).contains(f(x)));
        assert(m1.count(f(x)) > 0);
        assert(s2.map_values(f).contains(f(x)));
        assert(m2.count(f(x)) > 0);
        assert forall|b: EntryV| m1.count(b) == m2.count(b) by {
            if b == f(x) {
                assert(m1.remove(f(x)).count(b) == m1.count(b) - 1);
                assert(m2.remove(f(x)).count(b) == m2.count(b) - 1);
            } else {
                assert(m1.remove(f(x)).count(b) == m1.count(b));
                assert(m2.remove(f(x)).count(b) == m2.count(b));
            }
        }
        assert(m1 =~= m2);
    }
}

/// Reproducibility of the archive plan: two walks of the same staged
/// tree, in whatever orders the filesystem hands the entries out, yield
/// the same plan, entry for entry.  Since the tar stream is a function
/// of the plan alone, the output bytes cannot depend on walk order.
pub proof fn lemma_plan_reproducible(
    walk1: Seq<EntryV>,
    walk2: Seq<EntryV>,
    reproducible: bool,
    plan1: Seq<EntryV>,
    plan2: Seq<EntryV>,
)
    requires
        unique_paths(walk1),
        walk1.to_multiset() == walk2.to_multiset(),
        plan1.to_multiset() == normalize_all(walk1, reproducible).to_multiset(),
        entries_sorted(plan1),
        plan2.to_multiset() == normalize_all(walk2, reproducible).to_multiset(),
        entries_sorted(plan2),
    ensures
        plan1 == plan2,
{
    let f = |e: EntryV| spec_normalize(e, reproducible);
    lemma_map_multiset(walk1, walk2, f);
    assert(normalize_all(walk1, reproducible) =~= walk1.map_values(f));
    assert(normalize_all(walk2, reproducible) =~= walk2.map_values(f));
    let n1 = normalize_all(walk1, reproducible);
    assert(unique_paths(n1)) by {
        assert forall|i: int, j: int|
            0 <= i < n1.len() && 0 <= j < n1.len() && i != j implies n1[i].path != n1[j].path by {
            assert(n1[i].path == walk1[i].path);
            assert(n1[j].path == walk1[j].path);
        }
    }
    lemma_unique_transfer(n1, plan1);
    lemma_sorted_unique_paths(plan1, plan2);
}

/// Round trip: the entries a reproducible plan lists are already in
/// normal form, so extracting them and planning again reproduces the
/// plan exactly — and with it the archive bytes.
pub proof fn lemma_plan_round_trip(walk: Seq<EntryV>, plan1: Seq<EntryV>, plan2: Seq<EntryV>)
    requires
        unique_paths(walk),
        plan1.to_multiset() == normalize_all(walk, true).to_multiset(),
        entries_sorted(plan1),
        plan2.to_multiset() == normalize_all(plan1, true).to_multiset(),
        entries_sorted(plan2),
    ensures
        plan2 == plan1,
{
    let n = normalize_all(walk, true);
    assert(unique_paths(n)) by {
        assert forall|i: int, j: int|
            0 <= i < n.len() && 0 <= j < n.len() && i != j implies n[i].path != n[j].path by {
            assert(n[i].path == walk[i].path);
            assert(n[j].path == walk[j].path);
        }
    }
    lemma_unique_transfer(n, plan1);
    assert forall|i: int| 0 <= i < plan1.len() implies spec_normalize(plan1[i], true)
        == plan1[i] by {
        assert(plan1.contains(plan1[i]));
        assert(n.to_multiset().count(plan1[i]) > 0);
        assert(n.contains(plan1[i]));
        let k = choose|k: int| 0 <= k < n.len() && n[k] == plan1[i];
        assert(n[k] == spec_normalize(walk[k], true));
        crate::archive::lemma_normalize_idempotent(walk[k], true);
    }
    assert(normalize_all(plan1, true) =~= plan1);
    lemma_sorted_unique_paths(plan1, plan2);
}

} // verus!

verus! {

/// An entry of one pass comes from one admitted source entry.
pub proof fn lemma_pass_list_contains(
    src: Seq<EntryV>,
    keep: spec_fn(EntryV) -> bool,
    prefix: Seq<Seq<u8>>,
    e: EntryV,
)
    ensures
        crate::stage::pass_list(src, keep, prefix).contains(e) <==> exists|i: int|
            0 <= i < src.len() && #[trigger] keep(src[i]) && e == crate::stage::rebase(
                src[i],
                prefix,
            ),
    decreases src.len(),
{
    if src.len() == 0 {
    } else {
        lemma_pass_list_contains(src.skip(1), keep, prefix, e);
        let rest = pass_list(src.skip(1), keep, prefix);
        if keep(src[0]) {
            let whole = seq![rebase(src[0], prefix)] + rest;
            assert(pass_list(src, keep, prefix) == whole);
            if whole.contains(e) {
                let i = choose|i: int| 0 <= i < whole.len() && whole[i] == e;
                if i == 0 {
                    assert(keep(src[0]) && e == rebase(src[0], prefix));
                } else {
                    assert(rest[i - 1] == e);
                    assert(rest.contains(e));
                    let k = choose|k: int|
                        0 <= k < src.skip(1).len() && #[trigger] keep(src.skip(1)[k]) && e
                            == rebase(src.skip(1)[k], prefix);
                    assert(src.skip(1)[k] == src[k + 1]);
                    assert(keep(src[k + 1]) && e == rebase(src[k + 1], prefix));
                }
            }
            if exists|i: int|
                0 <= i < src.len() && #[trigger] keep(src[i]) && e == rebase(src[i], prefix) {
                let i = choose|i: int|
                    0 <= i < src.len() && #[trigger] keep(src[i]) && e == rebase(src[i], prefix);
                if i == 0 {
                    assert(whole[0] == e);
                    assert(whole.contains(e));
                } else {
                    assert(src.skip(1)[i - 1] == src[i]);
                    assert(rest.contains(e));
                    let k = choose|k: int| 0 <= k < rest.len() && rest[k] == e;
                    assert(whole[k + 1] == e);
                    assert(whole.contains(e));
                }
            }
        } else {
            assert(pass_list(src, keep, prefix) == rest);
            if rest.contains(e) {
                let k = choose|k: int|
                    0 <= k < src.skip(1).len() && #[trigger] keep(src.skip(1)[k]) && e == rebase(
                        src.skip(1)[k],
                        prefix,
                    );
                assert(src.skip(1)[k] == src[k + 1]);
            }
            if exists|i: int|
                0 <= i < src.len() && #[trigger] keep(src[i]) && e == rebase(src[i], prefix) {
                let i = choose|i: int|
                    0 <= i < src.len() && #[trigger] keep(src[i]) && e == rebase(src[i], prefix);
                assert(i != 0);
                assert(src.skip(1)[i - 1] == src[i]);
            }
        }
    }
}

/// Whatever the fold's result holds was either there before or written
/// by the fold.
pub proof fn lemma_put_all_contains(s: crate::stage::StagedV, es: Seq<EntryV>, x: EntryV)
    requires
        unique_paths(s.entries),
        crate::stage::spec_put_all(s, es).entries.contains(x),
    ensures
        es.contains(x) || s.entries.contains(x),
    decreases es.len(),
{
    if es.len() == 0 {
    } else {
        crate::stage::lemma_put_properties(s, es[0]);
        lemma_put_all_contains(spec_put(s, es[0]), es.skip(1), x);
        if es.skip(1).contains(x) {
            let k = choose|k: int| 0 <= k < es.skip(1).len() && es.skip(1)[k] == x;
            assert(es[k + 1] == x);
        } else {
            assert(spec_put(s, es[0]).entries.contains(x));
            if x.path == es[0].path {
                // the only occupant of that path after the write is the
                // written entry itself
                let after = spec_put(s, es[0]).entries;
                let i = choose|i: int| 0 <= i < after.len() && after[i] == x;
                let j = choose|j: int| 0 <= j < after.len() && after[j] == es[0];
                if i != j {
                    assert(after[i].path != after[j].path);
                    assert(false);
                }
                assert(x == es[0]);
                assert(es[0] == es[0] && es.contains(es[0]));
            }
        }
    }
}

/// Self-copy guard, and exclusion without inclusion: when a request has
/// no include paths and no additional paths, every staged entry comes
/// from a target entry that no ignore policy drops, that no exclusion
/// rule covers, and that does not lie at or below the staging tree's own
/// location.  In particular the staging tree is never staged into
/// itself, and nothing under an excluded path survives.
pub proof fn lemma_main_copy_provenance(
    target: Seq<EntryV>,
    excludes: Seq<Seq<Seq<u8>>>,
    ignore_hidden: bool,
    ignore_vcs: bool,
    marker: Option<Seq<Seq<u8>>>,
    prefix: Seq<Seq<u8>>,
    x: EntryV,
)
    requires
        crate::stage::spec_assemble(
            target,
            Seq::empty(),
            Seq::empty(),
            excludes,
            ignore_hidden,
            ignore_vcs,
            marker,
            prefix,
        ).entries.contains(x),
    ensures
        exists|i: int|
            {
                &&& 0 <= i < target.len()
                &&& x == #[trigger] crate::stage::rebase(target[i], prefix)
                &&& !crate::matcher::spec_rel_ignored(target[i].path, ignore_hidden, ignore_vcs)
                &&& !crate::matcher::spec_excluded(target[i].path, excludes)
                &&& !crate::stage::marker_hit(target[i].path, marker)
            },
{
    let keep = keep_main(excludes, ignore_hidden, ignore_vcs, marker);
    let main = pass_list(target, keep, prefix);
    assert(addl_lists(Seq::empty(), ignore_hidden, ignore_vcs, prefix) == Seq::<EntryV>::empty());
    assert(include_lists(target, Seq::empty(), ignore_hidden, ignore_vcs, marker, prefix) == Seq::<
        EntryV,
    >::empty());
    assert(staged_list(
        target,
        Seq::empty(),
        Seq::empty(),
        excludes,
        ignore_hidden,
        ignore_vcs,
        marker,
        prefix,
    ) =~= main);
    let s0 = StagedV {
        entries: Seq::empty(),
        warnings: addl_warns(Seq::empty(), excludes) + include_warns(Seq::empty(), excludes),
    };
    assert(spec_assemble(
        target,
        Seq::empty(),
        Seq::empty(),
        excludes,
        ignore_hidden,
        ignore_vcs,
        marker,
        prefix,
    ).entries == spec_put_all(s0, main).entries);
    lemma_put_all_contains(s0, main, x);
    assert(main.contains(x));
    lemma_pass_list_contains(target, keep, prefix, x);
    let i = choose|i: int|
        0 <= i < target.len() && #[trigger] keep(target[i]) && x == rebase(target[i], prefix);
    assert(keep(target[i]));
    assert(!crate::matcher::spec_rel_ignored(target[i].path, ignore_hidden, ignore_vcs));
    assert(x == rebase(target[i], prefix));
}

} // verus!

verus! {

/// Idempotence under reproducibility, end to end: run one and the same
/// archive request twice over the same logical directory tree — each run
/// walking the tree and each additional source in whatever order the
/// filesystem hands entries out — and the two runs build identical tar
/// streams, byte for byte, and identical warnings.
pub proof fn lemma_roast_reproducible(
    i1: crate::roast::PipeIn,
    i2: crate::roast::PipeIn,
    reproducible: bool,
    b1: Seq<u8>,
    w1: Seq<crate::stage::WarnV>,
    b2: Seq<u8>,
    w2: Seq<crate::stage::WarnV>,
)
    requires
        unique_paths(i1.target),
        i1.target.to_multiset() == i2.target.to_multiset(),
        i1.addl.len() == i2.addl.len(),
        forall|k: int|
            0 <= k < i1.addl.len() ==> {
                &&& (#[trigger] i1.addl[k]).dest == i2.addl[k].dest
                &&& unique_paths(i1.addl[k].entries)
                &&& i1.addl[k].entries.to_multiset() == i2.addl[k].entries.to_multiset()
            },
        i1.incl == i2.incl,
        i1.excl == i2.excl,
        i1.hidden == i2.hidden,
        i1.vcs == i2.vcs,
        i1.marker == i2.marker,
        i1.prefix == i2.prefix,
        crate::roast::spec_tar_pipeline(i1, reproducible, b1, w1),
        crate::roast::spec_tar_pipeline(i2, reproducible, b2, w2),
    ensures
        b1 == b2,
        w1 == w2,
{
    let (snap1, asnap1, plan1): (Seq<EntryV>, Seq<crate::stage::AddlV>, Seq<EntryV>) = choose|
        snap: Seq<EntryV>,
        asnap: Seq<crate::stage::AddlV>,
        plan: Seq<EntryV>,
    | crate::roast::spec_tar_stages(i1, reproducible, snap, asnap, plan, b1, w1);
    let (snap2, asnap2, plan2): (Seq<EntryV>, Seq<crate::stage::AddlV>, Seq<EntryV>) = choose|
        snap: Seq<EntryV>,
        asnap: Seq<crate::stage::AddlV>,
        plan: Seq<EntryV>,
    | crate::roast::spec_tar_stages(i2, reproducible, snap, asnap, plan, b2, w2);
    // the two stable-order snapshots of the target are the same list
    lemma_unique_transfer(i1.target, snap1);
    lemma_sorted_unique_paths(snap1, snap2);
    // so are the snapshots of each additional source
    assert forall|k: int| 0 <= k < asnap1.len() implies asnap1[k] == asnap2[k] by {
        assert(i1.addl[k].dest == i2.addl[k].dest);
        lemma_unique_transfer(i1.addl[k].entries, asnap1[k].entries);
        lemma_sorted_unique_paths(asnap1[k].entries, asnap2[k].entries);
        assert(asnap1[k].dest == asnap2[k].dest);
    }
    assert(asnap1 =~= asnap2);
    // hence the assembled staging trees are equal outright
    let out1 = spec_assemble(
        snap1,
        asnap1,
        i1.incl,
        i1.excl,
        i1.hidden,
        i1.vcs,
        i1.marker,
        i1.prefix,
    );
    let out2 = spec_assemble(
        snap2,
        asnap2,
        i2.incl,
        i2.excl,
        i2.hidden,
        i2.vcs,
        i2.marker,
        i2.prefix,
    );
    assert(out1 == out2);
    assert(w1 == w2);
    // the two plans sort the same content
    assert(unique_paths(Seq::<EntryV>::empty()));
    crate::stage::lemma_put_all_unique(
        StagedV {
            entries: Seq::empty(),
            warnings: addl_warns(asnap1, i1.excl) + include_warns(i1.incl, i1.excl),
        },
        staged_list(
            snap1,
            asnap1,
            i1.incl,
            i1.excl,
            i1.hidden,
            i1.vcs,
            i1.marker,
            i1.prefix,
        ),
    );
    assert(unique_paths(out1.entries));
    lemma_plan_reproducible(out1.entries, out2.entries, reproducible, plan1, plan2);
    assert(b1 == b2);
}

/// Idempotence under reproducibility, through the codec: two runs of
/// one and the same archive request over the same logical tree, encoded
/// under one codec, produce byte-identical artifacts and identical
/// warnings.  The tar streams agree by [`lemma_roast_reproducible`], and
/// each codec's output is a function of its input stream alone, so the
/// identity survives compression.
pub proof fn lemma_artifact_reproducible(
    i1: crate::roast::PipeIn,
    i2: crate::roast::PipeIn,
    reproducible: bool,
    codec: crate::common::Compression,
    o1: Seq<u8>,
    w1: Seq<crate::stage::WarnV>,
    o2: Seq<u8>,
    w2: Seq<crate::stage::WarnV>,
)
    requires
        unique_paths(i1.target),
        i1.target.to_multiset() == i2.target.to_multiset(),
        i1.addl.len() == i2.addl.len(),
        forall|k: int|
            0 <= k < i1.addl.len() ==> {
                &&& (#[trigger] i1.addl[k]).dest == i2.addl[k].dest
                &&& unique_paths(i1.addl[k].entries)
                &&& i1.addl[k].entries.to_multiset() == i2.addl[k].entries.to_multiset()
            },
        i1.incl == i2.incl,
        i1.excl == i2.excl,
        i1.hidden == i2.hidden,
        i1.vcs == i2.vcs,
        i1.marker == i2.marker,
        i1.prefix == i2.prefix,
        crate::roast::spec_roast_pipeline(i1, reproducible, codec, o1, w1),
        crate::roast::spec_roast_pipeline(i2, reproducible, codec, o2, w2),
    ensures
        o1 == o2,
        w1 == w2,
{
    let s1 = choose|s: Seq<u8>|
        crate::roast::spec_tar_pipeline(i1, reproducible, s, w1) && o1
            == crate::compress::spec_artifact(codec, s);
    let s2 = choose|s: Seq<u8>|
        crate::roast::spec_tar_pipeline(i2, reproducible, s, w2) && o2
            == crate::compress::spec_artifact(codec, s);
    lemma_roast_reproducible(i1, i2, reproducible, s1, w1, s2, w2);
}

} // verus!

verus! {

/// Two entries naming the same content, read at different times or
/// under different owners, normalize identically in reproducible mode.
pub open spec fn same_content(a: EntryV, b: EntryV) -> bool {
    a.path == b.path && a.kind == b.kind && a.data == b.data
}

/// Reproducible mode masks metadata drift: two walks reading the same
/// paths, kinds and contents — however their modification times, owners
/// and permission details drifted between the reads — plan the same
/// archive.  Without reproducible mode the drifted metadata reaches the
/// headers, which is why such runs may differ.
pub proof fn lemma_reproducible_masks_metadata(
    walk1: Seq<EntryV>,
    walk2: Seq<EntryV>,
    plan1: Seq<EntryV>,
    plan2: Seq<EntryV>,
)
    requires
        unique_paths(walk1),
        walk1.len() == walk2.len(),
        forall|i: int| 0 <= i < walk1.len() ==> same_content(walk1[i], walk2[i]),
        forall|i: int|
            0 <= i < walk1.len() ==> (#[trigger] walk1[i]).mode & 0o100 == walk2[i].mode & 0o100,
        plan1.to_multiset() == normalize_all(walk1, true).to_multiset(),
        entries_sorted(plan1),
        plan2.to_multiset() == normalize_all(walk2, true).to_multiset(),
        entries_sorted(plan2),
    ensures
        plan1 == plan2,
{
    assert(normalize_all(walk1, true) =~= normalize_all(walk2, true)) by {
        assert forall|i: int| 0 <= i < walk1.len() implies normalize_all(walk1, true)[i]
            == normalize_all(walk2, true)[i] by {
            assert(normalize_all(walk1, true)[i] == spec_normalize(walk1[i], true));
            assert(normalize_all(walk2, true)[i] == spec_normalize(walk2[i], true));
            assert(same_content(walk1[i], walk2[i]));
        }
    }
    let n = normalize_all(walk1, true);
    assert(unique_paths(n)) by {
        assert forall|i: int, j: int|
            0 <= i < n.len() && 0 <= j < n.len() && i != j implies n[i].path != n[j].path by {
            assert(n[i].path == walk1[i].path);
            assert(n[j].path == walk1[j].path);
        }
    }
    lemma_unique_transfer(n, plan1);
    lemma_sorted_unique_paths(plan1, plan2);
}

} // verus!

verus! {

/// Membership in a concatenation is membership in a part.
pub proof fn lemma_seq_add_contains(a: Seq<EntryV>, b: Seq<EntryV>, x: EntryV)
    ensures
        (a + b).contains(x) == (a.contains(x) || b.contains(x)),
{
    if (a + b).contains(x) {
        let i = choose|i: int| 0 <= i < (a + b).len() && (a + b)[i] == x;
        if i < a.len() {
            assert(a[i] == x);
        } else {
            assert(b[i - a.len()] == x);
        }
    }
    if a.contains(x) {
        let i = choose|i: int| 0 <= i < a.len() && a[i] == x;
        assert((a + b)[i] == x);
    }
    if b.contains(x) {
        let i = choose|i: int| 0 <= i < b.len() && b[i] == x;
        assert((a + b)[a.len() + i] == x);
    }
}

/// A path is occupied after the fold exactly when it was occupied
/// before or the fold wrote to it.
pub proof fn lemma_put_all_has_path(s: StagedV, es: Seq<EntryV>, p: Seq<Seq<u8>>)
    requires
        unique_paths(s.entries),
    ensures
        has_path(spec_put_all(s, es).entries, p) == (has_path(s.entries, p) || has_path(es, p)),
    decreases es.len(),
{
    if es.len() == 0 {
        assert(!has_path(es, p));
    } else {
        crate::stage::lemma_put_properties(s, es[0]);
        lemma_put_all_has_path(spec_put(s, es[0]), es.skip(1), p);
        assert(has_path(es, p) == (es[0].path == p || has_path(es.skip(1), p))) by {
            if has_path(es, p) {
                let i = choose|i: int| 0 <= i < es.len() && es[i].path == p;
                if i > 0 {
                    assert(es.skip(1)[i - 1].path == p);
                }
            }
            if has_path(es.skip(1), p) {
                let i = choose|i: int| 0 <= i < es.skip(1).len() && es.skip(1)[i].path == p;
                assert(es[i + 1].path == p);
            }
        }
    }
}

/// The entries of the additional passes come from admitted entries of
/// the additional sets.
pub proof fn lemma_addl_lists_contains(
    addl: Seq<AddlV>,
    ignore_hidden: bool,
    ignore_vcs: bool,
    prefix: Seq<Seq<u8>>,
    x: EntryV,
)
    requires
        addl_lists(addl, ignore_hidden, ignore_vcs, prefix).contains(x),
    ensures
        exists|k: int, i: int|
            {
                &&& 0 <= k < addl.len()
                &&& 0 <= i < addl[k].entries.len()
                &&& crate::stage::keep_additional(ignore_hidden, ignore_vcs)(
                    #[trigger] addl[k].entries[i],
                )
                &&& x == rebase(addl[k].entries[i], prefix + addl[k].dest)
            },
    decreases addl.len(),
{
    let head = pass_list(
        addl[0].entries,
        crate::stage::keep_additional(ignore_hidden, ignore_vcs),
        prefix + addl[0].dest,
    );
    let tail = addl_lists(addl.skip(1), ignore_hidden, ignore_vcs, prefix);
    lemma_seq_add_contains(head, tail, x);
    if head.contains(x) {
        lemma_pass_list_contains(
            addl[0].entries,
            crate::stage::keep_additional(ignore_hidden, ignore_vcs),
            prefix + addl[0].dest,
            x,
        );
        let i = choose|i: int|
            0 <= i < addl[0].entries.len() && #[trigger] crate::stage::keep_additional(
                ignore_hidden,
                ignore_vcs,
            )(addl[0].entries[i]) && x == rebase(addl[0].entries[i], prefix + addl[0].dest);
        assert(crate::stage::keep_additional(ignore_hidden, ignore_vcs)(addl[0].entries[i]));
    } else {
        lemma_addl_lists_contains(addl.skip(1), ignore_hidden, ignore_vcs, prefix, x);
        let (k, i): (int, int) = choose|k: int, i: int|
            {
                &&& 0 <= k < addl.skip(1).len()
                &&& 0 <= i < addl.skip(1)[k].entries.len()
                &&& crate::stage::keep_additional(ignore_hidden, ignore_vcs)(
                    #[trigger] addl.skip(1)[k].entries[i],
                )
                &&& x == rebase(addl.skip(1)[k].entries[i], prefix + addl.skip(1)[k].dest)
            };
        assert(addl.skip(1)[k] == addl[k + 1]);
        assert(crate::stage::keep_additional(ignore_hidden, ignore_vcs)(addl[k + 1].entries[i]));
    }
}

/// The entries of the include passes come from admitted target entries.
pub proof fn lemma_include_lists_contains(
    target: Seq<EntryV>,
    includes: Seq<Seq<Seq<u8>>>,
    ignore_hidden: bool,
    ignore_vcs: bool,
    marker: Option<Seq<Seq<u8>>>,
    prefix: Seq<Seq<u8>>,
    x: EntryV,
)
    requires
        include_lists(target, includes, ignore_hidden, ignore_vcs, marker, prefix).contains(x),
    ensures
        exists|w: int, i: int|
            #![trigger includes[w], target[i]]
            {
                &&& 0 <= w < includes.len()
                &&& 0 <= i < target.len()
                &&& crate::stage::keep_include(includes[w], ignore_hidden, ignore_vcs, marker)(
                    target[i],
                )
                &&& x == rebase(target[i], prefix)
            },
    decreases includes.len(),
{
    let head = pass_list(
        target,
        crate::stage::keep_include(includes[0], ignore_hidden, ignore_vcs, marker),
        prefix,
    );
    let tail = include_lists(target, includes.skip(1), ignore_hidden, ignore_vcs, marker, prefix);
    lemma_seq_add_contains(head, tail, x);
    if head.contains(x) {
        lemma_pass_list_contains(
            target,
            crate::stage::keep_include(includes[0], ignore_hidden, ignore_vcs, marker),
            prefix,
            x,
        );
        let i = choose|i: int|
            0 <= i < target.len() && #[trigger] crate::stage::keep_include(
                includes[0],
                ignore_hidden,
                ignore_vcs,
                marker,
            )(target[i]) && x == rebase(target[i], prefix);
        assert(crate::stage::keep_include(includes[0], ignore_hidden, ignore_vcs, marker)(
            target[i],
        ));
    } else {
        lemma_include_lists_contains(
            target,
            includes.skip(1),
            ignore_hidden,
            ignore_vcs,
            marker,
            prefix,
            x,
        );
        let (w, i): (int, int) = choose|w: int, i: int|
            #![trigger includes.skip(1)[w], target[i]]
            {
                &&& 0 <= w < includes.skip(1).len()
                &&& 0 <= i < target.len()
                &&& crate::stage::keep_include(
                    includes.skip(1)[w],
                    ignore_hidden,
                    ignore_vcs,
                    marker,
                )(target[i])
                &&& x == rebase(target[i], prefix)
            };
        assert(includes.skip(1)[w] == includes[w + 1]);
        assert(crate::stage::keep_include(includes[w + 1], ignore_hidden, ignore_vcs, marker)(
            target[i],
        ));
    }
}

} // verus!

verus! {

/// Concatenating component lists keeps every component acceptable.
pub proof fn lemma_comps_ok_concat(a: Seq<Seq<u8>>, b: Seq<Seq<u8>>)
    requires
        crate::compress::comps_ok(a),
        crate::compress::comps_ok(b),
    ensures
        crate::compress::comps_ok(a + b),
{
    assert forall|i: int| 0 <= i < (a + b).len() implies crate::compress::component_ok(
        #[trigger] (a + b)[i],
    ) by {
        if i < a.len() {
            assert((a + b)[i] == a[i]);
            assert(crate::compress::component_ok(a[i]));
        } else {
            assert((a + b)[i] == b[i - a.len()]);
            assert(crate::compress::component_ok(b[i - a.len()]));
        }
    }
}

/// Acceptable names survive permutation.
pub proof fn lemma_names_ok_transfer(x: Seq<EntryV>, y: Seq<EntryV>)
    requires
        x.to_multiset() == y.to_multiset(),
        crate::compress::entries_name_ok(x),
    ensures
        crate::compress::entries_name_ok(y),
{
    assert forall|i: int| 0 <= i < y.len() implies crate::compress::entry_name_ok(
        #[trigger] y[i],
    ) by {
        assert(y.contains(y[i]));
        assert(x.to_multiset().count(y[i]) > 0);
        assert(x.contains(y[i]));
        let j = choose|j: int| 0 <= j < x.len() && x[j] == y[i];
        assert(crate::compress::entry_name_ok(x[j]));
    }
}

/// Acceptable names survive header normalization, which never touches a
/// path, a kind or the content.
pub proof fn lemma_names_ok_normalize(s: Seq<EntryV>, reproducible: bool)
    requires
        crate::compress::entries_name_ok(s),
    ensures
        crate::compress::entries_name_ok(normalize_all(s, reproducible)),
{
    let n = normalize_all(s, reproducible);
    assert forall|i: int| 0 <= i < n.len() implies crate::compress::entry_name_ok(
        #[trigger] n[i],
    ) by {
        assert(n[i] == spec_normalize(s[i], reproducible));
        assert(crate::compress::entry_name_ok(s[i]));
    }
}

/// Staged names stay acceptable: when the staging prefix, every target
/// entry, and every additional destination and entry carry acceptable
/// tar names, so does every entry of the assembled staging tree —
/// whatever the include, exclude and ignore rules decide.
pub proof fn lemma_assembled_names_ok(
    target: Seq<EntryV>,
    addl: Seq<AddlV>,
    includes: Seq<Seq<Seq<u8>>>,
    excludes: Seq<Seq<Seq<u8>>>,
    ignore_hidden: bool,
    ignore_vcs: bool,
    marker: Option<Seq<Seq<u8>>>,
    prefix: Seq<Seq<u8>>,
)
    requires
        crate::compress::comps_ok(prefix),
        crate::compress::entries_name_ok(target),
        forall|k: int|
            0 <= k < addl.len() ==> crate::compress::comps_ok((#[trigger] addl[k]).dest)
                && crate::compress::entries_name_ok(addl[k].entries),
    ensures
        crate::compress::entries_name_ok(
            spec_assemble(
                target,
                addl,
                includes,
                excludes,
                ignore_hidden,
                ignore_vcs,
                marker,
                prefix,
            ).entries,
        ),
{
    let out = spec_assemble(
        target,
        addl,
        includes,
        excludes,
        ignore_hidden,
        ignore_vcs,
        marker,
        prefix,
    ).entries;
    assert forall|n: int| 0 <= n < out.len() implies crate::compress::entry_name_ok(
        #[trigger] out[n],
    ) by {
        let x = out[n];
        assert(out.contains(x));
        lemma_staged_provenance(
            target,
            addl,
            includes,
            excludes,
            ignore_hidden,
            ignore_vcs,
            marker,
            prefix,
            x,
        );
        if addl_lists(addl, ignore_hidden, ignore_vcs, prefix).contains(x) {
            lemma_addl_lists_contains(addl, ignore_hidden, ignore_vcs, prefix, x);
            let (k, i): (int, int) = choose|k: int, i: int|
                {
                    &&& 0 <= k < addl.len()
                    &&& 0 <= i < addl[k].entries.len()
                    &&& crate::stage::keep_additional(ignore_hidden, ignore_vcs)(
                        #[trigger] addl[k].entries[i],
                    )
                    &&& x == rebase(addl[k].entries[i], prefix + addl[k].dest)
                };
            let src = addl[k].entries[i];
            assert(crate::compress::entry_name_ok(src));
            lemma_comps_ok_concat(prefix, addl[k].dest);
            lemma_comps_ok_concat(prefix + addl[k].dest, src.path);
        } else if include_lists(target, includes, ignore_hidden, ignore_vcs, marker, prefix).contains(
            x,
        ) {
            lemma_include_lists_contains(
                target,
                includes,
                ignore_hidden,
                ignore_vcs,
                marker,
                prefix,
                x,
            );
            let (w, i): (int, int) = choose|w: int, i: int|
                #![trigger includes[w], target[i]]
                {
                    &&& 0 <= w < includes.len()
                    &&& 0 <= i < target.len()
                    &&& crate::stage::keep_include(includes[w], ignore_hidden, ignore_vcs, marker)(
                        target[i],
                    )
                    &&& x == rebase(target[i], prefix)
                };
            assert(crate::compress::entry_name_ok(target[i]));
            lemma_comps_ok_concat(prefix, target[i].path);
        } else {
            let i = choose|i: int|
                {
                    &&& 0 <= i < target.len()
                    &&& keep_main(excludes, ignore_hidden, ignore_vcs, marker)(
                        #[trigger] target[i],
                    )
                    &&& x == rebase(target[i], prefix)
                };
            assert(crate::compress::entry_name_ok(target[i]));
            lemma_comps_ok_concat(prefix, target[i].path);
        }
    }
}

/// Prefixing preserves path identity: equal staged paths come from
/// equal source paths.
pub proof fn lemma_prefix_cancel(prefix: Seq<Seq<u8>>, a: Seq<Seq<u8>>, b: Seq<Seq<u8>>)
    requires
        prefix + a == prefix + b,
    ensures
        a == b,
{
    assert((prefix + a).skip(prefix.len() as int) =~= a);
    assert((prefix + b).skip(prefix.len() as int) =~= b);
}

/// Every staged entry has a provenance: it was placed by an
/// additional-path pass, by an include pass, or by the main filtered
/// copy — there is no fourth way into the archive.
pub proof fn lemma_staged_provenance(
    target: Seq<EntryV>,
    addl: Seq<AddlV>,
    includes: Seq<Seq<Seq<u8>>>,
    excludes: Seq<Seq<Seq<u8>>>,
    ignore_hidden: bool,
    ignore_vcs: bool,
    marker: Option<Seq<Seq<u8>>>,
    prefix: Seq<Seq<u8>>,
    x: EntryV,
)
    requires
        spec_assemble(
            target,
            addl,
            includes,
            excludes,
            ignore_hidden,
            ignore_vcs,
            marker,
            prefix,
        ).entries.contains(x),
    ensures
        addl_lists(addl, ignore_hidden, ignore_vcs, prefix).contains(x) || include_lists(
            target,
            includes,
            ignore_hidden,
            ignore_vcs,
            marker,
            prefix,
        ).contains(x) || exists|i: int|
            {
                &&& 0 <= i < target.len()
                &&& keep_main(excludes, ignore_hidden, ignore_vcs, marker)(#[trigger] target[i])
                &&& x == rebase(target[i], prefix)
            },
{
    let s0 = StagedV {
        entries: Seq::empty(),
        warnings: addl_warns(addl, excludes) + include_warns(includes, excludes),
    };
    let al = addl_lists(addl, ignore_hidden, ignore_vcs, prefix);
    let il = include_lists(target, includes, ignore_hidden, ignore_vcs, marker, prefix);
    let ml = pass_list(target, keep_main(excludes, ignore_hidden, ignore_vcs, marker), prefix);
    lemma_put_all_contains(
        s0,
        staged_list(target, addl, includes, excludes, ignore_hidden, ignore_vcs, marker, prefix),
        x,
    );
    lemma_seq_add_contains(al + il, ml, x);
    lemma_seq_add_contains(al, il, x);
    if ml.contains(x) {
        lemma_pass_list_contains(
            target,
            keep_main(excludes, ignore_hidden, ignore_vcs, marker),
            prefix,
            x,
        );
    }
}

/// An explicit include reaches the archive: when an include path covers
/// a target entry whose components below the include are not ignored
/// and which avoids the self-copy guard, the staged tree holds an entry
/// at the entry's staged path — whatever the exclusion rules say.
pub proof fn lemma_included_path_is_staged(
    target: Seq<EntryV>,
    addl: Seq<AddlV>,
    includes: Seq<Seq<Seq<u8>>>,
    excludes: Seq<Seq<Seq<u8>>>,
    ignore_hidden: bool,
    ignore_vcs: bool,
    marker: Option<Seq<Seq<u8>>>,
    prefix: Seq<Seq<u8>>,
    w: int,
    i: int,
)
    requires
        0 <= w < includes.len(),
        0 <= i < target.len(),
        crate::stage::keep_include(includes[w], ignore_hidden, ignore_vcs, marker)(target[i]),
    ensures
        has_path(
            spec_assemble(
                target,
                addl,
                includes,
                excludes,
                ignore_hidden,
                ignore_vcs,
                marker,
                prefix,
            ).entries,
            prefix + target[i].path,
        ),
{
    let s0 = StagedV {
        entries: Seq::empty(),
        warnings: addl_warns(addl, excludes) + include_warns(includes, excludes),
    };
    let al = addl_lists(addl, ignore_hidden, ignore_vcs, prefix);
    let il = include_lists(target, includes, ignore_hidden, ignore_vcs, marker, prefix);
    let ml = pass_list(target, keep_main(excludes, ignore_hidden, ignore_vcs, marker), prefix);
    let whole = staged_list(
        target,
        addl,
        includes,
        excludes,
        ignore_hidden,
        ignore_vcs,
        marker,
        prefix,
    );
    let x = rebase(target[i], prefix);
    // the include pass for includes[w] stages this entry
    assert(il.contains(x)) by {
        lemma_include_lists_member(target, includes, ignore_hidden, ignore_vcs, marker, prefix, w, i);
    }
    lemma_seq_add_contains(al, il, x);
    lemma_seq_add_contains(al + il, ml, x);
    assert(whole.contains(x));
    assert(has_path(whole, x.path)) by {
        let j = choose|j: int| 0 <= j < whole.len() && whole[j] == x;
        assert(whole[j].path == x.path);
    }
    lemma_put_all_has_path(s0, whole, x.path);
}

/// One include pass stages each target entry its include path admits.
pub proof fn lemma_include_lists_member(
    target: Seq<EntryV>,
    includes: Seq<Seq<Seq<u8>>>,
    ignore_hidden: bool,
    ignore_vcs: bool,
    marker: Option<Seq<Seq<u8>>>,
    prefix: Seq<Seq<u8>>,
    w: int,
    i: int,
)
    requires
        0 <= w < includes.len(),
        0 <= i < target.len(),
        crate::stage::keep_include(includes[w], ignore_hidden, ignore_vcs, marker)(target[i]),
    ensures
        include_lists(target, includes, ignore_hidden, ignore_vcs, marker, prefix).contains(
            rebase(target[i], prefix),
        ),
    decreases includes.len(),
{
    let head = pass_list(
        target,
        crate::stage::keep_include(includes[0], ignore_hidden, ignore_vcs, marker),
        prefix,
    );
    let tail = include_lists(target, includes.skip(1), ignore_hidden, ignore_vcs, marker, prefix);
    let x = rebase(target[i], prefix);
    if w == 0 {
        lemma_pass_list_contains(
            target,
            crate::stage::keep_include(includes[0], ignore_hidden, ignore_vcs, marker),
            prefix,
            x,
        );
        assert(head.contains(x));
    } else {
        assert(includes.skip(1)[w - 1] == includes[w]);
        lemma_include_lists_member(
            target,
            includes.skip(1),
            ignore_hidden,
            ignore_vcs,
            marker,
            prefix,
            w - 1,
            i,
        );
        assert(tail.contains(x));
    }
    lemma_seq_add_contains(head, tail, x);
}

/// Exclusion without inclusion removes content: a staged entry lying
/// under an excluded path was placed by an include pass or by an
/// additional-path pass — the main copy alone never stages it.
pub proof fn lemma_excluded_needs_explicit_source(
    target: Seq<EntryV>,
    addl: Seq<AddlV>,
    includes: Seq<Seq<Seq<u8>>>,
    excludes: Seq<Seq<Seq<u8>>>,
    ignore_hidden: bool,
    ignore_vcs: bool,
    marker: Option<Seq<Seq<u8>>>,
    prefix: Seq<Seq<u8>>,
    x: EntryV,
    q: Seq<Seq<u8>>,
)
    requires
        spec_assemble(
            target,
            addl,
            includes,
            excludes,
            ignore_hidden,
            ignore_vcs,
            marker,
            prefix,
        ).entries.contains(x),
        x.path == prefix + q,
        crate::matcher::spec_excluded(q, excludes),
    ensures
        addl_lists(addl, ignore_hidden, ignore_vcs, prefix).contains(x) || include_lists(
            target,
            includes,
            ignore_hidden,
            ignore_vcs,
            marker,
            prefix,
        ).contains(x),
{
    lemma_staged_provenance(
        target,
        addl,
        includes,
        excludes,
        ignore_hidden,
        ignore_vcs,
        marker,
        prefix,
        x,
    );
    if exists|i: int|
        {
            &&& 0 <= i < target.len()
            &&& keep_main(excludes, ignore_hidden, ignore_vcs, marker)(#[trigger] target[i])
            &&& x == rebase(target[i], prefix)
        } {
        let i = choose|i: int|
            {
                &&& 0 <= i < target.len()
                &&& keep_main(excludes, ignore_hidden, ignore_vcs, marker)(#[trigger] target[i])
                &&& x == rebase(target[i], prefix)
            };
        lemma_prefix_cancel(prefix, target[i].path, q);
        assert(!crate::matcher::spec_excluded(target[i].path, excludes));
        assert(false);
    }
}

} // verus!
