//! The archive-build pipeline.
//!
//! One request runs through fixed stages: the output suffix picks the
//! codec (failing fast on an unrecognized one), the snapshots are
//! brought into a stable order, the staging tree is assembled, the plan
//! is normalized and sorted, the plan is serialized to a tar stream, and
//! the stream is compressed.  Every stage up to compression is verified;
//! the compressing encoders are outside collaborators.

use crate::archive::{entries_sorted, normalize_all, plan_archive, sort_entries};
use crate::common::{Compression, UnsupportedFormat, detect_compression, spec_suffix_codec};
use crate::compress::{
    compress_bytes, comps_ok, encode_tar, entries_name_ok, records_of, spec_artifact,
    tar_bytes_of,
};
use crate::laws::{
    lemma_assembled_names_ok, lemma_names_ok_normalize, lemma_names_ok_transfer,
};
use crate::matcher::view_paths;
use crate::paths::RelPath;
use crate::stage::{
    AddlV, AdditionalSet, ArchiveRequest, EntryV, FsEntry, StageError, Warning, assemble,
    clone_entry, has_path, spec_assemble, spec_includes_ok, spec_prefix, view_addl,
    view_entries, view_marker, view_warnings,
};
use vstd::prelude::*;

verus! {

broadcast use {
    vstd::seq_lib::group_to_multiset_ensures,
    vstd::multiset::group_multiset_axioms,
};

/// Why an archive build failed.
#[derive(Debug)]
pub enum RoastError {
    /// The output file name carries no recognized suffix; nothing was
    /// written.
    Unsupported(UnsupportedFormat),
    /// An include path names nothing in the target tree.
    IncludeNotFound(RelPath),
    /// The tar or compression encoder declined.
    Encode,
}

/// Everything one build depends on, as mathematical values.
pub ghost struct PipeIn {
    pub target: Seq<EntryV>,
    pub addl: Seq<AddlV>,
    pub incl: Seq<Seq<Seq<u8>>>,
    pub excl: Seq<Seq<Seq<u8>>>,
    pub hidden: bool,
    pub vcs: bool,
    pub marker: Option<Seq<Seq<u8>>>,
    pub prefix: Seq<Seq<u8>>,
}

/// The mathematical inputs of a build.
pub open spec fn pipe_in(
    req: ArchiveRequest,
    target: Seq<FsEntry>,
    additional: Seq<AdditionalSet>,
) -> PipeIn {
    PipeIn {
        target: view_entries(target),
        addl: view_addl(additional),
        incl: view_paths(req.incl@),
        excl: view_paths(req.exclude@),
        hidden: req.ignore_hidden,
        vcs: req.ignore_vcs,
        marker: view_marker(req.staging_marker),
        prefix: spec_prefix(req.root_name@, req.preserve_root),
    }
}

/// The stages a finished tar stream went through: a stable-order
/// snapshot of the target and of each additional source, the staging
/// fold over those snapshots, a normalized and sorted plan, and the
/// serialization of the plan.
pub open spec fn spec_tar_stages(
    inp: PipeIn,
    reproducible: bool,
    snap: Seq<EntryV>,
    asnap: Seq<AddlV>,
    plan: Seq<EntryV>,
    bytes: Seq<u8>,
    warns: Seq<crate::stage::WarnV>,
) -> bool {
    &&& snap.to_multiset() == inp.target.to_multiset()
    &&& entries_sorted(snap)
    &&& asnap.len() == inp.addl.len()
    &&& (forall|k: int|
        0 <= k < asnap.len() ==> {
            &&& (#[trigger] asnap[k]).dest == inp.addl[k].dest
            &&& entries_sorted(asnap[k].entries)
            &&& asnap[k].entries.to_multiset() == inp.addl[k].entries.to_multiset()
        })
    &&& plan.to_multiset() == normalize_all(
        spec_assemble(
            snap,
            asnap,
            inp.incl,
            inp.excl,
            inp.hidden,
            inp.vcs,
            inp.marker,
            inp.prefix,
        ).entries,
        reproducible,
    ).to_multiset()
    &&& entries_sorted(plan)
    &&& warns == spec_assemble(
        snap,
        asnap,
        inp.incl,
        inp.excl,
        inp.hidden,
        inp.vcs,
        inp.marker,
        inp.prefix,
    ).warnings
    &&& bytes == tar_bytes_of(records_of(plan))
}

/// A tar stream `bytes` with warnings `warns` is a faithful build over
/// the inputs `inp`.
pub open spec fn spec_tar_pipeline(
    inp: PipeIn,
    reproducible: bool,
    bytes: Seq<u8>,
    warns: Seq<crate::stage::WarnV>,
) -> bool {
    exists|snap: Seq<EntryV>, asnap: Seq<AddlV>, plan: Seq<EntryV>|
        spec_tar_stages(inp, reproducible, snap, asnap, plan, bytes, warns)
}

/// A finished artifact `out` with warnings `warns` is a faithful build
/// over the inputs `inp` under `codec`: some faithful tar stream
/// underlies it, and the artifact is exactly that stream's encoding.
pub open spec fn spec_roast_pipeline(
    inp: PipeIn,
    reproducible: bool,
    codec: Compression,
    out: Seq<u8>,
    warns: Seq<crate::stage::WarnV>,
) -> bool {
    exists|stream: Seq<u8>|
        spec_tar_pipeline(inp, reproducible, stream, warns) && out == spec_artifact(codec, stream)
}

/// Every name a build would hand the tar builder is acceptable: the
/// staging prefix's components, every target entry and every additional
/// destination and entry are made of components the builder takes as
/// given, and symlink targets are nonempty and nul-free.  Filesystem
/// walks hand such names out; what could violate this is a crafted
/// entry list with empty, dot or slash-bearing components.
pub open spec fn pipe_names_ok(inp: PipeIn) -> bool {
    &&& comps_ok(inp.prefix)
    &&& entries_name_ok(inp.target)
    &&& forall|k: int|
        0 <= k < inp.addl.len() ==> comps_ok((#[trigger] inp.addl[k]).dest) && entries_name_ok(
            inp.addl[k].entries,
        )
}

/// Entry membership at a path transfers across permutations.
pub proof fn lemma_has_path_transfer(x: Seq<EntryV>, y: Seq<EntryV>, p: Seq<Seq<u8>>)
    requires
        x.to_multiset() == y.to_multiset(),
    ensures
        has_path(x, p) == has_path(y, p),
{
    if has_path(x, p) {
        let i = choose|i: int| 0 <= i < x.len() && x[i].path == p;
        assert(x.contains(x[i]));
        assert(y.to_multiset().count(x[i]) > 0);
        assert(y.contains(x[i]));
        let j = choose|j: int| 0 <= j < y.len() && y[j] == x[i];
        assert(y[j].path == p);
    }
    if has_path(y, p) {
        let i = choose|i: int| 0 <= i < y.len() && y[i].path == p;
        assert(y.contains(y[i]));
        assert(x.to_multiset().count(y[i]) > 0);
        assert(x.contains(y[i]));
        let j = choose|j: int| 0 <= j < x.len() && x[j] == y[i];
        assert(x[j].path == p);
    }
}

/// Copies a list of entries.
fn clone_entries(entries: &Vec<FsEntry>) -> (r: Vec<FsEntry>)
    ensures
        view_entries(r@) == view_entries(entries@),
{
    let mut r: Vec<FsEntry> = Vec::new();
    let mut i: usize = 0;
    while i < entries.len()
        invariant
            0 <= i <= entries@.len(),
            r@.len() == i,
            forall|j: int| 0 <= j < i ==> r@[j]@ == entries@[j]@,
        decreases entries.len() - i,
    {
        r.push(clone_entry(&entries[i]));
        i = i + 1;
    }
    proof {
        assert(view_entries(r@) =~= view_entries(entries@));
    }
    r
}

/// Brings each additional source's snapshot into stable order, keeping
/// destinations and content.
fn sort_additional(additional: &Vec<AdditionalSet>) -> (r: Vec<AdditionalSet>)
    ensures
        view_addl(r@).len() == view_addl(additional@).len(),
        forall|k: int|
            0 <= k < r@.len() ==> {
                &&& (#[trigger] view_addl(r@)[k]).dest == view_addl(additional@)[k].dest
                &&& entries_sorted(view_addl(r@)[k].entries)
                &&& view_addl(r@)[k].entries.to_multiset() == view_addl(
                    additional@,
                )[k].entries.to_multiset()
            },
{
    let mut r: Vec<AdditionalSet> = Vec::new();
    let mut k: usize = 0;
    while k < additional.len()
        invariant
            0 <= k <= additional@.len(),
            r@.len() == k,
            forall|j: int|
                0 <= j < k ==> {
                    &&& (#[trigger] view_addl(r@)[j]).dest == view_addl(additional@)[j].dest
                    &&& entries_sorted(view_addl(r@)[j].entries)
                    &&& view_addl(r@)[j].entries.to_multiset() == view_addl(
                        additional@,
                    )[j].entries.to_multiset()
                },
        decreases additional.len() - k,
    {
        let entries = sort_entries(clone_entries(&additional[k].entries));
        let set = AdditionalSet { dest: additional[k].dest.duplicate(), entries };
        let ghost before = r@;
        r.push(set);
        proof {
            assert forall|j: int| 0 <= j < k + 1 implies {
                &&& (#[trigger] view_addl(r@)[j]).dest == view_addl(additional@)[j].dest
                &&& entries_sorted(view_addl(r@)[j].entries)
                &&& view_addl(r@)[j].entries.to_multiset() == view_addl(
                    additional@,
                )[j].entries.to_multiset()
            } by {
                if j < k {
                    assert(r@[j] == before[j]);
                    assert(view_addl(before)[j].dest == view_addl(additional@)[j].dest);
                    assert(entries_sorted(view_addl(before)[j].entries));
                    assert(view_addl(before)[j].entries.to_multiset() == view_addl(
                        additional@,
                    )[j].entries.to_multiset());
                    assert(view_addl(r@)[j] == view_addl(before)[j]);
                }
            }
        }
        k = k + 1;
    }
    r
}

/// When every input name is acceptable, so is every name of the plan
/// that the pipeline's stages produce from the inputs.
proof fn lemma_pipeline_names_ok(
    inp: PipeIn,
    reproducible: bool,
    snap: Seq<EntryV>,
    asnap: Seq<AddlV>,
    plan: Seq<EntryV>,
)
    requires
        pipe_names_ok(inp),
        snap.to_multiset() == inp.target.to_multiset(),
        asnap.len() == inp.addl.len(),
        forall|k: int|
            0 <= k < asnap.len() ==> (#[trigger] asnap[k]).dest == inp.addl[k].dest
                && asnap[k].entries.to_multiset() == inp.addl[k].entries.to_multiset(),
        plan.to_multiset() == normalize_all(
            spec_assemble(
                snap,
                asnap,
                inp.incl,
                inp.excl,
                inp.hidden,
                inp.vcs,
                inp.marker,
                inp.prefix,
            ).entries,
            reproducible,
        ).to_multiset(),
    ensures
        entries_name_ok(plan),
{
    lemma_names_ok_transfer(inp.target, snap);
    assert forall|k: int| 0 <= k < asnap.len() implies comps_ok((#[trigger] asnap[k]).dest)
        && entries_name_ok(asnap[k].entries) by {
        lemma_names_ok_transfer(inp.addl[k].entries, asnap[k].entries);
    }
    lemma_assembled_names_ok(
        snap,
        asnap,
        inp.incl,
        inp.excl,
        inp.hidden,
        inp.vcs,
        inp.marker,
        inp.prefix,
    );
    let assembled = spec_assemble(
        snap,
        asnap,
        inp.incl,
        inp.excl,
        inp.hidden,
        inp.vcs,
        inp.marker,
        inp.prefix,
    ).entries;
    lemma_names_ok_normalize(assembled, reproducible);
    lemma_names_ok_transfer(normalize_all(assembled, reproducible), plan);
}

/// Builds the tar stream for one request: snapshots are brought into a
/// stable order, the staging tree is assembled, the plan is normalized
/// and sorted, and the plan is serialized.  Fails exactly when an
/// include path names nothing in the target, or when the tar encoder
/// declines a name — which, when every input name is acceptable, it
/// never does, so success is owed whenever the includes are present.
#[verifier::loop_isolation(false)]
pub fn roast_tar(req: &ArchiveRequest, target: Vec<FsEntry>, additional: Vec<AdditionalSet>) -> (r:
    Result<(Vec<u8>, Vec<Warning>), RoastError>)
    ensures
        (r matches Result::Err(RoastError::IncludeNotFound(p)) ==> view_paths(
            req.incl@,
        ).contains(p@) && !has_path(view_entries(target@), p@)),
        (r matches Result::Err(RoastError::IncludeNotFound(_))) == !spec_includes_ok(
            view_entries(target@),
            view_paths(req.incl@),
        ),
        !(r matches Result::Err(RoastError::Unsupported(_))),
        spec_includes_ok(view_entries(target@), view_paths(req.incl@)) && pipe_names_ok(
            pipe_in(*req, target@, additional@),
        ) ==> r is Ok,
        (r matches Result::Ok(bw) ==> spec_tar_pipeline(
            pipe_in(*req, target@, additional@),
            req.reproducible,
            bw.0@,
            view_warnings(bw.1@),
        )),
{
    let ghost inp = pipe_in(*req, target@, additional@);
    let snap = sort_entries(target);
    let asnap = sort_additional(&additional);
    proof {
        assert(view_addl(asnap@).len() == inp.addl.len());
    }
    match assemble(req, &snap, &asnap) {
        Result::Err(StageError::IncludeNotFound(p)) => {
            proof {
                lemma_has_path_transfer(view_entries(snap@), view_entries(target@), p@);
                assert(!spec_includes_ok(view_entries(target@), view_paths(req.incl@))) by {
                    let iv = view_paths(req.incl@);
                    let w = choose|w: int| 0 <= w < iv.len() && iv[w] == p@;
                    lemma_has_path_transfer(view_entries(snap@), view_entries(target@), iv[w]);
                }
            }
            Result::Err(RoastError::IncludeNotFound(p))
        },
        Result::Ok(staged) => {
            proof {
                assert(spec_includes_ok(view_entries(target@), view_paths(req.incl@))) by {
                    let iv = view_paths(req.incl@);
                    assert forall|w: int| 0 <= w < iv.len() implies has_path(
                        view_entries(target@),
                        iv[w],
                    ) by {
                        assert(has_path(view_entries(snap@), iv[w]));
                        lemma_has_path_transfer(view_entries(snap@), view_entries(target@), iv[w]);
                    }
                }
            }
            let warnings = staged.warnings;
            let plan = plan_archive(staged.entries, req.reproducible);
            match encode_tar(&plan) {
                Result::Ok(bytes) => {
                    proof {
                        assert(spec_tar_stages(
                            inp,
                            req.reproducible,
                            view_entries(snap@),
                            view_addl(asnap@),
                            view_entries(plan@),
                            bytes@,
                            view_warnings(warnings@),
                        ));
                    }
                    Result::Ok((bytes, warnings))
                },
                Result::Err(_) => {
                    proof {
                        if pipe_names_ok(inp) {
                            lemma_pipeline_names_ok(
                                inp,
                                req.reproducible,
                                view_entries(snap@),
                                view_addl(asnap@),
                                view_entries(plan@),
                            );
                            assert(false);
                        }
                    }
                    Result::Err(RoastError::Encode)
                },
            }
        },
    }
}

/// Builds the finished artifact for one request: picks the codec from
/// the output file name — an unrecognized suffix is rejected before any
/// other work — then builds the tar stream and wraps it in the codec.
/// For an uncompressed archive the artifact is the tar stream itself;
/// for the compressing codecs it is what the encoder produced from that
/// stream.
pub fn roast_opts(
    req: &ArchiveRequest,
    outfile: &str,
    target: Vec<FsEntry>,
    additional: Vec<AdditionalSet>,
) -> (r: Result<(Vec<u8>, Vec<Warning>), RoastError>)
    ensures
        (r matches Result::Err(RoastError::Unsupported(_))) == (spec_suffix_codec(outfile@)
            is None),
        (r matches Result::Err(RoastError::Unsupported(u)) ==> u.ext@ == outfile@),
        (r matches Result::Err(RoastError::IncludeNotFound(p)) ==> view_paths(
            req.incl@,
        ).contains(p@) && !has_path(view_entries(target@), p@)),
        (r matches Result::Ok(_) ==> spec_suffix_codec(outfile@) is Some && spec_includes_ok(
            view_entries(target@),
            view_paths(req.incl@),
        )),
        spec_suffix_codec(outfile@) is Some && spec_includes_ok(
            view_entries(target@),
            view_paths(req.incl@),
        ) && pipe_names_ok(pipe_in(*req, target@, additional@)) ==> r is Ok,
        (r matches Result::Ok(bw) ==> (spec_suffix_codec(outfile@) matches Option::Some(c)
            && spec_roast_pipeline(
            pipe_in(*req, target@, additional@),
            req.reproducible,
            c,
            bw.0@,
            view_warnings(bw.1@),
        ))),
{
    let codec = match detect_compression(outfile) {
        Result::Ok(c) => c,
        Result::Err(u) => {
            return Result::Err(RoastError::Unsupported(u));
        },
    };
    let ghost inp = pipe_in(*req, target@, additional@);
    match roast_tar(req, target, additional) {
        Result::Ok((tar_bytes, warnings)) => {
            proof {
                assert(spec_tar_pipeline(
                    inp,
                    req.reproducible,
                    tar_bytes@,
                    view_warnings(warnings@),
                ));
            }
            match compress_bytes(codec, &tar_bytes) {
                Result::Ok(out) => {
                    proof {
                        assert(spec_roast_pipeline(
                            inp,
                            req.reproducible,
                            codec,
                            out@,
                            view_warnings(warnings@),
                        )) by {
                            assert(spec_tar_pipeline(
                                inp,
                                req.reproducible,
                                tar_bytes@,
                                view_warnings(warnings@),
                            ) && out@ == spec_artifact(codec, tar_bytes@));
                        }
                    }
                    Result::Ok((out, warnings))
                },
                Result::Err(_) => Result::Err(RoastError::Encode),
            }
        },
        Result::Err(e) => Result::Err(e),
    }
}

} // verus!

