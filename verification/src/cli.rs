//! Request structures and the entry-point decision logic.
//!
//! Each entry point of the archiver validates and translates its
//! arguments here — output-suffix dispatch, path parsing, output-name
//! derivation — before any filesystem work starts.  The structures
//! mirror the command-line surface; every field is a plain value.

use crate::common::{Compression, UnsupportedFormat, detect_compression, spec_suffix_codec};
use crate::matcher::view_paths;
use crate::paths::RelPath;
use crate::stage::ArchiveRequest;
use vstd::prelude::*;
use vstd::string::StrSliceExecFns;

verus! {

/// The index of the first occurrence of `c` in `b`, or `b`'s length.
pub open spec fn spec_find(b: Seq<u8>, c: u8) -> nat
    decreases b.len(),
{
    if b.len() == 0 {
        0
    } else if b[0] == c {
        0
    } else {
        1 + spec_find(b.skip(1), c)
    }
}

/// `spec_find` lands on the first occurrence.
pub proof fn lemma_find_at(b: Seq<u8>, c: u8, k: int)
    requires
        0 <= k <= b.len(),
        forall|j: int| 0 <= j < k ==> b[j] != c,
        k < b.len() ==> b[k] == c,
    ensures
        spec_find(b, c) == k,
    decreases k,
{
    if k == 0 {
        if b.len() > 0 && b[0] != c {
            assert(false);
        }
    } else {
        assert(b.len() > 0 && b[0] != c);
        lemma_find_at(b.skip(1), c, k - 1);
    }
}

/// A path string's components: the byte runs between `/` separators,
/// empty runs dropped.
pub open spec fn spec_split_path(b: Seq<u8>) -> Seq<Seq<u8>>
    decreases b.len(),
{
    if b.len() == 0 {
        Seq::empty()
    } else {
        let i = spec_find(b, 0x2fu8);
        let head = b.take(i as int);
        let rest = if i < b.len() {
            b.skip(i + 1 as int)
        } else {
            Seq::<u8>::empty()
        };
        if head.len() == 0 {
            spec_split_path(rest)
        } else {
            seq![head] + spec_split_path(rest)
        }
    }
}

/// The last component of a path string, or the empty name.
pub open spec fn spec_basename(b: Seq<u8>) -> Seq<u8> {
    let parts = spec_split_path(b);
    if parts.len() == 0 {
        Seq::empty()
    } else {
        parts[parts.len() - 1]
    }
}

/// Parses a path string into its components.
#[verifier::loop_isolation(false)]
pub fn parse_rel_path(b: &Vec<u8>) -> (r: RelPath)
    ensures
        r@ == spec_split_path(b@),
{
    let mut parts: Vec<Vec<u8>> = Vec::new();
    let mut pos: usize = 0;
    proof {
        assert(b@.skip(0) =~= b@);
        assert(Seq::new(parts@.len(), |t: int| parts@[t]@) + spec_split_path(b@) =~=
            spec_split_path(b@));
    }
    while pos < b.len()
        invariant
            0 <= pos <= b@.len(),
            Seq::new(parts@.len(), |t: int| parts@[t]@) + spec_split_path(b@.skip(pos as int))
                =~= spec_split_path(b@),
        decreases b.len() - pos,
    {
        let ghost rest = b@.skip(pos as int);
        // find the next separator
        let mut idx: usize = pos;
        while idx < b.len() && b[idx] != 0x2fu8
            invariant
                pos <= idx <= b@.len(),
                forall|j: int| pos <= j < idx ==> b@[j] != 0x2fu8,
            decreases b.len() - idx,
        {
            idx = idx + 1;
        }
        proof {
            assert forall|j: int| 0 <= j < idx - pos implies rest[j] != 0x2fu8 by {
                assert(rest[j] == b@[pos + j]);
            }
            if idx < b.len() {
                assert(rest[idx - pos] == b@[idx as int]);
            }
            lemma_find_at(rest, 0x2fu8, idx - pos);
            assert(spec_find(rest, 0x2fu8) == idx - pos);
        }
        // collect the component
        let mut comp: Vec<u8> = Vec::new();
        let mut j: usize = pos;
        while j < idx
            invariant
                pos <= j <= idx,
                idx <= b@.len(),
                comp@ =~= b@.subrange(pos as int, j as int),
            decreases idx - j,
        {
            comp.push(b[j]);
            proof {
                assert(comp@ =~= b@.subrange(pos as int, j + 1));
            }
            j = j + 1;
        }
        proof {
            assert(comp@ =~= rest.take(idx - pos));
        }
        let ghost before = parts@;
        if comp.len() > 0 {
            parts.push(comp);
        }
        proof {
            let i = idx - pos;
            let tail = if i < rest.len() {
                rest.skip(i + 1)
            } else {
                Seq::<u8>::empty()
            };
            if i < rest.len() {
                assert(rest.skip(i + 1) =~= b@.skip(idx + 1));
            } else {
                assert(idx == b@.len());
            }
            if comp.len() > 0 {
                assert(spec_split_path(rest) == seq![rest.take(i)] + spec_split_path(tail));
                assert(Seq::new(parts@.len(), |t: int| parts@[t]@) =~= Seq::new(
                    before.len(),
                    |t: int| before[t]@,
                ).push(comp@));
                assert(Seq::new(parts@.len(), |t: int| parts@[t]@) + spec_split_path(tail) =~=
                    Seq::new(before.len(), |t: int| before[t]@) + spec_split_path(rest));
            } else {
                assert(spec_split_path(rest) == spec_split_path(tail));
            }
            if i < rest.len() {
                assert(spec_split_path(b@.skip(idx + 1)) == spec_split_path(tail));
            } else {
                assert(spec_split_path(Seq::<u8>::empty()) == Seq::<Seq<u8>>::empty());
                assert(spec_split_path(tail) =~= Seq::<Seq<u8>>::empty());
            }
        }
        if idx < b.len() {
            pos = idx + 1;
        } else {
            pos = idx;
            proof {
                assert(b@.skip(pos as int).len() == 0);
            }
        }
    }
    proof {
        assert(b@.skip(pos as int).len() == 0);
        assert(spec_split_path(b@.skip(pos as int)) =~= Seq::<Seq<u8>>::empty());
    }
    let r = RelPath { parts };
    proof {
        assert(r@ =~= spec_split_path(b@));
    }
    r
}

/// Splits one additional-path argument `source[,destination]` into the
/// source path (handed back for the caller to snapshot) and the staging
/// destination: `root` when no destination is named or it is empty, else
/// `root` extended by the parsed destination.
pub fn get_additional_paths(adtnl_path: &Vec<u8>, root: &RelPath) -> (r: (Vec<u8>, RelPath))
    ensures
        r.0@ == adtnl_path@.take(spec_find(adtnl_path@, 0x2cu8) as int),
        r.1@ == {
            let ci = spec_find(adtnl_path@, 0x2cu8);
            if ci >= adtnl_path@.len() || adtnl_path@.skip(ci + 1 as int).len() == 0 {
                root@
            } else {
                root@ + spec_split_path(adtnl_path@.skip(ci + 1 as int))
            }
        },
{
    let mut ci: usize = 0;
    while ci < adtnl_path.len() && adtnl_path[ci] != 0x2cu8
        invariant
            0 <= ci <= adtnl_path@.len(),
            forall|j: int| 0 <= j < ci ==> adtnl_path@[j] != 0x2cu8,
        decreases adtnl_path.len() - ci,
    {
        ci = ci + 1;
    }
    proof {
        lemma_find_at(adtnl_path@, 0x2cu8, ci as int);
    }
    let mut src: Vec<u8> = Vec::new();
    let mut j: usize = 0;
    while j < ci
        invariant
            0 <= j <= ci,
            ci <= adtnl_path@.len(),
            src@ =~= adtnl_path@.take(j as int),
        decreases ci - j,
    {
        src.push(adtnl_path[j]);
        proof {
            assert(src@ =~= adtnl_path@.take(j + 1));
        }
        j = j + 1;
    }
    if ci == adtnl_path.len() {
        return (src, root.duplicate());
    }
    let mut dest_bytes: Vec<u8> = Vec::new();
    let mut k: usize = ci + 1;
    while k < adtnl_path.len()
        invariant
            ci + 1 <= k <= adtnl_path@.len(),
            ci < adtnl_path@.len(),
            dest_bytes@ =~= adtnl_path@.subrange(ci + 1, k as int),
        decreases adtnl_path.len() - k,
    {
        dest_bytes.push(adtnl_path[k]);
        proof {
            assert(dest_bytes@ =~= adtnl_path@.subrange(ci + 1, k + 1));
        }
        k = k + 1;
    }
    proof {
        assert(dest_bytes@ =~= adtnl_path@.skip(ci + 1));
    }
    if dest_bytes.len() == 0 {
        return (src, root.duplicate());
    }
    let tail = parse_rel_path(&dest_bytes);
    (src, root.concat(&tail))
}

} // verus!

verus! {

/// The arguments of one archive build.
#[derive(Debug)]
pub struct RoastArgs {
    /// Target directory to archive; its base name becomes the archive's
    /// root directory when the root is preserved.
    pub target: String,
    /// Paths under the target to force-copy even if excluded.
    pub incl: Option<Vec<String>>,
    /// Paths under the target to omit unless explicitly included.
    pub exclude: Option<Vec<String>>,
    /// Extra sources, each `source[,destination]`.
    pub additional_paths: Option<Vec<String>>,
    /// Output file of the generated archive; its suffix picks the codec.
    pub outfile: String,
    /// Output directory of the generated archive.
    pub outdir: Option<String>,
    pub preserve_root: bool,
    pub reproducible: bool,
    pub ignore_git: bool,
    pub ignore_hidden: bool,
}

/// The arguments of one extraction.
#[derive(Debug)]
pub struct RawArgs {
    /// Archive file to extract.
    pub target: String,
    /// Output directory of the extracted tree.
    pub outdir: Option<String>,
}

/// The arguments of one recompression: extract, then archive again
/// under another codec.
#[derive(Debug)]
pub struct RecomprizzArgs {
    /// Archive file to recompress.
    pub target: String,
    pub incl: Option<Vec<String>>,
    pub exclude: Option<Vec<String>>,
    pub additional_paths: Option<Vec<String>>,
    pub outdir: Option<String>,
    pub compression: Compression,
    /// A replacement base name for the output; the new extension is
    /// appended to it.
    pub rename: Option<String>,
    pub reproducible: bool,
    pub ignore_git: bool,
    pub ignore_hidden: bool,
}

/// The arguments for archiving a remote repository checkout.
#[derive(Debug)]
pub struct RoastScmArgs {
    pub git_repository_url: String,
    pub exclude: Option<Vec<String>>,
    pub revision: String,
    pub depth: i32,
    pub is_temporary: bool,
    /// Output file; derived from the repository name and revision when
    /// absent.
    pub outfile: Option<String>,
    pub outdir: Option<String>,
    pub reproducible: bool,
    pub ignore_git: bool,
    pub ignore_hidden: bool,
    pub compression: Compression,
}

/// The validated form of a [`RoastArgs`]: the request the assembler
/// takes, the codec the output suffix picked, and the additional
/// sources, each as the source path to snapshot and its staging
/// destination.
#[derive(Debug)]
pub struct RoastPlan {
    pub request: ArchiveRequest,
    pub codec: Compression,
    pub additional_sources: Vec<(Vec<u8>, RelPath)>,
}

/// The parsed components of an optional list of path strings.
pub open spec fn spec_parsed_paths(xs: Option<Vec<String>>) -> Seq<Seq<Seq<u8>>> {
    match xs {
        Option::Some(v) => Seq::new(
            v@.len(),
            |i: int| spec_split_path(vstd::utf8::encode_utf8(v@[i]@)),
        ),
        Option::None => Seq::empty(),
    }
}

/// Parses an optional list of path strings.
#[verifier::loop_isolation(false)]
fn parse_path_list(xs: &Option<Vec<String>>) -> (r: Vec<RelPath>)
    ensures
        view_paths(r@) == spec_parsed_paths(*xs),
{
    let mut r: Vec<RelPath> = Vec::new();
    match xs {
        Option::Some(v) => {
            let mut i: usize = 0;
            while i < v.len()
                invariant
                    0 <= i <= v@.len(),
                    r@.len() == i,
                    forall|j: int|
                        0 <= j < i ==> r@[j]@ == spec_split_path(
                            vstd::utf8::encode_utf8(v@[j]@),
                        ),
                decreases v.len() - i,
            {
                let bytes = v[i].as_str().as_bytes_vec();
                r.push(parse_rel_path(&bytes));
                i = i + 1;
            }
            proof {
                assert(view_paths(r@) =~= spec_parsed_paths(*xs));
            }
        },
        Option::None => {
            proof {
                assert(view_paths(r@) =~= spec_parsed_paths(*xs));
            }
        },
    }
    r
}

/// The additional sources of a request: for each argument, the source
/// path before the comma and the parsed staging destination after it.
pub open spec fn spec_addl_sources(xs: Option<Vec<String>>) -> Seq<(Seq<u8>, Seq<Seq<u8>>)> {
    match xs {
        Option::Some(v) => Seq::new(
            v@.len(),
            |i: int|
                {
                    let b = vstd::utf8::encode_utf8(v@[i]@);
                    let ci = spec_find(b, 0x2cu8);
                    (
                        b.take(ci as int),
                        if ci >= b.len() || b.skip(ci + 1 as int).len() == 0 {
                            Seq::<Seq<u8>>::empty()
                        } else {
                            spec_split_path(b.skip(ci + 1 as int))
                        },
                    )
                },
        ),
        Option::None => Seq::empty(),
    }
}

/// Validates one archive request: picks the codec from the output
/// suffix — an unrecognized suffix is rejected before anything else —
/// and translates every path argument into its parsed form.
#[verifier::loop_isolation(false)]
pub fn roast_cli_stub(args: &RoastArgs) -> (r: Result<RoastPlan, UnsupportedFormat>)
    ensures
        (r is Err) == (spec_suffix_codec(args.outfile@) is None),
        (r matches Result::Err(u) ==> u.ext@ == args.outfile@),
        (r matches Result::Ok(p) ==> {
            &&& Option::Some(p.codec) == spec_suffix_codec(args.outfile@)
            &&& p.request.root_name@ == spec_basename(vstd::utf8::encode_utf8(args.target@))
            &&& view_paths(p.request.incl@) == spec_parsed_paths(args.incl)
            &&& view_paths(p.request.exclude@) == spec_parsed_paths(args.exclude)
            &&& p.request.preserve_root == args.preserve_root
            &&& p.request.reproducible == args.reproducible
            &&& p.request.ignore_hidden == args.ignore_hidden
            &&& p.request.ignore_vcs == args.ignore_git
            &&& p.request.staging_marker is None
            &&& p.additional_sources@.len() == spec_addl_sources(args.additional_paths).len()
            &&& (forall|i: int|
                0 <= i < p.additional_sources@.len() ==> {
                    &&& (#[trigger] p.additional_sources@[i]).0@ == spec_addl_sources(
                        args.additional_paths,
                    )[i].0
                    &&& p.additional_sources@[i].1@ == spec_addl_sources(
                        args.additional_paths,
                    )[i].1
                })
        }),
{
    let codec = match detect_compression(args.outfile.as_str()) {
        Result::Ok(c) => c,
        Result::Err(u) => {
            return Result::Err(u);
        },
    };
    let target_bytes = args.target.as_str().as_bytes_vec();
    let target_path = parse_rel_path(&target_bytes);
    let root_name: Vec<u8> = if target_path.parts.len() > 0 {
        crate::paths::clone_bytes(&target_path.parts[target_path.parts.len() - 1])
    } else {
        Vec::new()
    };
    proof {
        assert(root_name@ =~= spec_basename(vstd::utf8::encode_utf8(args.target@)));
    }
    let incl = parse_path_list(&args.incl);
    let exclude = parse_path_list(&args.exclude);
    let mut additional_sources: Vec<(Vec<u8>, RelPath)> = Vec::new();
    match &args.additional_paths {
        Option::Some(v) => {
            let empty_root = RelPath::empty();
            let mut i: usize = 0;
            while i < v.len()
                invariant
                    0 <= i <= v@.len(),
                    additional_sources@.len() == i,
                    forall|j: int|
                        0 <= j < i ==> {
                            &&& (#[trigger] additional_sources@[j]).0@ == spec_addl_sources(
                                args.additional_paths,
                            )[j].0
                            &&& additional_sources@[j].1@ == spec_addl_sources(
                                args.additional_paths,
                            )[j].1
                        },
                decreases v.len() - i,
            {
                let bytes = v[i].as_str().as_bytes_vec();
                let (src, dest) = get_additional_paths(&bytes, &empty_root);
                proof {
                    assert(Seq::<Seq<u8>>::empty() + spec_split_path(
                        bytes@.skip(spec_find(bytes@, 0x2cu8) + 1 as int),
                    ) =~= spec_split_path(bytes@.skip(spec_find(bytes@, 0x2cu8) + 1 as int)));
                }
                additional_sources.push((src, dest));
                i = i + 1;
            }
        },
        Option::None => {},
    }
    Result::Ok(
        RoastPlan {
            request: ArchiveRequest {
                root_name,
                incl,
                exclude,
                preserve_root: args.preserve_root,
                ignore_hidden: args.ignore_hidden,
                ignore_vcs: args.ignore_git,
                reproducible: args.reproducible,
                staging_marker: Option::None,
            },
            codec,
            additional_sources,
        },
    )
}

} // verus!

verus! {

/// The index of the last `.` in a name, or a negative value when there
/// is none.
pub open spec fn spec_last_dot(b: Seq<u8>) -> int
    decreases b.len(),
{
    if b.len() == 0 {
        -1
    } else if b[b.len() - 1] == 0x2eu8 {
        b.len() - 1
    } else {
        spec_last_dot(b.take(b.len() - 1))
    }
}

/// `spec_last_dot` lands on the last dot.
pub proof fn lemma_last_dot_at(b: Seq<u8>, k: int)
    requires
        0 <= k < b.len(),
        b[k] == 0x2eu8,
        forall|j: int| k < j < b.len() ==> b[j] != 0x2eu8,
    ensures
        spec_last_dot(b) == k,
    decreases b.len(),
{
    if b[b.len() - 1] == 0x2eu8 {
        assert(k == b.len() - 1);
    } else {
        assert(k < b.len() - 1);
        lemma_last_dot_at(b.take(b.len() - 1), k);
    }
}

/// A name without dots has none to find.
pub proof fn lemma_last_dot_none(b: Seq<u8>)
    requires
        forall|j: int| 0 <= j < b.len() ==> b[j] != 0x2eu8,
    ensures
        spec_last_dot(b) == -1,
    decreases b.len(),
{
    if b.len() > 0 {
        lemma_last_dot_none(b.take(b.len() - 1));
    }
}

/// The name with its last extension stripped: the part before the last
/// `.`, except that a name without a `.`, or with a `.` only at its
/// head, is its own stem.
pub open spec fn spec_stem(b: Seq<u8>) -> Seq<u8> {
    let d = spec_last_dot(b);
    if 0 < d < b.len() {
        b.take(d)
    } else {
        b
    }
}

/// True iff the byte is an ASCII digit.
pub open spec fn spec_is_digit(c: u8) -> bool {
    0x30 <= c <= 0x39
}

/// The base for a recompressed output name: extensions are stripped one
/// by one until the remaining stem ends in a digit (version-like names
/// keep their version) or no further extension remains.
pub open spec fn spec_recomprizz_base(b: Seq<u8>) -> Seq<u8>
    decreases b.len(),
{
    let s = spec_stem(b);
    if s.len() == b.len() {
        b
    } else if s.len() > 0 && spec_is_digit(s[s.len() - 1]) {
        s
    } else {
        spec_recomprizz_base(s)
    }
}

/// Copies the first `n` bytes of a name.
fn take_bytes(b: &Vec<u8>, n: usize) -> (r: Vec<u8>)
    requires
        n <= b@.len(),
    ensures
        r@ == b@.take(n as int),
{
    let mut r: Vec<u8> = Vec::new();
    let mut i: usize = 0;
    while i < n
        invariant
            0 <= i <= n,
            n <= b@.len(),
            r@ =~= b@.take(i as int),
        decreases n - i,
    {
        r.push(b[i]);
        proof {
            assert(r@ =~= b@.take(i + 1));
        }
        i = i + 1;
    }
    r
}

/// Executable form of [`spec_recomprizz_base`].
#[verifier::loop_isolation(false)]
pub fn recomprizz_base(b: &Vec<u8>) -> (r: Vec<u8>)
    ensures
        r@ == spec_recomprizz_base(b@),
    decreases b@.len(),
{
    // locate the last dot
    let mut k: usize = b.len();
    while k > 0 && b[k - 1] != 0x2eu8
        invariant
            0 <= k <= b@.len(),
            forall|j: int| k <= j < b@.len() ==> b@[j] != 0x2eu8,
        decreases k,
    {
        k = k - 1;
    }
    proof {
        if k == 0 {
            lemma_last_dot_none(b@);
        } else {
            lemma_last_dot_at(b@, k - 1);
        }
    }
    if k <= 1 || k - 1 >= b.len() {
        // no dot, or a dot only at the head: the name is its own stem
        proof {
            assert(spec_stem(b@) == b@);
        }
        return crate::paths::clone_bytes(b);
    }
    let d = k - 1;
    proof {
        assert(spec_stem(b@) == b@.take(d as int));
    }
    let stem = take_bytes(b, d);
    if stem.len() > 0 && 0x30u8 <= stem[stem.len() - 1] && stem[stem.len() - 1] <= 0x39u8 {
        return stem;
    }
    recomprizz_base(&stem)
}

/// The output file name of a recompression: the replacement name when
/// one was given, else the target's base name with its extensions
/// stripped down to the version, followed by the new codec's extension.
pub open spec fn spec_recomprizz_name(
    rename: Option<String>,
    target: Seq<char>,
    codec: Compression,
) -> Seq<u8> {
    (match rename {
        Option::Some(n) => vstd::utf8::encode_utf8(n@),
        Option::None => spec_recomprizz_base(
            spec_basename(vstd::utf8::encode_utf8(target)),
        ),
    }) + vstd::utf8::encode_utf8(crate::common::spec_extension(codec))
}

/// Derives the output file name of one recompression.
pub fn recomprizz_cli_stub(args: &RecomprizzArgs) -> (r: Vec<u8>)
    ensures
        r@ == spec_recomprizz_name(args.rename, args.target@, args.compression),
{
    let mut out: Vec<u8> = match &args.rename {
        Option::Some(n) => n.as_str().as_bytes_vec(),
        Option::None => {
            let target_bytes = args.target.as_str().as_bytes_vec();
            let parsed = parse_rel_path(&target_bytes);
            let base: Vec<u8> = if parsed.parts.len() > 0 {
                crate::paths::clone_bytes(&parsed.parts[parsed.parts.len() - 1])
            } else {
                Vec::new()
            };
            proof {
                assert(base@ =~= spec_basename(vstd::utf8::encode_utf8(args.target@)));
            }
            recomprizz_base(&base)
        },
    };
    let ghost head = out@;
    let ext = args.compression.to_extension().as_bytes_vec();
    let mut i: usize = 0;
    while i < ext.len()
        invariant
            0 <= i <= ext@.len(),
            out@ =~= head + ext@.take(i as int),
        decreases ext.len() - i,
    {
        out.push(ext[i]);
        proof {
            assert(out@ =~= head + ext@.take(i + 1));
        }
        i = i + 1;
    }
    proof {
        assert(ext@.take(ext@.len() as int) =~= ext@);
        assert(out@ =~= spec_recomprizz_name(args.rename, args.target@, args.compression));
    }
    out
}

} // verus!

verus! {

broadcast use vstd::string::group_string_axioms;

/// The index of the last occurrence of `c` among the characters of `s`,
/// or a negative value when there is none.
pub open spec fn spec_char_rfind(s: Seq<char>, c: char) -> int
    decreases s.len(),
{
    if s.len() == 0 {
        -1
    } else if s[s.len() - 1] == c {
        s.len() - 1
    } else {
        spec_char_rfind(s.take(s.len() - 1), c)
    }
}

/// `spec_char_rfind` lands on the last occurrence.
pub proof fn lemma_char_rfind_at(s: Seq<char>, c: char, k: int)
    requires
        0 <= k < s.len(),
        s[k] == c,
        forall|j: int| k < j < s.len() ==> s[j] != c,
    ensures
        spec_char_rfind(s, c) == k,
    decreases s.len(),
{
    if s[s.len() - 1] == c {
        assert(k == s.len() - 1);
    } else {
        assert(k < s.len() - 1);
        lemma_char_rfind_at(s.take(s.len() - 1), c, k);
    }
}

/// A string without `c` has no occurrence to find.
pub proof fn lemma_char_rfind_none(s: Seq<char>, c: char)
    requires
        forall|j: int| 0 <= j < s.len() ==> s[j] != c,
    ensures
        spec_char_rfind(s, c) == -1,
    decreases s.len(),
{
    if s.len() > 0 {
        lemma_char_rfind_none(s.take(s.len() - 1), c);
    }
}

/// Finds the last occurrence of `c` in `s`, as an index one past it, or
/// zero when there is none.
fn char_rfind(s: &str, c: char) -> (r: usize)
    ensures
        r > 0 ==> r - 1 == spec_char_rfind(s@, c) && s@[r - 1] == c,
        r == 0 ==> spec_char_rfind(s@, c) < 0,
        r <= s@.len(),
{
    let n = s.unicode_len();
    let mut k: usize = n;
    while k > 0
        invariant
            0 <= k <= n,
            n == s@.len(),
            forall|j: int| k <= j < s@.len() ==> s@[j] != c,
        decreases k,
    {
        if s.get_char(k - 1) == c {
            proof {
                lemma_char_rfind_at(s@, c, k - 1);
            }
            return k;
        }
        k = k - 1;
    }
    proof {
        lemma_char_rfind_none(s@, c);
    }
    0
}

/// The extension of a path string: what follows the last `.` of its
/// base name, unless the base name has no `.` past its first character.
pub open spec fn spec_char_ext(s: Seq<char>) -> Option<Seq<char>> {
    let sl = spec_char_rfind(s, '/');
    let base = if sl >= 0 {
        s.skip(sl + 1)
    } else {
        s
    };
    let d = spec_char_rfind(base, '.');
    if 0 < d < base.len() {
        Option::Some(base.skip(d + 1))
    } else {
        Option::None
    }
}

/// Extracts a path string's extension.
fn char_ext(s: &str) -> (r: Option<String>)
    ensures
        match r {
            Option::Some(e) => spec_char_ext(s@) == Option::Some(e@),
            Option::None => spec_char_ext(s@) is None,
        },
{
    let n = s.unicode_len();
    let sl = char_rfind(s, '/');
    let base = s.substring_char(sl, n);
    proof {
        if sl > 0 {
            assert(base@ == s@.skip(sl as int));
        } else {
            assert(base@ =~= s@);
        }
    }
    let m = base.unicode_len();
    let d = char_rfind(base, '.');
    if d > 1 {
        let e = base.substring_char(d, m);
        proof {
            assert(e@ == base@.skip(d as int));
        }
        Option::Some(e.to_owned())
    } else {
        proof {
            if d > 0 {
                assert(spec_char_rfind(base@, '.') == d - 1);
            }
        }
        Option::None
    }
}

/// Relies on std::path::PathBuf::from: carries the path value through.
#[verifier::external_body]
fn path_from_string(s: String) -> (r: std::path::PathBuf) {
    std::path::PathBuf::from(s)
}

/// Classifies the archive named by one extraction request from the
/// magic bytes at its head; on failure the reported extension is the
/// target's, or a fixed marker when it has none.
pub fn raw_cli_stub(args: &RawArgs, head: &Vec<u8>) -> (r: Result<
    crate::common::SupportedFormat,
    UnsupportedFormat,
>)
    ensures
        (r is Ok) == (crate::common::spec_classified(crate::common::sniffed_mime(head@)) is Some),
        (r matches Result::Ok(f) ==> f matches crate::common::SupportedFormat::Compressed(c, _)
            && Option::Some(c) == crate::common::spec_classified(
            crate::common::sniffed_mime(head@),
        )),
        (r matches Result::Err(u) ==> u.ext@ == (match spec_char_ext(args.target@) {
            Option::Some(e) => e,
            Option::None => "unknown format"@,
        })),
{
    let ext = char_ext(args.target.as_str());
    let src = path_from_string(args.target.clone());
    crate::common::is_supported_format(head, src, ext)
}

} // verus!

verus! {

/// Why a repository URL yields no output name.
#[derive(Clone, Copy, PartialEq, Eq, Structural, Debug)]
pub enum UrlError {
    /// The string does not parse as a URL.
    Unparseable,
    /// The URL's path holds too few segments to name the repository.
    NoBasename,
}

/// The path segments of a URL string: a function of the string alone.
pub uninterp spec fn url_segments_of(s: Seq<char>) -> Option<Seq<Seq<char>>>;

/// Relies on url::Url::parse and url::Url::path_segments: the parse of
/// a URL string, and with it its path segments, is computed from the
/// string alone.
#[verifier::external_body]
fn url_path_segments(s: &str) -> (r: Option<Vec<String>>)
    ensures
        match r {
            Option::Some(v) => url_segments_of(s@) == Option::Some(
                Seq::new(v@.len(), |i: int| v@[i]@),
            ),
            Option::None => url_segments_of(s@) is None,
        },
{
    let parsed = match url::Url::parse(s) {
        Ok(u) => u,
        Err(_) => return None,
    };
    parsed.path_segments().map(|segs| segs.map(|x| x.to_string()).collect())
}

/// The start of the last `.git` occurrence in a name, or a negative
/// value when there is none.
pub open spec fn spec_last_git(s: Seq<char>) -> int
    decreases s.len(),
{
    if s.len() < 4 {
        -1
    } else if s.subrange(s.len() - 4, s.len() as int) == ".git"@ {
        s.len() - 4
    } else {
        spec_last_git(s.take(s.len() - 1))
    }
}

/// `spec_last_git` lands on the last occurrence.
pub proof fn lemma_last_git_at(s: Seq<char>, k: int)
    requires
        0 <= k,
        k + 4 <= s.len(),
        s.subrange(k, k + 4) == ".git"@,
        forall|m: int| k < m && m + 4 <= s.len() ==> #[trigger] s.subrange(m, m + 4) != ".git"@,
    ensures
        spec_last_git(s) == k,
    decreases s.len(),
{
    if k == s.len() - 4 {
    } else {
        let m0 = s.len() - 4;
        assert(s.subrange(m0, m0 + 4) != ".git"@);
        assert(s.subrange(s.len() - 4, s.len() as int) == s.subrange(m0, m0 + 4));
        let t = s.take(s.len() - 1);
        assert(t.subrange(k, k + 4) =~= s.subrange(k, k + 4));
        assert forall|m: int| k < m && m + 4 <= t.len() implies #[trigger] t.subrange(m, m + 4)
            != ".git"@ by {
            assert(t.subrange(m, m + 4) =~= s.subrange(m, m + 4));
        }
        lemma_last_git_at(t, k);
    }
}

/// A name without the marker has no occurrence to find.
pub proof fn lemma_last_git_none(s: Seq<char>)
    requires
        forall|m: int| 0 <= m && m + 4 <= s.len() ==> #[trigger] s.subrange(m, m + 4) != ".git"@,
    ensures
        spec_last_git(s) < 0,
    decreases s.len(),
{
    if s.len() >= 4 {
        let m0 = s.len() - 4;
        assert(s.subrange(m0, m0 + 4) != ".git"@);
        assert(s.subrange(s.len() - 4, s.len() as int) == s.subrange(m0, m0 + 4));
        let t = s.take(s.len() - 1);
        assert forall|m: int| 0 <= m && m + 4 <= t.len() implies #[trigger] t.subrange(m, m + 4)
            != ".git"@ by {
            assert(t.subrange(m, m + 4) =~= s.subrange(m, m + 4));
        }
        lemma_last_git_none(t);
    }
}

/// A repository name with everything from its last `.git` on dropped;
/// people paste clone URLs, so `octocat.git` names `octocat`.
pub open spec fn spec_strip_git(s: Seq<char>) -> Seq<char> {
    let i = spec_last_git(s);
    if i < 0 {
        s
    } else {
        s.take(i)
    }
}

/// Executable form of [`spec_strip_git`].
fn strip_git(s: &str) -> (r: String)
    ensures
        r@ == spec_strip_git(s@),
{
    let n = s.unicode_len();
    proof {
        reveal_strlit(".git");
    }
    if n < 4 {
        proof {
            lemma_last_git_none(s@);
        }
        return s.to_owned();
    }
    let mut e: usize = n;
    while e >= 4
        invariant
            3 <= e,
            e <= n,
            n == s@.len(),
            forall|m: int| e - 4 < m && m + 4 <= s@.len() ==> #[trigger] s@.subrange(m, m + 4) != ".git"@,
        decreases e,
    {
        if s.get_char(e - 4) == '.' && s.get_char(e - 3) == 'g' && s.get_char(e - 2) == 'i'
            && s.get_char(e - 1) == 't' {
            proof {
                reveal_strlit(".git");
                assert(s@.subrange(e - 4, e - 4 + 4) =~= ".git"@);
                assert(s@.subrange(e - 4, e as int) == s@.subrange(e - 4, e - 4 + 4));
                lemma_last_git_at(s@, e - 4);
            }
            let r = s.substring_char(0, e - 4);
            proof {
                assert(r@ == s@.take(e - 4));
            }
            return r.to_owned();
        }
        proof {
            reveal_strlit(".git");
            assert(s@.subrange(e - 4, e - 4 + 4) != ".git"@) by {
                if s@.subrange(e - 4, e - 4 + 4) == ".git"@ {
                    assert(s@.subrange(e - 4, e - 4 + 4)[0] == s@[e - 4]);
                    assert(s@.subrange(e - 4, e - 4 + 4)[1] == s@[e - 3]);
                    assert(s@.subrange(e - 4, e - 4 + 4)[2] == s@[e - 2]);
                    assert(s@.subrange(e - 4, e - 4 + 4)[3] == s@[e - 1]);
                }
            }
        }
        e = e - 1;
    }
    proof {
        lemma_last_git_none(s@);
    }
    s.to_owned()
}

/// The derived output name of a repository archive: the repository's
/// base name, the revision description when there is one, and the
/// codec's extension.
pub open spec fn spec_scm_outfile(
    base: Seq<char>,
    revision_format: Seq<char>,
    codec: Compression,
) -> Seq<u8> {
    (if revision_format.len() == 0 {
        vstd::utf8::encode_utf8(spec_strip_git(base))
    } else {
        vstd::utf8::encode_utf8(spec_strip_git(base)) + seq![0x2du8] + vstd::utf8::encode_utf8(
            revision_format,
        )
    }) + vstd::utf8::encode_utf8(crate::common::spec_extension(codec))
}

/// Appends the bytes of a byte string.
fn append_bytes(out: &mut Vec<u8>, tail: &Vec<u8>)
    ensures
        final(out)@ == old(out)@ + tail@,
{
    let ghost head = out@;
    let mut i: usize = 0;
    while i < tail.len()
        invariant
            0 <= i <= tail@.len(),
            out@ =~= head + tail@.take(i as int),
        decreases tail.len() - i,
    {
        out.push(tail[i]);
        proof {
            assert(out@ =~= head + tail@.take(i + 1));
        }
        i = i + 1;
    }
    proof {
        assert(tail@.take(tail@.len() as int) =~= tail@);
    }
}

/// Resolves the output file name of a repository archive: the explicit
/// name when one was given, else a name derived from the repository
/// URL's second path segment and the revision description.
pub fn roast_scm_cli_stub(args: &RoastScmArgs, revision_format: &str) -> (r: Result<
    Vec<u8>,
    UrlError,
>)
    ensures
        (args.outfile matches Option::Some(f) ==> r matches Result::Ok(b) && b@
            == vstd::utf8::encode_utf8(f@)),
        (args.outfile is None ==> (match url_segments_of(args.git_repository_url@) {
            Option::Some(segs) => {
                if segs.len() < 2 {
                    r matches Result::Err(UrlError::NoBasename)
                } else {
                    r matches Result::Ok(b) && b@ == spec_scm_outfile(
                        segs[1],
                        revision_format@,
                        args.compression,
                    )
                }
            },
            Option::None => r matches Result::Err(UrlError::Unparseable),
        })),
{
    match &args.outfile {
        Option::Some(f) => {
            return Result::Ok(f.as_str().as_bytes_vec());
        },
        Option::None => {},
    }
    let segments = match url_path_segments(args.git_repository_url.as_str()) {
        Option::Some(v) => v,
        Option::None => {
            return Result::Err(UrlError::Unparseable);
        },
    };
    if segments.len() < 2 {
        return Result::Err(UrlError::NoBasename);
    }
    let base = strip_git(segments[1].as_str());
    let mut out = base.as_str().as_bytes_vec();
    if !revision_format.is_empty() {
        out.push(0x2du8);
        let rev_bytes = revision_format.as_bytes_vec();
        append_bytes(&mut out, &rev_bytes);
    }
    let ext_bytes = args.compression.to_extension().as_bytes_vec();
    append_bytes(&mut out, &ext_bytes);
    proof {
        let segs = choose|segs: Seq<Seq<char>>|
            url_segments_of(args.git_repository_url@) == Option::Some(segs);
        assert(out@ =~= spec_scm_outfile(segs[1], revision_format@, args.compression));
    }
    Result::Ok(out)
}

} // verus!
