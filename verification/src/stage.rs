//! Staging-tree assembly.
//!
//! A directory tree is modelled as a flat list of entries, each carrying
//! its path relative to the tree's root, its kind, its content and its
//! metadata.  Assembling a staging tree is a fold: entries from the
//! additional-path passes, the include passes and the main filtered copy
//! are written in that order into a path-addressed store, a later write
//! to an occupied path overwriting it with a warning.  The whole fold is
//! defined as a mathematical function, and the executable assembler is
//! proved to compute it.

use crate::matcher::{is_excluded, spec_excluded, spec_rel_ignored};
use crate::paths::{RelPath, clone_bytes, is_path_prefix};
use vstd::prelude::*;

verus! {

/// What kind of filesystem object an entry is.
#[derive(Clone, Copy, PartialEq, Eq, Structural, Debug)]
pub enum EntryKind {
    File,
    Dir,
    Symlink,
}

/// One filesystem object: a file with its content, a directory, or a
/// symbolic link with its target in `data`.
#[derive(Debug)]
pub struct FsEntry {
    /// Path relative to the tree's root.
    pub path: RelPath,
    pub kind: EntryKind,
    /// File content, or the link target for a symlink; empty for a
    /// directory.
    pub data: Vec<u8>,
    /// Unix permission bits.
    pub mode: u32,
    /// Modification time, seconds since the epoch.
    pub mtime: u64,
    pub uid: u64,
    pub gid: u64,
}

/// The mathematical value of an [`FsEntry`].
pub ghost struct EntryV {
    pub path: Seq<Seq<u8>>,
    pub kind: EntryKind,
    pub data: Seq<u8>,
    pub mode: u32,
    pub mtime: u64,
    pub uid: u64,
    pub gid: u64,
}

impl View for FsEntry {
    type V = EntryV;

    open spec fn view(&self) -> EntryV {
        EntryV {
            path: self.path@,
            kind: self.kind,
            data: self.data@,
            mode: self.mode,
            mtime: self.mtime,
            uid: self.uid,
            gid: self.gid,
        }
    }
}

/// The entry views of a list of entries.
pub open spec fn view_entries(s: Seq<FsEntry>) -> Seq<EntryV> {
    Seq::new(s.len(), |i: int| s[i]@)
}

/// Why a warning was emitted during staging.
#[derive(Clone, Copy, PartialEq, Eq, Structural, Debug)]
pub enum WarnKind {
    /// A later staging pass overwrote a path an earlier pass had written.
    Overwrite,
    /// An explicitly included path is also excluded; inclusion wins.
    IncludedExcluded,
    /// An additional path lands at a destination that exclusion rules
    /// would drop; the caller asked for it, so it is copied anyway.
    AdditionalExcluded,
}

/// An advisory warning: staging proceeds despite it.
#[derive(Debug)]
pub struct Warning {
    pub kind: WarnKind,
    pub path: RelPath,
}

/// The mathematical value of a [`Warning`].
pub ghost struct WarnV {
    pub kind: WarnKind,
    pub path: Seq<Seq<u8>>,
}

impl View for Warning {
    type V = WarnV;

    open spec fn view(&self) -> WarnV {
        WarnV { kind: self.kind, path: self.path@ }
    }
}

/// The warning views of a list of warnings.
pub open spec fn view_warnings(s: Seq<Warning>) -> Seq<WarnV> {
    Seq::new(s.len(), |i: int| s[i]@)
}

/// The mathematical state of a staging tree under construction.
pub ghost struct StagedV {
    pub entries: Seq<EntryV>,
    pub warnings: Seq<WarnV>,
}

/// True iff some entry occupies `path`.
pub open spec fn has_path(entries: Seq<EntryV>, path: Seq<Seq<u8>>) -> bool {
    exists|i: int| 0 <= i < entries.len() && entries[i].path == path
}

/// No two entries occupy the same path.
pub open spec fn unique_paths(entries: Seq<EntryV>) -> bool {
    forall|i: int, j: int|
        0 <= i < entries.len() && 0 <= j < entries.len() && i != j ==> entries[i].path
            != entries[j].path
}

/// Every entry at `e`'s path replaced by `e`.
pub open spec fn replace_at(entries: Seq<EntryV>, e: EntryV) -> Seq<EntryV> {
    entries.map_values(
        |x: EntryV|
            if x.path == e.path {
                e
            } else {
                x
            },
    )
}

/// Writes `e` into the path-addressed store: overwrites the occupant of
/// `e`'s path with a warning, or appends.
pub open spec fn spec_put(s: StagedV, e: EntryV) -> StagedV {
    if has_path(s.entries, e.path) {
        StagedV {
            entries: replace_at(s.entries, e),
            warnings: s.warnings.push(WarnV { kind: WarnKind::Overwrite, path: e.path }),
        }
    } else {
        StagedV { entries: s.entries.push(e), warnings: s.warnings }
    }
}

/// Writes a list of entries in order.
pub open spec fn spec_put_all(s: StagedV, es: Seq<EntryV>) -> StagedV
    decreases es.len(),
{
    if es.len() == 0 {
        s
    } else {
        spec_put_all(spec_put(s, es[0]), es.skip(1))
    }
}

/// `e` staged below `prefix`.
pub open spec fn rebase(e: EntryV, prefix: Seq<Seq<u8>>) -> EntryV {
    EntryV {
        path: prefix + e.path,
        kind: e.kind,
        data: e.data,
        mode: e.mode,
        mtime: e.mtime,
        uid: e.uid,
        gid: e.gid,
    }
}

/// The entries of one copying pass: the entries of `src` that `keep`
/// admits, in order, each staged below `prefix`.
pub open spec fn pass_list(
    src: Seq<EntryV>,
    keep: spec_fn(EntryV) -> bool,
    prefix: Seq<Seq<u8>>,
) -> Seq<EntryV>
    decreases src.len(),
{
    if src.len() == 0 {
        Seq::empty()
    } else {
        let rest = pass_list(src.skip(1), keep, prefix);
        if keep(src[0]) {
            seq![rebase(src[0], prefix)] + rest
        } else {
            rest
        }
    }
}

/// The filter of the main pass: an entry survives unless a component of
/// its path is ignored, its path is excluded, or it lies at or below the
/// staging tree's own location (the self-copy guard).
pub open spec fn keep_main(
    excludes: Seq<Seq<Seq<u8>>>,
    ignore_hidden: bool,
    ignore_vcs: bool,
    marker: Option<Seq<Seq<u8>>>,
) -> spec_fn(EntryV) -> bool {
    |e: EntryV|
        !spec_rel_ignored(e.path, ignore_hidden, ignore_vcs) && !spec_excluded(e.path, excludes)
            && !marker_hit(e.path, marker)
}

/// True iff `path` lies at or below the staging tree's own location.
pub open spec fn marker_hit(path: Seq<Seq<u8>>, marker: Option<Seq<Seq<u8>>>) -> bool {
    match marker {
        Option::Some(m) => is_path_prefix(m, path),
        Option::None => false,
    }
}

/// The filter of one include pass for the include path `p`: an entry
/// survives when it lies at or below `p`, no component below `p` is
/// ignored, and it avoids the self-copy guard.  Exclusion rules are not
/// consulted: an explicit include overrides them.
pub open spec fn keep_include(
    p: Seq<Seq<u8>>,
    ignore_hidden: bool,
    ignore_vcs: bool,
    marker: Option<Seq<Seq<u8>>>,
) -> spec_fn(EntryV) -> bool {
    |e: EntryV|
        is_path_prefix(p, e.path) && !spec_rel_ignored(
            e.path.skip(p.len() as int),
            ignore_hidden,
            ignore_vcs,
        ) && !marker_hit(e.path, marker)
}

/// The filter of one additional-path pass: the copied base (the first
/// component) is never ignored, components below it follow the ignore
/// policies.  Exclusion rules are not consulted: the caller added the
/// path deliberately.
pub open spec fn keep_additional(ignore_hidden: bool, ignore_vcs: bool) -> spec_fn(
    EntryV,
) -> bool {
    |e: EntryV| e.path.len() >= 1 && !spec_rel_ignored(e.path.skip(1), ignore_hidden, ignore_vcs)
}

/// Appending a source entry extends a pass with at most one staged entry.
pub proof fn lemma_pass_list_snoc(
    src: Seq<EntryV>,
    x: EntryV,
    keep: spec_fn(EntryV) -> bool,
    prefix: Seq<Seq<u8>>,
)
    ensures
        pass_list(src.push(x), keep, prefix) == pass_list(src, keep, prefix) + (if keep(x) {
            seq![rebase(x, prefix)]
        } else {
            Seq::<EntryV>::empty()
        }),
    decreases src.len(),
{
    let tail = if keep(x) {
        seq![rebase(x, prefix)]
    } else {
        Seq::<EntryV>::empty()
    };
    if src.len() == 0 {
        let ps = src.push(x);
        assert(ps.len() == 1);
        assert(ps[0] == x);
        assert(ps.skip(1) =~= Seq::<EntryV>::empty());
        assert(pass_list(Seq::<EntryV>::empty(), keep, prefix) == Seq::<EntryV>::empty());
        assert(pass_list(src, keep, prefix) + tail =~= tail);
        if keep(x) {
            assert(pass_list(ps, keep, prefix) == seq![rebase(x, prefix)] + pass_list(
                ps.skip(1),
                keep,
                prefix,
            ));
            assert(seq![rebase(x, prefix)] + Seq::<EntryV>::empty() =~= tail);
        } else {
            assert(pass_list(ps, keep, prefix) == pass_list(ps.skip(1), keep, prefix));
        }
    } else {
        assert(src.push(x)[0] == src[0]);
        assert(src.push(x).skip(1) =~= src.skip(1).push(x));
        lemma_pass_list_snoc(src.skip(1), x, keep, prefix);
        if keep(src[0]) {
            assert(seq![rebase(src[0], prefix)] + (pass_list(src.skip(1), keep, prefix) + tail)
                =~= (seq![rebase(src[0], prefix)] + pass_list(src.skip(1), keep, prefix)) + tail);
        }
    }
}

/// Writing a concatenation is writing the parts in turn.
pub proof fn lemma_put_all_app(s: StagedV, a: Seq<EntryV>, b: Seq<EntryV>)
    ensures
        spec_put_all(s, a + b) == spec_put_all(spec_put_all(s, a), b),
    decreases a.len(),
{
    if a.len() == 0 {
        assert(a + b =~= b);
    } else {
        assert((a + b)[0] == a[0]);
        assert((a + b).skip(1) =~= a.skip(1) + b);
        lemma_put_all_app(spec_put(s, a[0]), a.skip(1), b);
    }
}

/// Writing one more entry after a list is one more write.
pub proof fn lemma_put_all_snoc(s: StagedV, es: Seq<EntryV>, e: EntryV)
    ensures
        spec_put_all(s, es.push(e)) == spec_put(spec_put_all(s, es), e),
{
    assert(es.push(e) =~= es + seq![e]);
    lemma_put_all_app(s, es, seq![e]);
    let mid = spec_put_all(s, es);
    assert(seq![e][0] == e);
    assert(seq![e].skip(1) =~= Seq::<EntryV>::empty());
    assert(spec_put_all(spec_put(mid, e), Seq::<EntryV>::empty()) == spec_put(mid, e));
    assert(spec_put_all(mid, seq![e]) == spec_put_all(spec_put(mid, e), seq![e].skip(1)));
}

/// A write occupies its path, leaves every other path as it was, and
/// preserves path uniqueness.
pub proof fn lemma_put_properties(s: StagedV, e: EntryV)
    requires
        unique_paths(s.entries),
    ensures
        unique_paths(spec_put(s, e).entries),
        has_path(spec_put(s, e).entries, e.path),
        forall|q: Seq<Seq<u8>>|
            q != e.path ==> (#[trigger] has_path(spec_put(s, e).entries, q) == has_path(
                s.entries,
                q,
            )),
        spec_put(s, e).entries.contains(e),
        forall|x: EntryV|
            x.path != e.path ==> (#[trigger] spec_put(s, e).entries.contains(x) == s.entries.contains(
                x,
            )),
    decreases 0int,
{
    let after = spec_put(s, e).entries;
    if has_path(s.entries, e.path) {
        assert(after.len() == s.entries.len());
        assert forall|q: Seq<Seq<u8>>| q != e.path implies (#[trigger] has_path(after, q)
            == has_path(s.entries, q)) by {
            if has_path(after, q) {
                let i = choose|i: int| 0 <= i < after.len() && after[i].path == q;
                assert(s.entries[i].path == q);
            }
            if has_path(s.entries, q) {
                let i = choose|i: int| 0 <= i < s.entries.len() && s.entries[i].path == q;
                assert(after[i].path == q);
            }
        }
        let w = choose|i: int| 0 <= i < s.entries.len() && s.entries[i].path == e.path;
        assert(after[w] == e);
        assert(after.contains(e));
        assert forall|x: EntryV| x.path != e.path implies (#[trigger] after.contains(x)
            == s.entries.contains(x)) by {
            if after.contains(x) {
                let i = choose|i: int| 0 <= i < after.len() && after[i] == x;
                assert(s.entries[i] == x);
            }
            if s.entries.contains(x) {
                let i = choose|i: int| 0 <= i < s.entries.len() && s.entries[i] == x;
                assert(after[i] == x);
            }
        }
    } else {
        assert(after =~= s.entries.push(e));
        assert(after[after.len() - 1] == e);
        assert forall|q: Seq<Seq<u8>>| q != e.path implies (#[trigger] has_path(after, q)
            == has_path(s.entries, q)) by {
            if has_path(after, q) {
                let i = choose|i: int| 0 <= i < after.len() && after[i].path == q;
                assert(i < s.entries.len());
                assert(s.entries[i].path == q);
            }
            if has_path(s.entries, q) {
                let i = choose|i: int| 0 <= i < s.entries.len() && s.entries[i].path == q;
                assert(after[i].path == q);
            }
        }
        assert forall|x: EntryV| x.path != e.path implies (#[trigger] after.contains(x)
            == s.entries.contains(x)) by {
            if after.contains(x) {
                let i = choose|i: int| 0 <= i < after.len() && after[i] == x;
                assert(i < s.entries.len());
                assert(s.entries[i] == x);
            }
            if s.entries.contains(x) {
                let i = choose|i: int| 0 <= i < s.entries.len() && s.entries[i] == x;
                assert(after[i] == x);
            }
        }
    }
}

} // verus!

verus! {

/// One additional path to stage: a snapshot of its source subtree and the
/// destination below the staging root it is staged at.  The first
/// component of every snapshot entry is the source's own base name.
#[derive(Debug)]
pub struct AdditionalSet {
    pub dest: RelPath,
    pub entries: Vec<FsEntry>,
}

/// The mathematical value of an [`AdditionalSet`].
pub ghost struct AddlV {
    pub dest: Seq<Seq<u8>>,
    pub entries: Seq<EntryV>,
}

impl View for AdditionalSet {
    type V = AddlV;

    open spec fn view(&self) -> AddlV {
        AddlV { dest: self.dest@, entries: view_entries(self.entries@) }
    }
}

/// The views of a list of additional sets.
pub open spec fn view_addl(s: Seq<AdditionalSet>) -> Seq<AddlV> {
    Seq::new(s.len(), |i: int| s[i]@)
}

/// The complete specification of one archive-build operation.
///
/// `exclude` entries are relative to the target root and must be in the
/// same canonical form as the snapshot's paths; `include` entries are
/// relative to the target root; `staging_marker` is the staging tree's
/// own location relative to the target root, when it happens to lie
/// inside the tree being archived.
#[derive(Debug)]
pub struct ArchiveRequest {
    /// Base name of the target root, staged as the topmost directory when
    /// `preserve_root` is set.
    pub root_name: Vec<u8>,
    /// Paths to force-copy even if excluded.
    pub incl: Vec<RelPath>,
    /// Paths to omit unless explicitly included.
    pub exclude: Vec<RelPath>,
    pub preserve_root: bool,
    pub ignore_hidden: bool,
    pub ignore_vcs: bool,
    /// Normalize entry metadata so that repeated runs give identical
    /// output bytes.
    pub reproducible: bool,
    /// The staging tree's own location, for the self-copy guard.
    pub staging_marker: Option<RelPath>,
}

/// The staging prefix: the root's base name when the root is preserved.
pub open spec fn spec_prefix(root_name: Seq<u8>, preserve_root: bool) -> Seq<Seq<u8>> {
    if preserve_root {
        seq![root_name]
    } else {
        Seq::empty()
    }
}

/// The view of an optional marker path.
pub open spec fn view_marker(m: Option<RelPath>) -> Option<Seq<Seq<u8>>> {
    match m {
        Option::Some(p) => Option::Some(p@),
        Option::None => Option::None,
    }
}

/// A finished staging tree together with the warnings its assembly
/// emitted.
#[derive(Debug)]
pub struct StagedTree {
    pub entries: Vec<FsEntry>,
    pub warnings: Vec<Warning>,
}

/// Why assembly failed.
#[derive(Debug)]
pub enum StageError {
    /// An include path names nothing in the target tree.  An explicit
    /// user instruction that cannot be honored is a fatal usage error,
    /// not something to drop silently.
    IncludeNotFound(RelPath),
}

/// The staged entries contributed by the additional-path passes, in
/// order.
pub open spec fn addl_lists(
    addl: Seq<AddlV>,
    ignore_hidden: bool,
    ignore_vcs: bool,
    prefix: Seq<Seq<u8>>,
) -> Seq<EntryV>
    decreases addl.len(),
{
    if addl.len() == 0 {
        Seq::empty()
    } else {
        pass_list(
            addl[0].entries,
            keep_additional(ignore_hidden, ignore_vcs),
            prefix + addl[0].dest,
        ) + addl_lists(addl.skip(1), ignore_hidden, ignore_vcs, prefix)
    }
}

/// The staged entries contributed by the include passes, in order.
pub open spec fn include_lists(
    target: Seq<EntryV>,
    includes: Seq<Seq<Seq<u8>>>,
    ignore_hidden: bool,
    ignore_vcs: bool,
    marker: Option<Seq<Seq<u8>>>,
    prefix: Seq<Seq<u8>>,
) -> Seq<EntryV>
    decreases includes.len(),
{
    if includes.len() == 0 {
        Seq::empty()
    } else {
        pass_list(target, keep_include(includes[0], ignore_hidden, ignore_vcs, marker), prefix)
            + include_lists(target, includes.skip(1), ignore_hidden, ignore_vcs, marker, prefix)
    }
}

/// Every entry the staging fold writes, in write order: additional
/// passes, then include passes, then the main filtered copy.  The main
/// copy comes last, so its entries win overwrite conflicts, and include
/// entries win against additional ones.
pub open spec fn staged_list(
    target: Seq<EntryV>,
    addl: Seq<AddlV>,
    includes: Seq<Seq<Seq<u8>>>,
    excludes: Seq<Seq<Seq<u8>>>,
    ignore_hidden: bool,
    ignore_vcs: bool,
    marker: Option<Seq<Seq<u8>>>,
    prefix: Seq<Seq<u8>>,
) -> Seq<EntryV> {
    addl_lists(addl, ignore_hidden, ignore_vcs, prefix) + include_lists(
        target,
        includes,
        ignore_hidden,
        ignore_vcs,
        marker,
        prefix,
    ) + pass_list(target, keep_main(excludes, ignore_hidden, ignore_vcs, marker), prefix)
}

/// The advisory warnings for additional destinations that exclusion
/// rules would drop.
pub open spec fn addl_warns(addl: Seq<AddlV>, excludes: Seq<Seq<Seq<u8>>>) -> Seq<WarnV>
    decreases addl.len(),
{
    if addl.len() == 0 {
        Seq::empty()
    } else {
        let rest = addl_warns(addl.skip(1), excludes);
        if spec_excluded(addl[0].dest, excludes) {
            seq![WarnV { kind: WarnKind::AdditionalExcluded, path: addl[0].dest }] + rest
        } else {
            rest
        }
    }
}

/// The advisory warnings for include paths that exclusion rules would
/// drop; inclusion overrides them.
pub open spec fn include_warns(includes: Seq<Seq<Seq<u8>>>, excludes: Seq<Seq<Seq<u8>>>) -> Seq<
    WarnV,
>
    decreases includes.len(),
{
    if includes.len() == 0 {
        Seq::empty()
    } else {
        let rest = include_warns(includes.skip(1), excludes);
        if spec_excluded(includes[0], excludes) {
            seq![WarnV { kind: WarnKind::IncludedExcluded, path: includes[0] }] + rest
        } else {
            rest
        }
    }
}

/// Assembly succeeds exactly when every include path names an entry of
/// the target tree.
pub open spec fn spec_includes_ok(target: Seq<EntryV>, includes: Seq<Seq<Seq<u8>>>) -> bool {
    forall|i: int| 0 <= i < includes.len() ==> has_path(target, includes[i])
}

/// The staging tree an archive request assembles: the advisory warnings,
/// then the fold of every pass's entries into the path-addressed store.
pub open spec fn spec_assemble(
    target: Seq<EntryV>,
    addl: Seq<AddlV>,
    includes: Seq<Seq<Seq<u8>>>,
    excludes: Seq<Seq<Seq<u8>>>,
    ignore_hidden: bool,
    ignore_vcs: bool,
    marker: Option<Seq<Seq<u8>>>,
    prefix: Seq<Seq<u8>>,
) -> StagedV {
    spec_put_all(
        StagedV {
            entries: Seq::empty(),
            warnings: addl_warns(addl, excludes) + include_warns(includes, excludes),
        },
        staged_list(
            target,
            addl,
            includes,
            excludes,
            ignore_hidden,
            ignore_vcs,
            marker,
            prefix,
        ),
    )
}

/// Appending an additional set extends its pass entries at the end.
pub proof fn lemma_addl_lists_snoc(
    addl: Seq<AddlV>,
    x: AddlV,
    ignore_hidden: bool,
    ignore_vcs: bool,
    prefix: Seq<Seq<u8>>,
)
    ensures
        addl_lists(addl.push(x), ignore_hidden, ignore_vcs, prefix) == addl_lists(
            addl,
            ignore_hidden,
            ignore_vcs,
            prefix,
        ) + pass_list(x.entries, keep_additional(ignore_hidden, ignore_vcs), prefix + x.dest),
    decreases addl.len(),
{
    let px = pass_list(x.entries, keep_additional(ignore_hidden, ignore_vcs), prefix + x.dest);
    if addl.len() == 0 {
        let ps = addl.push(x);
        assert(ps[0] == x);
        assert(ps.skip(1) =~= Seq::<AddlV>::empty());
        assert(addl_lists(Seq::<AddlV>::empty(), ignore_hidden, ignore_vcs, prefix) == Seq::<
            EntryV,
        >::empty());
        assert(addl_lists(ps, ignore_hidden, ignore_vcs, prefix) =~= Seq::<EntryV>::empty() + px);
    } else {
        assert(addl.push(x)[0] == addl[0]);
        assert(addl.push(x).skip(1) =~= addl.skip(1).push(x));
        lemma_addl_lists_snoc(addl.skip(1), x, ignore_hidden, ignore_vcs, prefix);
        let h0 = pass_list(
            addl[0].entries,
            keep_additional(ignore_hidden, ignore_vcs),
            prefix + addl[0].dest,
        );
        assert(h0 + (addl_lists(addl.skip(1), ignore_hidden, ignore_vcs, prefix) + px) =~= (h0
            + addl_lists(addl.skip(1), ignore_hidden, ignore_vcs, prefix)) + px);
    }
}

/// Appending an include path extends its pass entries at the end.
pub proof fn lemma_include_lists_snoc(
    target: Seq<EntryV>,
    includes: Seq<Seq<Seq<u8>>>,
    p: Seq<Seq<u8>>,
    ignore_hidden: bool,
    ignore_vcs: bool,
    marker: Option<Seq<Seq<u8>>>,
    prefix: Seq<Seq<u8>>,
)
    ensures
        include_lists(target, includes.push(p), ignore_hidden, ignore_vcs, marker, prefix)
            == include_lists(target, includes, ignore_hidden, ignore_vcs, marker, prefix)
            + pass_list(target, keep_include(p, ignore_hidden, ignore_vcs, marker), prefix),
    decreases includes.len(),
{
    let px = pass_list(target, keep_include(p, ignore_hidden, ignore_vcs, marker), prefix);
    if includes.len() == 0 {
        let ps = includes.push(p);
        assert(ps[0] == p);
        assert(ps.skip(1) =~= Seq::<Seq<Seq<u8>>>::empty());
        assert(include_lists(
            target,
            Seq::<Seq<Seq<u8>>>::empty(),
            ignore_hidden,
            ignore_vcs,
            marker,
            prefix,
        ) == Seq::<EntryV>::empty());
        assert(include_lists(target, ps, ignore_hidden, ignore_vcs, marker, prefix) =~= Seq::<
            EntryV,
        >::empty() + px);
    } else {
        assert(includes.push(p)[0] == includes[0]);
        assert(includes.push(p).skip(1) =~= includes.skip(1).push(p));
        lemma_include_lists_snoc(
            target,
            includes.skip(1),
            p,
            ignore_hidden,
            ignore_vcs,
            marker,
            prefix,
        );
        let h0 = pass_list(
            target,
            keep_include(includes[0], ignore_hidden, ignore_vcs, marker),
            prefix,
        );
        assert(h0 + (include_lists(target, includes.skip(1), ignore_hidden, ignore_vcs, marker, prefix)
            + px) =~= (h0 + include_lists(
            target,
            includes.skip(1),
            ignore_hidden,
            ignore_vcs,
            marker,
            prefix,
        )) + px);
    }
}

/// Appending an additional set extends its advisory warnings at the end.
pub proof fn lemma_addl_warns_snoc(addl: Seq<AddlV>, x: AddlV, excludes: Seq<Seq<Seq<u8>>>)
    ensures
        addl_warns(addl.push(x), excludes) == addl_warns(addl, excludes) + (if spec_excluded(
            x.dest,
            excludes,
        ) {
            seq![WarnV { kind: WarnKind::AdditionalExcluded, path: x.dest }]
        } else {
            Seq::<WarnV>::empty()
        }),
    decreases addl.len(),
{
    let tail = if spec_excluded(x.dest, excludes) {
        seq![WarnV { kind: WarnKind::AdditionalExcluded, path: x.dest }]
    } else {
        Seq::<WarnV>::empty()
    };
    if addl.len() == 0 {
        let ps = addl.push(x);
        assert(ps[0] == x);
        assert(ps.skip(1) =~= Seq::<AddlV>::empty());
        assert(addl_warns(Seq::<AddlV>::empty(), excludes) == Seq::<WarnV>::empty());
        assert(addl_warns(ps, excludes) =~= Seq::<WarnV>::empty() + tail);
    } else {
        assert(addl.push(x)[0] == addl[0]);
        assert(addl.push(x).skip(1) =~= addl.skip(1).push(x));
        lemma_addl_warns_snoc(addl.skip(1), x, excludes);
        if spec_excluded(addl[0].dest, excludes) {
            let h0 = seq![WarnV { kind: WarnKind::AdditionalExcluded, path: addl[0].dest }];
            assert(h0 + (addl_warns(addl.skip(1), excludes) + tail) =~= (h0 + addl_warns(
                addl.skip(1),
                excludes,
            )) + tail);
        }
    }
}

/// Appending an include path extends its advisory warnings at the end.
pub proof fn lemma_include_warns_snoc(
    includes: Seq<Seq<Seq<u8>>>,
    p: Seq<Seq<u8>>,
    excludes: Seq<Seq<Seq<u8>>>,
)
    ensures
        include_warns(includes.push(p), excludes) == include_warns(includes, excludes) + (
        if spec_excluded(p, excludes) {
            seq![WarnV { kind: WarnKind::IncludedExcluded, path: p }]
        } else {
            Seq::<WarnV>::empty()
        }),
    decreases includes.len(),
{
    let tail = if spec_excluded(p, excludes) {
        seq![WarnV { kind: WarnKind::IncludedExcluded, path: p }]
    } else {
        Seq::<WarnV>::empty()
    };
    if includes.len() == 0 {
        let ps = includes.push(p);
        assert(ps[0] == p);
        assert(ps.skip(1) =~= Seq::<Seq<Seq<u8>>>::empty());
        assert(include_warns(Seq::<Seq<Seq<u8>>>::empty(), excludes) == Seq::<WarnV>::empty());
        assert(include_warns(ps, excludes) =~= Seq::<WarnV>::empty() + tail);
    } else {
        assert(includes.push(p)[0] == includes[0]);
        assert(includes.push(p).skip(1) =~= includes.skip(1).push(p));
        lemma_include_warns_snoc(includes.skip(1), p, excludes);
        if spec_excluded(includes[0], excludes) {
            let h0 = seq![WarnV { kind: WarnKind::IncludedExcluded, path: includes[0] }];
            assert(h0 + (include_warns(includes.skip(1), excludes) + tail) =~= (h0 + include_warns(
                includes.skip(1),
                excludes,
            )) + tail);
        }
    }
}

/// The fold preserves path uniqueness.
pub proof fn lemma_put_all_unique(s: StagedV, es: Seq<EntryV>)
    requires
        unique_paths(s.entries),
    ensures
        unique_paths(spec_put_all(s, es).entries),
    decreases es.len(),
{
    if es.len() > 0 {
        lemma_put_properties(s, es[0]);
        lemma_put_all_unique(spec_put(s, es[0]), es.skip(1));
    }
}

/// Copies an entry.
pub fn clone_entry(e: &FsEntry) -> (r: FsEntry)
    ensures
        r@ == e@,
{
    FsEntry {
        path: e.path.duplicate(),
        kind: e.kind,
        data: clone_bytes(&e.data),
        mode: e.mode,
        mtime: e.mtime,
        uid: e.uid,
        gid: e.gid,
    }
}

/// Copies an entry to its staged location below `prefix`.
pub fn rebase_entry(prefix: &RelPath, e: &FsEntry) -> (r: FsEntry)
    ensures
        r@ == rebase(e@, prefix@),
{
    FsEntry {
        path: prefix.concat(&e.path),
        kind: e.kind,
        data: clone_bytes(&e.data),
        mode: e.mode,
        mtime: e.mtime,
        uid: e.uid,
        gid: e.gid,
    }
}

/// True iff the target snapshot has an entry exactly at `p`.
pub fn find_in_target(target: &Vec<FsEntry>, p: &RelPath) -> (r: bool)
    ensures
        r == has_path(view_entries(target@), p@),
{
    let mut i: usize = 0;
    while i < target.len()
        invariant
            0 <= i <= target.len(),
            forall|j: int| 0 <= j < i ==> view_entries(target@)[j].path != p@,
        decreases target.len() - i,
    {
        if target[i].path.path_eq(p) {
            proof {
                assert(view_entries(target@)[i as int].path == p@);
            }
            return true;
        }
        i = i + 1;
    }
    false
}

/// Writes one entry into the staging store: the executable form of
/// [`spec_put`].
pub fn put_entry(staged: &mut Vec<FsEntry>, warnings: &mut Vec<Warning>, e: FsEntry)
    requires
        unique_paths(view_entries(old(staged)@)),
    ensures
        view_entries(final(staged)@) == spec_put(
            StagedV {
                entries: view_entries(old(staged)@),
                warnings: view_warnings(old(warnings)@),
            },
            e@,
        ).entries,
        view_warnings(final(warnings)@) == spec_put(
            StagedV {
                entries: view_entries(old(staged)@),
                warnings: view_warnings(old(warnings)@),
            },
            e@,
        ).warnings,
{
    let ghost s0 = StagedV {
        entries: view_entries(old(staged)@),
        warnings: view_warnings(old(warnings)@),
    };
    let ghost ev = e@;
    let mut i: usize = 0;
    while i < staged.len()
        invariant
            0 <= i <= staged.len(),
            staged@ == old(staged)@,
            warnings@ == old(warnings)@,
            ev == e@,
            s0 == (StagedV {
                entries: view_entries(old(staged)@),
                warnings: view_warnings(old(warnings)@),
            }),
            forall|j: int| 0 <= j < i ==> view_entries(staged@)[j].path != e@.path,
            unique_paths(view_entries(staged@)),
        decreases staged.len() - i,
    {
        if staged[i].path.path_eq(&e.path) {
            proof {
                assert(view_entries(staged@)[i as int].path == ev.path);
                assert(has_path(s0.entries, ev.path));
            }
            warnings.push(Warning { kind: WarnKind::Overwrite, path: e.path.duplicate() });
            let _replaced = staged.remove(i);
            staged.insert(i, e);
            proof {
                assert forall|j: int| 0 <= j < view_entries(staged@).len() implies view_entries(
                    staged@,
                )[j] == replace_at(s0.entries, ev)[j] by {
                    if j < i {
                        assert(staged@[j] == old(staged)@[j]);
                        assert(s0.entries[j].path != ev.path);
                    } else if j == i {
                        assert(staged@[j]@ == ev);
                    } else {
                        assert(staged@[j] == old(staged)@[j]);
                        assert(s0.entries[j].path != ev.path);
                    }
                }
                assert(view_entries(staged@) =~= replace_at(s0.entries, ev));
                assert(view_warnings(warnings@) =~= s0.warnings.push(
                    WarnV { kind: WarnKind::Overwrite, path: ev.path },
                ));
            }
            return ;
        }
        i = i + 1;
    }
    proof {
        assert(!has_path(s0.entries, ev.path));
    }
    staged.push(e);
    proof {
        assert(view_entries(staged@) =~= s0.entries.push(ev));
        assert(view_warnings(warnings@) =~= s0.warnings);
    }
}

} // verus!

verus! {

/// Assembles the staging tree for one archive request: the executable
/// form of [`spec_assemble`].
///
/// `target` is a snapshot of the target tree, paths relative to its
/// root; each element of `additional` is a snapshot of one additional
/// source.  Assembly fails exactly when an include path names nothing in
/// the target snapshot.
#[verifier::loop_isolation(false)]
#[verifier::rlimit(100)]
pub fn assemble(req: &ArchiveRequest, target: &Vec<FsEntry>, additional: &Vec<AdditionalSet>) -> (r:
    Result<StagedTree, StageError>)
    ensures
        (r matches Result::Ok(st) ==> {
            let out = spec_assemble(
                view_entries(target@),
                view_addl(additional@),
                crate::matcher::view_paths(req.incl@),
                crate::matcher::view_paths(req.exclude@),
                req.ignore_hidden,
                req.ignore_vcs,
                view_marker(req.staging_marker),
                spec_prefix(req.root_name@, req.preserve_root),
            );
            &&& view_entries(st.entries@) == out.entries
            &&& view_warnings(st.warnings@) == out.warnings
            &&& unique_paths(view_entries(st.entries@))
        }),
        (r matches Result::Ok(_)) == spec_includes_ok(
            view_entries(target@),
            crate::matcher::view_paths(req.incl@),
        ),
        (r matches Result::Err(StageError::IncludeNotFound(p)) ==> {
            &&& crate::matcher::view_paths(req.incl@).contains(p@)
            &&& !has_path(view_entries(target@), p@)
        }),
{
    let ghost tv = view_entries(target@);
    let ghost av = view_addl(additional@);
    let ghost iv = crate::matcher::view_paths(req.incl@);
    let ghost xv = crate::matcher::view_paths(req.exclude@);
    let ghost mv = view_marker(req.staging_marker);
    let hidden = req.ignore_hidden;
    let vcs = req.ignore_vcs;

    let prefix: RelPath = if req.preserve_root {
        let mut parts: Vec<Vec<u8>> = Vec::new();
        parts.push(clone_bytes(&req.root_name));
        RelPath { parts }
    } else {
        RelPath::empty()
    };
    proof {
        assert(prefix@ =~= spec_prefix(req.root_name@, req.preserve_root));
    }
    let ghost pv = prefix@;

    // Every include path must name something real in the target tree.
    let mut i: usize = 0;
    while i < req.incl.len()
        invariant
            0 <= i <= req.incl.len(),
            forall|j: int| 0 <= j < i ==> has_path(tv, iv[j]),
        decreases req.incl.len() - i,
    {
        if !find_in_target(target, &req.incl[i]) {
            proof {
                assert(iv[i as int] == req.incl@[i as int]@);
                assert(iv.contains(iv[i as int]));
            }
            return Result::Err(StageError::IncludeNotFound(req.incl[i].duplicate()));
        }
        i = i + 1;
    }
    proof {
        assert(spec_includes_ok(tv, iv));
    }

    // Advisory warnings for additional destinations and include paths
    // that exclusion rules would have dropped.
    let mut warnings: Vec<Warning> = Vec::new();
    let mut k: usize = 0;
    while k < additional.len()
        invariant
            0 <= k <= additional.len(),
            view_warnings(warnings@) == addl_warns(av.take(k as int), xv),
        decreases additional.len() - k,
    {
        let ghost wbefore = view_warnings(warnings@);
        if is_excluded(&additional[k].dest, &req.exclude) {
            warnings.push(
                Warning { kind: WarnKind::AdditionalExcluded, path: additional[k].dest.duplicate() },
            );
        }
        proof {
            assert(av.take(k + 1) =~= av.take(k as int).push(av[k as int]));
            lemma_addl_warns_snoc(av.take(k as int), av[k as int], xv);
            assert(av[k as int].dest == additional@[k as int].dest@);
            if spec_excluded(av[k as int].dest, xv) {
                assert(view_warnings(warnings@) =~= wbefore.push(
                    WarnV { kind: WarnKind::AdditionalExcluded, path: av[k as int].dest },
                ));
                assert(view_warnings(warnings@) =~= addl_warns(av.take(k + 1), xv));
            } else {
                assert(view_warnings(warnings@) =~= addl_warns(av.take(k + 1), xv));
            }
        }
        k = k + 1;
    }
    proof {
        assert(av.take(av.len() as int) =~= av);
    }
    let mut i2: usize = 0;
    while i2 < req.incl.len()
        invariant
            0 <= i2 <= req.incl.len(),
            view_warnings(warnings@) == addl_warns(av, xv) + include_warns(iv.take(i2 as int), xv),
        decreases req.incl.len() - i2,
    {
        let ghost wbefore = view_warnings(warnings@);
        if is_excluded(&req.incl[i2], &req.exclude) {
            warnings.push(
                Warning { kind: WarnKind::IncludedExcluded, path: req.incl[i2].duplicate() },
            );
        }
        proof {
            assert(iv.take(i2 + 1) =~= iv.take(i2 as int).push(iv[i2 as int]));
            lemma_include_warns_snoc(iv.take(i2 as int), iv[i2 as int], xv);
            assert(iv[i2 as int] == req.incl@[i2 as int]@);
            if spec_excluded(iv[i2 as int], xv) {
                assert(view_warnings(warnings@) =~= wbefore.push(
                    WarnV { kind: WarnKind::IncludedExcluded, path: iv[i2 as int] },
                ));
                assert(view_warnings(warnings@) =~= addl_warns(av, xv) + include_warns(
                    iv.take(i2 + 1),
                    xv,
                ));
            } else {
                assert(view_warnings(warnings@) =~= addl_warns(av, xv) + include_warns(
                    iv.take(i2 + 1),
                    xv,
                ));
            }
        }
        i2 = i2 + 1;
    }
    proof {
        assert(iv.take(iv.len() as int) =~= iv);
    }

    // The fold: additional passes, include passes, main filtered copy.
    let mut entries: Vec<FsEntry> = Vec::new();
    let ghost s0 = StagedV { entries: Seq::empty(), warnings: view_warnings(warnings@) };
    let ghost mut done: Seq<EntryV> = Seq::empty();
    proof {
        assert(view_entries(entries@) =~= Seq::<EntryV>::empty());
        assert(spec_put_all(s0, done) == s0);
    }

    let mut k2: usize = 0;
    while k2 < additional.len()
        invariant
            0 <= k2 <= additional.len(),
            done == addl_lists(av.take(k2 as int), hidden, vcs, pv),
            view_entries(entries@) == spec_put_all(s0, done).entries,
            view_warnings(warnings@) == spec_put_all(s0, done).warnings,
        decreases additional.len() - k2,
    {
        let dpfx = prefix.concat(&additional[k2].dest);
        let ghost pass_start = done;
        let mut j: usize = 0;
        while j < additional[k2].entries.len()
            invariant
                0 <= j <= av[k2 as int].entries.len(),
                0 <= k2 < additional.len(),
                dpfx@ == pv + av[k2 as int].dest,
                pass_start == addl_lists(av.take(k2 as int), hidden, vcs, pv),
                done == pass_start + pass_list(
                    av[k2 as int].entries.take(j as int),
                    keep_additional(hidden, vcs),
                    pv + av[k2 as int].dest,
                ),
                view_entries(entries@) == spec_put_all(s0, done).entries,
                view_warnings(warnings@) == spec_put_all(s0, done).warnings,
            decreases av[k2 as int].entries.len() - j,
        {
            let ent = &additional[k2].entries[j];
            proof {
                assert(av[k2 as int].entries[j as int] == ent@);
            }
            let keep = if ent.path.depth() >= 1 {
                let sub = ent.path.skip_front(1);
                !crate::matcher::rel_ignored(&sub, hidden, vcs)
            } else {
                false
            };
            proof {
                assert(keep == keep_additional(hidden, vcs)(ent@));
                assert(av[k2 as int].entries.take(j + 1) =~= av[k2 as int].entries.take(
                    j as int,
                ).push(ent@));
                lemma_pass_list_snoc(
                    av[k2 as int].entries.take(j as int),
                    ent@,
                    keep_additional(hidden, vcs),
                    pv + av[k2 as int].dest,
                );
            }
            if keep {
                proof {
                    lemma_put_all_unique(s0, done);
                }
                let staged_entry = rebase_entry(&dpfx, ent);
                proof {
                    lemma_put_all_snoc(s0, done, staged_entry@);
                }
                put_entry(&mut entries, &mut warnings, staged_entry);
                proof {
                    done = done.push(rebase(ent@, pv + av[k2 as int].dest));
                    assert(done =~= pass_start + pass_list(
                        av[k2 as int].entries.take(j + 1),
                        keep_additional(hidden, vcs),
                        pv + av[k2 as int].dest,
                    ));
                }
            } else {
                proof {
                    assert(done =~= pass_start + pass_list(
                        av[k2 as int].entries.take(j + 1),
                        keep_additional(hidden, vcs),
                        pv + av[k2 as int].dest,
                    ));
                }
            }
            j = j + 1;
        }
        proof {
            assert(av[k2 as int].entries.take(av[k2 as int].entries.len() as int) =~= av[k2 as int].entries);
            assert(av.take(k2 + 1) =~= av.take(k2 as int).push(av[k2 as int]));
            lemma_addl_lists_snoc(av.take(k2 as int), av[k2 as int], hidden, vcs, pv);
        }
        k2 = k2 + 1;
    }
    proof {
        assert(av.take(av.len() as int) =~= av);
    }

    let ghost addl_done = done;
    let mut i3: usize = 0;
    while i3 < req.incl.len()
        invariant
            0 <= i3 <= req.incl.len(),
            addl_done == addl_lists(av, hidden, vcs, pv),
            done == addl_done + include_lists(tv, iv.take(i3 as int), hidden, vcs, mv, pv),
            view_entries(entries@) == spec_put_all(s0, done).entries,
            view_warnings(warnings@) == spec_put_all(s0, done).warnings,
        decreases req.incl.len() - i3,
    {
        let p = &req.incl[i3];
        let ghost pass_start = done;
        let mut j: usize = 0;
        while j < target.len()
            invariant
                0 <= j <= target.len(),
                0 <= i3 < req.incl.len(),
                p == &req.incl[i3 as int],
                pass_start == addl_done + include_lists(tv, iv.take(i3 as int), hidden, vcs, mv, pv),
                done == pass_start + pass_list(
                    tv.take(j as int),
                    keep_include(iv[i3 as int], hidden, vcs, mv),
                    pv,
                ),
                view_entries(entries@) == spec_put_all(s0, done).entries,
                view_warnings(warnings@) == spec_put_all(s0, done).warnings,
            decreases target.len() - j,
        {
            let ent = &target[j];
            proof {
                assert(tv[j as int] == ent@);
                assert(iv[i3 as int] == p@);
            }
            let keep = if ent.path.starts_with(p) {
                let sub = ent.path.skip_front(p.depth());
                if !crate::matcher::rel_ignored(&sub, hidden, vcs) {
                    let mhit = match &req.staging_marker {
                        Option::Some(m) => ent.path.starts_with(m),
                        Option::None => false,
                    };
                    !mhit
                } else {
                    false
                }
            } else {
                false
            };
            proof {
                assert(keep == keep_include(iv[i3 as int], hidden, vcs, mv)(ent@));
                assert(tv.take(j + 1) =~= tv.take(j as int).push(ent@));
                lemma_pass_list_snoc(
                    tv.take(j as int),
                    ent@,
                    keep_include(iv[i3 as int], hidden, vcs, mv),
                    pv,
                );
            }
            if keep {
                proof {
                    lemma_put_all_unique(s0, done);
                }
                let staged_entry = rebase_entry(&prefix, ent);
                proof {
                    lemma_put_all_snoc(s0, done, staged_entry@);
                }
                put_entry(&mut entries, &mut warnings, staged_entry);
                proof {
                    done = done.push(rebase(ent@, pv));
                    assert(done =~= pass_start + pass_list(
                        tv.take(j + 1),
                        keep_include(iv[i3 as int], hidden, vcs, mv),
                        pv,
                    ));
                }
            } else {
                proof {
                    assert(done =~= pass_start + pass_list(
                        tv.take(j + 1),
                        keep_include(iv[i3 as int], hidden, vcs, mv),
                        pv,
                    ));
                }
            }
            j = j + 1;
        }
        proof {
            assert(tv.take(tv.len() as int) =~= tv);
            assert(iv.take(i3 + 1) =~= iv.take(i3 as int).push(iv[i3 as int]));
            lemma_include_lists_snoc(tv, iv.take(i3 as int), iv[i3 as int], hidden, vcs, mv, pv);
            assert(done =~= addl_done + include_lists(tv, iv.take(i3 + 1), hidden, vcs, mv, pv));
        }
        i3 = i3 + 1;
    }
    proof {
        assert(iv.take(iv.len() as int) =~= iv);
    }

    let ghost pre_main = done;
    let mut j2: usize = 0;
    while j2 < target.len()
        invariant
            0 <= j2 <= target.len(),
            pre_main == addl_lists(av, hidden, vcs, pv) + include_lists(tv, iv, hidden, vcs, mv, pv),
            done == pre_main + pass_list(
                tv.take(j2 as int),
                keep_main(xv, hidden, vcs, mv),
                pv,
            ),
            view_entries(entries@) == spec_put_all(s0, done).entries,
            view_warnings(warnings@) == spec_put_all(s0, done).warnings,
        decreases target.len() - j2,
    {
        let ent = &target[j2];
        proof {
            assert(tv[j2 as int] == ent@);
        }
        let keep = if !crate::matcher::rel_ignored(&ent.path, hidden, vcs) {
            if !is_excluded(&ent.path, &req.exclude) {
                let mhit = match &req.staging_marker {
                    Option::Some(m) => ent.path.starts_with(m),
                    Option::None => false,
                };
                !mhit
            } else {
                false
            }
        } else {
            false
        };
        proof {
            assert(keep == keep_main(xv, hidden, vcs, mv)(ent@));
            assert(tv.take(j2 + 1) =~= tv.take(j2 as int).push(ent@));
            lemma_pass_list_snoc(tv.take(j2 as int), ent@, keep_main(xv, hidden, vcs, mv), pv);
        }
        if keep {
            proof {
                lemma_put_all_unique(s0, done);
            }
            let staged_entry = rebase_entry(&prefix, ent);
            proof {
                lemma_put_all_snoc(s0, done, staged_entry@);
            }
            put_entry(&mut entries, &mut warnings, staged_entry);
            proof {
                done = done.push(rebase(ent@, pv));
                assert(done =~= pre_main + pass_list(
                    tv.take(j2 + 1),
                    keep_main(xv, hidden, vcs, mv),
                    pv,
                ));
            }
        } else {
            proof {
                assert(done =~= pre_main + pass_list(
                    tv.take(j2 + 1),
                    keep_main(xv, hidden, vcs, mv),
                    pv,
                ));
            }
        }
        j2 = j2 + 1;
    }
    proof {
        assert(tv.take(tv.len() as int) =~= tv);
        assert(done =~= staged_list(tv, av, iv, xv, hidden, vcs, mv, pv));
        assert(s0.warnings =~= addl_warns(av, xv) + include_warns(iv, xv));
        lemma_put_all_unique(s0, done);
    }
    Result::Ok(StagedTree { entries, warnings })
}

} // verus!
