//! Tar serialization and stream compression.
//!
//! The archive plan is serialized entry by entry into an in-memory tar
//! stream with fully explicit headers — every header field is set from
//! the plan entry, so the stream is a function of the plan alone — and
//! the stream is then handed to the codec the output suffix selected.

use crate::common::Compression;
use crate::paths::RelPath;
use crate::stage::{EntryKind, EntryV, FsEntry, view_entries};
use std::io::Write;
use vstd::prelude::*;

verus! {

/// One tar entry as recorded in the stream: name bytes, a kind code
/// (0 file, 1 directory, 2 symlink), content or link target, mode,
/// modification time, owner and group.
pub type TarRecord = (Seq<u8>, u8, Seq<u8>, u32, u64, u64, u64);

/// The components of a path joined with `/` into one name.
pub open spec fn spec_join(p: Seq<Seq<u8>>) -> Seq<u8>
    decreases p.len(),
{
    if p.len() == 0 {
        Seq::empty()
    } else if p.len() == 1 {
        p[0]
    } else {
        p[0] + seq![0x2fu8] + spec_join(p.skip(1))
    }
}

/// Joining one more component appends a separator and the component.
pub proof fn lemma_join_snoc(p: Seq<Seq<u8>>, x: Seq<u8>)
    ensures
        spec_join(p.push(x)) == if p.len() == 0 {
            x
        } else {
            spec_join(p) + seq![0x2fu8] + x
        },
    decreases p.len(),
{
    if p.len() == 0 {
        assert(p.push(x).len() == 1);
        assert(p.push(x)[0] == x);
    } else if p.len() == 1 {
        assert(p.push(x)[0] == p[0]);
        assert(p.push(x).skip(1) =~= seq![x]);
        assert(spec_join(p.push(x)) == p[0] + seq![0x2fu8] + spec_join(seq![x]));
        assert(spec_join(seq![x]) == x);
    } else {
        assert(p.push(x)[0] == p[0]);
        assert(p.push(x).skip(1) =~= p.skip(1).push(x));
        lemma_join_snoc(p.skip(1), x);
        assert(p[0] + seq![0x2fu8] + (spec_join(p.skip(1)) + seq![0x2fu8] + x) =~= (p[0]
            + seq![0x2fu8] + spec_join(p.skip(1))) + seq![0x2fu8] + x);
    }
}

/// Joins a path's components with `/` into one name.
pub fn join_path(p: &RelPath) -> (r: Vec<u8>)
    ensures
        r@ == spec_join(p@),
{
    let mut r: Vec<u8> = Vec::new();
    let mut i: usize = 0;
    while i < p.parts.len()
        invariant
            0 <= i <= p.parts.len(),
            r@ == spec_join(p@.take(i as int)),
        decreases p.parts.len() - i,
    {
        let ghost before = r@;
        if i > 0 {
            r.push(0x2fu8);
        }
        let mut j: usize = 0;
        while j < p.parts[i].len()
            invariant
                0 <= j <= p.parts@[i as int]@.len(),
                0 <= i < p.parts.len(),
                r@ == if i > 0 {
                    before + seq![0x2fu8] + p.parts@[i as int]@.take(j as int)
                } else {
                    before + p.parts@[i as int]@.take(j as int)
                },
            decreases p.parts@[i as int]@.len() - j,
        {
            r.push(p.parts[i][j]);
            proof {
                assert(p.parts@[i as int]@.take(j + 1) =~= p.parts@[i as int]@.take(j as int).push(
                    p.parts@[i as int]@[j as int],
                ));
                if i > 0 {
                    assert(r@ =~= before + seq![0x2fu8] + p.parts@[i as int]@.take(j + 1));
                } else {
                    assert(r@ =~= before + p.parts@[i as int]@.take(j + 1));
                }
            }
            j = j + 1;
        }
        proof {
            assert(p.parts@[i as int]@.take(p.parts@[i as int]@.len() as int) =~= p@[i as int]);
            assert(p@.take(i + 1) =~= p@.take(i as int).push(p@[i as int]));
            lemma_join_snoc(p@.take(i as int), p@[i as int]);
            if i > 0 {
                assert(r@ =~= spec_join(p@.take(i as int)) + seq![0x2fu8] + p@[i as int]);
            } else {
                assert(p@.take(0) =~= Seq::<Seq<u8>>::empty());
                assert(r@ =~= p@[i as int]);
            }
            assert(r@ =~= spec_join(p@.take(i + 1)));
        }
        i = i + 1;
    }
    proof {
        assert(p@.take(p@.len() as int) =~= p@);
    }
    r
}

/// The kind code of an entry kind.
pub open spec fn kind_code(k: EntryKind) -> u8 {
    match k {
        EntryKind::File => 0u8,
        EntryKind::Dir => 1u8,
        EntryKind::Symlink => 2u8,
    }
}

/// The tar record of one plan entry.
pub open spec fn entry_record(e: EntryV) -> TarRecord {
    (spec_join(e.path), kind_code(e.kind), e.data, e.mode, e.mtime, e.uid, e.gid)
}

/// The tar records of a plan.
pub open spec fn records_of(es: Seq<EntryV>) -> Seq<TarRecord> {
    es.map_values(|e: EntryV| entry_record(e))
}

/// A name component the tar builder takes as given: nonempty, free of
/// nul bytes and of separators, and not one of the dot names (`.`,
/// `..`) the builder rejects or drops.
pub open spec fn component_ok(c: Seq<u8>) -> bool {
    &&& c.len() > 0
    &&& c != seq![0x2eu8]
    &&& c != seq![0x2eu8, 0x2eu8]
    &&& forall|i: int| 0 <= i < c.len() ==> c[i] != 0u8 && c[i] != 0x2fu8
}

/// Every component of the path is one the tar builder takes as given.
pub open spec fn comps_ok(p: Seq<Seq<u8>>) -> bool {
    forall|i: int| 0 <= i < p.len() ==> component_ok(#[trigger] p[i])
}

/// A member name the tar builder accepts: the `/`-joining of at least
/// one acceptable component.  Such a name is relative and nul-free, its
/// path components are exactly the joined ones, and none of them is `.`
/// or `..`; the builder encodes it in the header directly, or through
/// the GNU long-name extension when it does not fit.
pub open spec fn tar_name_ok(name: Seq<u8>) -> bool {
    exists|p: Seq<Seq<u8>>| name == spec_join(p) && p.len() > 0 && comps_ok(p)
}

/// A link target the tar builder accepts: nonempty and free of nul
/// bytes.  (A target is not a member name: absolute targets and dot
/// components are legitimate there, and the builder takes them.)
pub open spec fn link_ok(t: Seq<u8>) -> bool {
    t.len() > 0 && forall|i: int| 0 <= i < t.len() ==> t[i] != 0u8
}

/// An entry the tar builder is sure to accept: its joined path is an
/// acceptable member name, and a symlink's target is an acceptable link
/// target.
pub open spec fn entry_name_ok(e: EntryV) -> bool {
    &&& e.path.len() > 0
    &&& comps_ok(e.path)
    &&& (e.kind is Symlink ==> link_ok(e.data))
}

/// Every entry of the plan is one the tar builder is sure to accept.
pub open spec fn entries_name_ok(es: Seq<EntryV>) -> bool {
    forall|i: int| 0 <= i < es.len() ==> entry_name_ok(#[trigger] es[i])
}

/// An in-memory tar stream under construction.  Verus refuses the
/// builder type's own declaration (its `Write` bound), so the builder
/// is held opaquely and described by [`tar_contents`] alone.
#[verifier::external_body]
pub struct TarSink {
    inner: tar::Builder<Vec<u8>>,
}

/// The entries recorded so far in an in-memory tar stream under
/// construction: what was appended, in order.
pub uninterp spec fn tar_contents(b: TarSink) -> Seq<TarRecord>;

/// The bytes of the finished tar stream holding the given records: with
/// every header field set explicitly from the record, the stream is a
/// function of the records alone.
pub uninterp spec fn tar_bytes_of(records: Seq<TarRecord>) -> Seq<u8>;

/// Relies on tar::Builder::new: a fresh builder over an empty in-memory
/// buffer holds no entries.
#[verifier::external_body]
fn tar_new() -> (b: TarSink)
    ensures
        tar_contents(b) == Seq::<TarRecord>::empty(),
{
    TarSink { inner: tar::Builder::new(Vec::new()) }
}

/// Relies on tar::Builder::append_data with a GNU header: appends one
/// file or directory entry whose header carries the given name, size,
/// mode, mtime, owner and group, and whose content is `data` (empty for
/// a directory).  The name reaches the stream through a lossy UTF-8
/// conversion, so ill-formed UTF-8 in it is replaced before appending;
/// that replacement touches no separator, nul or dot byte, so a name
/// that [`tar_name_ok`] admits is accepted either way: over an
/// in-memory sink the builder then fails on nothing — a name too long
/// for the header goes through the GNU long-name extension.
#[verifier::external_body]
fn tar_append_entry(
    b: &mut TarSink,
    name: &Vec<u8>,
    is_dir: bool,
    data: &Vec<u8>,
    mode: u32,
    mtime: u64,
    uid: u64,
    gid: u64,
) -> (r: Result<(), ()>)
    ensures
        r is Ok ==> tar_contents(*final(b)) == tar_contents(*old(b)).push(
            (
                name@,
                if is_dir {
                    1u8
                } else {
                    0u8
                },
                data@,
                mode,
                mtime,
                uid,
                gid,
            ),
        ),
        tar_name_ok(name@) ==> r is Ok,
{
    let mut h = tar::Header::new_gnu();
    h.set_entry_type(if is_dir { tar::EntryType::dir() } else { tar::EntryType::file() });
    h.set_size(if is_dir { 0 } else { data.len() as u64 });
    h.set_mode(mode);
    h.set_mtime(mtime);
    h.set_uid(uid);
    h.set_gid(gid);
    let name_str = String::from_utf8_lossy(name.as_slice()).into_owned();
    let content: &[u8] = if is_dir { &[] } else { data.as_slice() };
    b.inner.append_data(&mut h, name_str, content).map_err(|_| ())
}

/// Relies on tar::Builder::append_link with a GNU header: appends one
/// symlink entry whose header carries the given name, mode, mtime,
/// owner and group, pointing at `target`.  Name and target reach the
/// stream through a lossy UTF-8 conversion, as in [`tar_append_entry`];
/// over an in-memory sink the builder accepts every name
/// [`tar_name_ok`] admits and every target [`link_ok`] admits — a long
/// name or target goes through the GNU long-name extension.
#[verifier::external_body]
fn tar_append_symlink(
    b: &mut TarSink,
    name: &Vec<u8>,
    target: &Vec<u8>,
    mode: u32,
    mtime: u64,
    uid: u64,
    gid: u64,
) -> (r: Result<(), ()>)
    ensures
        r is Ok ==> tar_contents(*final(b)) == tar_contents(*old(b)).push(
            (name@, 2u8, target@, mode, mtime, uid, gid),
        ),
        tar_name_ok(name@) && link_ok(target@) ==> r is Ok,
{
    let mut h = tar::Header::new_gnu();
    h.set_entry_type(tar::EntryType::symlink());
    h.set_size(0);
    h.set_mode(mode);
    h.set_mtime(mtime);
    h.set_uid(uid);
    h.set_gid(gid);
    let name_str = String::from_utf8_lossy(name.as_slice()).into_owned();
    let target_str = String::from_utf8_lossy(target.as_slice()).into_owned();
    b.inner.append_link(&mut h, name_str, target_str).map_err(|_| ())
}

/// Relies on tar::Builder::into_inner: writes the end-of-archive blocks
/// and hands back the buffer — the bytes of the stream holding exactly
/// the recorded entries.  Over an in-memory sink those writes cannot
/// fail, so the buffer always comes back.
#[verifier::external_body]
fn tar_finish(b: TarSink) -> (r: Result<Vec<u8>, ()>)
    ensures
        r is Ok,
        r matches Ok(bytes) ==> bytes@ == tar_bytes_of(tar_contents(b)),
{
    b.inner.into_inner().map_err(|_| ())
}

/// Serializes an archive plan into an in-memory tar stream, entry by
/// entry in plan order.  When every entry carries a name the builder is
/// sure to accept, serialization succeeds.
#[verifier::loop_isolation(false)]
pub fn encode_tar(plan: &Vec<FsEntry>) -> (r: Result<Vec<u8>, ()>)
    ensures
        r matches Ok(bytes) ==> bytes@ == tar_bytes_of(records_of(view_entries(plan@))),
        entries_name_ok(view_entries(plan@)) ==> r is Ok,
{
    let mut builder = tar_new();
    let mut i: usize = 0;
    while i < plan.len()
        invariant
            0 <= i <= plan@.len(),
            tar_contents(builder) == records_of(view_entries(plan@).take(i as int)),
        decreases plan.len() - i,
    {
        let e = &plan[i];
        let name = join_path(&e.path);
        let appended = match e.kind {
            EntryKind::File => tar_append_entry(
                &mut builder,
                &name,
                false,
                &e.data,
                e.mode,
                e.mtime,
                e.uid,
                e.gid,
            ),
            EntryKind::Dir => tar_append_entry(
                &mut builder,
                &name,
                true,
                &e.data,
                e.mode,
                e.mtime,
                e.uid,
                e.gid,
            ),
            EntryKind::Symlink => tar_append_symlink(
                &mut builder,
                &name,
                &e.data,
                e.mode,
                e.mtime,
                e.uid,
                e.gid,
            ),
        };
        if appended.is_err() {
            proof {
                if entries_name_ok(view_entries(plan@)) {
                    assert(view_entries(plan@)[i as int] == e@);
                    assert(entry_name_ok(e@));
                    assert(tar_name_ok(name@)) by {
                        assert(name@ == spec_join(e@.path) && e@.path.len() > 0 && comps_ok(
                            e@.path,
                        ));
                    }
                    assert(false);
                }
            }
            return Result::Err(());
        }
        proof {
            assert(view_entries(plan@)[i as int] == e@);
            assert(tar_contents(builder) =~= records_of(view_entries(plan@).take(i as int)).push(
                entry_record(e@),
            ));
            assert(view_entries(plan@).take(i + 1) =~= view_entries(plan@).take(i as int).push(
                e@,
            ));
            assert(records_of(view_entries(plan@).take(i + 1)) =~= records_of(
                view_entries(plan@).take(i as int),
            ).push(entry_record(e@)));
        }
        i = i + 1;
    }
    proof {
        assert(view_entries(plan@).take(plan@.len() as int) =~= view_entries(plan@));
    }
    tar_finish(builder)
}

/// The gzip encoding of a byte stream at the default compression level
/// with an empty timestamp: a function of the input bytes alone.
pub uninterp spec fn gzip_of(data: Seq<u8>) -> Seq<u8>;

/// The xz encoding of a byte stream at preset 6 with a CRC32 integrity
/// check, single-threaded: a function of the input bytes alone.
pub uninterp spec fn xz_of(data: Seq<u8>) -> Seq<u8>;

/// The zstd encoding of a byte stream at level 19 with content
/// checksums, single-threaded: a function of the input bytes alone.
pub uninterp spec fn zstd_of(data: Seq<u8>) -> Seq<u8>;

/// The bzip2 encoding of a byte stream at the best compression level: a
/// function of the input bytes alone.
pub uninterp spec fn bz2_of(data: Seq<u8>) -> Seq<u8>;

/// Relies on flate2::write::GzEncoder at the default compression level:
/// gzip-compresses the stream into an in-memory sink.  With a fixed
/// level, an empty timestamp and a fixed system byte in the gzip
/// header, the output is a function of the input bytes alone; the
/// encoder writes only to memory, so it succeeds.
#[verifier::external_body]
fn gzip_compress(data: &Vec<u8>) -> (r: Result<Vec<u8>, ()>)
    ensures
        r is Ok,
        r matches Ok(out) ==> out@ == gzip_of(data@),
{
    let mut enc = flate2::write::GzEncoder::new(Vec::new(), flate2::Compression::default());
    enc.write_all(data.as_slice()).map_err(|_| ())?;
    enc.finish().map_err(|_| ())
}

/// Relies on xz2's XzEncoder over an easy encoder stream at preset 6
/// with a CRC32 integrity check: xz-compresses the stream into an
/// in-memory sink.  The preset is valid and the check built in, the
/// encoding runs single-threaded, and the sink is memory, so the only
/// failure the codec library can report is its own allocation giving
/// out; the output is a function of the input bytes alone.
#[verifier::external_body]
fn xz_compress(data: &Vec<u8>) -> (r: Result<Vec<u8>, ()>)
    ensures
        r is Ok,
        r matches Ok(out) ==> out@ == xz_of(data@),
{
    let stream = xz2::stream::Stream::new_easy_encoder(6, xz2::stream::Check::Crc32).map_err(
        |_| (),
    )?;
    let mut enc = xz2::write::XzEncoder::new_stream(Vec::new(), stream);
    enc.write_all(data.as_slice()).map_err(|_| ())?;
    enc.finish().map_err(|_| ())
}

/// Relies on zstd::Encoder at level 19 with content checksums enabled:
/// zstd-compresses the stream into an in-memory sink.  The level and
/// the checksum parameter are valid, the encoding runs single-threaded,
/// and the sink is memory, so the only failure the codec library can
/// report is its own allocation giving out; the output is a function of
/// the input bytes alone.
#[verifier::external_body]
fn zstd_compress(data: &Vec<u8>) -> (r: Result<Vec<u8>, ()>)
    ensures
        r is Ok,
        r matches Ok(out) ==> out@ == zstd_of(data@),
{
    let mut enc = zstd::Encoder::new(Vec::new(), 19).map_err(|_| ())?;
    enc.include_checksum(true).map_err(|_| ())?;
    enc.write_all(data.as_slice()).map_err(|_| ())?;
    enc.finish().map_err(|_| ())
}

/// Relies on bzip2::write::BzEncoder at the best compression level:
/// bzip2-compresses the stream into an in-memory sink.  The level is
/// valid and the sink is memory, so the encoder succeeds; the output is
/// a function of the input bytes alone.
#[verifier::external_body]
fn bz2_compress(data: &Vec<u8>) -> (r: Result<Vec<u8>, ()>)
    ensures
        r is Ok,
        r matches Ok(out) ==> out@ == bz2_of(data@),
{
    let mut enc = bzip2::write::BzEncoder::new(Vec::new(), bzip2::Compression::best());
    enc.write_all(data.as_slice()).map_err(|_| ())?;
    enc.finish().map_err(|_| ())
}

/// The artifact bytes a codec makes of a tar stream: the stream itself
/// for an uncompressed archive, the named encoder output otherwise.
pub open spec fn spec_artifact(codec: Compression, stream: Seq<u8>) -> Seq<u8> {
    match codec {
        Compression::Gz => gzip_of(stream),
        Compression::Xz => xz_of(stream),
        Compression::Zst => zstd_of(stream),
        Compression::Zstd => zstd_of(stream),
        Compression::Bz2 => bz2_of(stream),
        Compression::Not => stream,
    }
}

/// Wraps a tar stream in the chosen codec.  An uncompressed archive is
/// the stream itself; for the compressing codecs the result is the
/// encoder's output on the stream, and every codec succeeds.
pub fn compress_bytes(codec: Compression, data: &Vec<u8>) -> (r: Result<Vec<u8>, ()>)
    ensures
        r is Ok,
        r matches Ok(out) ==> out@ == spec_artifact(codec, data@),
{
    match codec {
        Compression::Gz => gzip_compress(data),
        Compression::Xz => xz_compress(data),
        Compression::Zst => zstd_compress(data),
        Compression::Zstd => zstd_compress(data),
        Compression::Bz2 => bz2_compress(data),
        Compression::Not => Result::Ok(crate::paths::clone_bytes(data)),
    }
}

} // verus!
