//! Compression codecs, output-suffix dispatch and format sniffing.
//!
//! The codec for an archive being written is chosen by the output file
//! name's suffix, as a total function from a closed set of recognized
//! suffixes to a codec, with an explicit error for anything else.  The
//! codec of an existing archive is classified by its magic bytes.

use vstd::prelude::*;
use vstd::string::StrSliceExecFns;

verus! {

/// The supported compression codecs; `Not` is a raw uncompressed tar.
#[derive(Clone, Copy, PartialEq, Eq, Structural, Debug)]
pub enum Compression {
    Gz,
    Xz,
    Zst,
    Zstd,
    Bz2,
    Not,
}

impl Default for Compression {
    /// The codec used when none is named.
    fn default() -> (r: Self)
        ensures
            r == Compression::Zst,
    {
        Compression::Zst
    }
}

impl Compression {
    /// The output-file extension that selects this codec.
    pub fn to_extension(&self) -> (r: &'static str)
        ensures
            r@ == spec_extension(*self),
    {
        match self {
            Compression::Gz => ".tar.gz",
            Compression::Xz => ".tar.xz",
            Compression::Zst => ".tar.zst",
            Compression::Zstd => ".tar.zstd",
            Compression::Bz2 => ".tar.bz2",
            Compression::Not => ".tar",
        }
    }

    /// A short human-readable name for the codec.
    pub fn label(&self) -> (r: &'static str)
        ensures
            r@ == spec_label(*self),
    {
        match self {
            Compression::Gz => "gz",
            Compression::Xz => "xz",
            Compression::Zst => "zst",
            Compression::Zstd => "zst",
            Compression::Bz2 => "bz2",
            Compression::Not => "tar (uncompressed)",
        }
    }
}

/// The extension each codec writes.
pub open spec fn spec_extension(c: Compression) -> Seq<char> {
    match c {
        Compression::Gz => ".tar.gz"@,
        Compression::Xz => ".tar.xz"@,
        Compression::Zst => ".tar.zst"@,
        Compression::Zstd => ".tar.zstd"@,
        Compression::Bz2 => ".tar.bz2"@,
        Compression::Not => ".tar"@,
    }
}

/// The display name of each codec.
pub open spec fn spec_label(c: Compression) -> Seq<char> {
    match c {
        Compression::Gz => "gz"@,
        Compression::Xz => "xz"@,
        Compression::Zst => "zst"@,
        Compression::Zstd => "zst"@,
        Compression::Bz2 => "bz2"@,
        Compression::Not => "tar (uncompressed)"@,
    }
}

/// The error for an archive whose format no codec handles.
#[derive(Debug)]
pub struct UnsupportedFormat {
    pub ext: String,
}

impl UnsupportedFormat {
    /// The user-facing description of the error.
    pub fn message(&self) -> (r: String)
        ensures
            r@ == "Unsupported archive format: "@ + self.ext@,
    {
        let head = String::from_str("Unsupported archive format: ");
        head.concat(self.ext.as_str())
    }
}

/// `s` ends in `suffix`.
pub open spec fn spec_ends_with(s: Seq<char>, suffix: Seq<char>) -> bool {
    s.len() >= suffix.len() && forall|i: int|
        0 <= i < suffix.len() ==> s[s.len() - suffix.len() + i] == suffix[i]
}

/// Whether `s` ends in `suffix`.
pub fn str_ends_with(s: &str, suffix: &str) -> (r: bool)
    ensures
        r == spec_ends_with(s@, suffix@),
{
    let n = s.unicode_len();
    let m = suffix.unicode_len();
    if n < m {
        return false;
    }
    let mut i: usize = 0;
    while i < m
        invariant
            0 <= i <= m,
            m <= n,
            n == s@.len(),
            m == suffix@.len(),
            forall|j: int| 0 <= j < i ==> s@[n - m + j] == suffix@[j],
        decreases m - i,
    {
        if s.get_char(n - m + i) != suffix.get_char(i) {
            return false;
        }
        i = i + 1;
    }
    true
}

/// Whether two strings hold the same characters.
pub fn str_eq(a: &str, b: &str) -> (r: bool)
    ensures
        r == (a@ == b@),
{
    let n = a.unicode_len();
    if n != b.unicode_len() {
        return false;
    }
    let mut i: usize = 0;
    while i < n
        invariant
            0 <= i <= n,
            n == a@.len(),
            n == b@.len(),
            forall|j: int| 0 <= j < i ==> a@[j] == b@[j],
        decreases n - i,
    {
        if a.get_char(i) != b.get_char(i) {
            return false;
        }
        i = i + 1;
    }
    proof {
        assert(a@ =~= b@);
    }
    true
}

/// The codec an output file name selects, if any.
pub open spec fn spec_suffix_codec(name: Seq<char>) -> Option<Compression> {
    if spec_ends_with(name, ".tar.gz"@) {
        Option::Some(Compression::Gz)
    } else if spec_ends_with(name, ".tar.xz"@) {
        Option::Some(Compression::Xz)
    } else if spec_ends_with(name, ".tar.zst"@) {
        Option::Some(Compression::Zst)
    } else if spec_ends_with(name, ".tar.zstd"@) {
        Option::Some(Compression::Zstd)
    } else if spec_ends_with(name, ".tar.bz"@) || spec_ends_with(name, ".tar.bz2"@) {
        Option::Some(Compression::Bz2)
    } else if spec_ends_with(name, ".tar"@) {
        Option::Some(Compression::Not)
    } else {
        Option::None
    }
}

/// Chooses the codec for an archive about to be written from its output
/// file name's suffix.  An unrecognized suffix is rejected before any
/// work is done.
pub fn detect_compression(outfile: &str) -> (r: Result<Compression, UnsupportedFormat>)
    ensures
        (r matches Result::Ok(c) ==> spec_suffix_codec(outfile@) == Option::Some(c)),
        (r matches Result::Err(u) ==> spec_suffix_codec(outfile@) is None && u.ext@ == outfile@),
        (r is Ok) == (spec_suffix_codec(outfile@) is Some),
{
    if str_ends_with(outfile, ".tar.gz") {
        Result::Ok(Compression::Gz)
    } else if str_ends_with(outfile, ".tar.xz") {
        Result::Ok(Compression::Xz)
    } else if str_ends_with(outfile, ".tar.zst") {
        Result::Ok(Compression::Zst)
    } else if str_ends_with(outfile, ".tar.zstd") {
        Result::Ok(Compression::Zstd)
    } else if str_ends_with(outfile, ".tar.bz") {
        Result::Ok(Compression::Bz2)
    } else if str_ends_with(outfile, ".tar.bz2") {
        Result::Ok(Compression::Bz2)
    } else if str_ends_with(outfile, ".tar") {
        Result::Ok(Compression::Not)
    } else {
        Result::Err(UnsupportedFormat { ext: outfile.to_owned() })
    }
}

} // verus!

verus! {

#[verifier::external_type_specification]
#[verifier::external_body]
pub struct ExPathBuf(std::path::PathBuf);

/// An archive file classified by its magic bytes: its codec and its
/// location.  `Dir` marks a source that is a directory rather than an
/// archive.
#[derive(Debug)]
pub enum SupportedFormat {
    Compressed(Compression, std::path::PathBuf),
    Dir(std::path::PathBuf),
}

/// The mime type that magic-byte sniffing assigns to a buffer: a
/// function of the buffer's bytes alone.
pub uninterp spec fn sniffed_mime(bytes: Seq<u8>) -> Option<Seq<char>>;

/// Relies on infer::get: the file type, and with it the mime string, is
/// computed from the buffer's leading magic bytes alone.
#[verifier::external_body]
fn sniff_mime(bytes: &Vec<u8>) -> (r: Option<String>)
    ensures
        match r {
            Option::Some(m) => sniffed_mime(bytes@) == Option::Some(m@),
            Option::None => sniffed_mime(bytes@) is None,
        },
{
    infer::get(bytes.as_slice()).map(|t| t.mime_type().to_string())
}

/// The codec a sniffed mime type names, if any.
pub open spec fn spec_mime_codec(m: Seq<char>) -> Option<Compression> {
    if m == "application/gzip"@ {
        Option::Some(Compression::Gz)
    } else if m == "application/x-xz"@ {
        Option::Some(Compression::Xz)
    } else if m == "application/zstd"@ {
        Option::Some(Compression::Zst)
    } else if m == "application/x-bzip2"@ {
        Option::Some(Compression::Bz2)
    } else if m == "application/x-tar"@ {
        Option::Some(Compression::Not)
    } else {
        Option::None
    }
}

/// The classification of a buffer: the codec of the mime type its magic
/// bytes name.
pub open spec fn spec_classified(sm: Option<Seq<char>>) -> Option<Compression> {
    match sm {
        Option::Some(m) => spec_mime_codec(m),
        Option::None => Option::None,
    }
}

/// The extension reported when classification fails.
pub open spec fn spec_err_ext(ext: Option<String>) -> Seq<char> {
    match ext {
        Option::Some(e) => e@,
        Option::None => "unknown format"@,
    }
}

/// Classifies an existing archive by the magic bytes at its head.
///
/// `head` holds the file's leading bytes, `src` its location, carried
/// into the result; `ext` is the file name's extension, reported when
/// the content is not a supported archive.
pub fn is_supported_format(head: &Vec<u8>, src: std::path::PathBuf, ext: Option<String>) -> (r:
    Result<SupportedFormat, UnsupportedFormat>)
    ensures
        (r is Ok) == (spec_classified(sniffed_mime(head@)) is Some),
        (r matches Result::Ok(f) ==> f matches SupportedFormat::Compressed(c, p) && Option::Some(c)
            == spec_classified(sniffed_mime(head@)) && p == src),
        (r matches Result::Err(u) ==> u.ext@ == spec_err_ext(ext)),
{
    let sniffed = sniff_mime(head);
    match sniffed {
        Option::Some(m) => {
            if str_eq(m.as_str(), "application/gzip") {
                Result::Ok(SupportedFormat::Compressed(Compression::Gz, src))
            } else if str_eq(m.as_str(), "application/x-xz") {
                Result::Ok(SupportedFormat::Compressed(Compression::Xz, src))
            } else if str_eq(m.as_str(), "application/zstd") {
                Result::Ok(SupportedFormat::Compressed(Compression::Zst, src))
            } else if str_eq(m.as_str(), "application/x-bzip2") {
                Result::Ok(SupportedFormat::Compressed(Compression::Bz2, src))
            } else if str_eq(m.as_str(), "application/x-tar") {
                Result::Ok(SupportedFormat::Compressed(Compression::Not, src))
            } else {
                Result::Err(
                    UnsupportedFormat {
                        ext: match ext {
                            Option::Some(e) => e,
                            Option::None => String::from_str("unknown format"),
                        },
                    },
                )
            }
        },
        Option::None => Result::Err(
            UnsupportedFormat {
                ext: match ext {
                    Option::Some(e) => e,
                    Option::None => String::from_str("unknown format"),
                },
            },
        ),
    }
}

} // verus!
