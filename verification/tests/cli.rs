use libroast::cli::{
    RawArgs, RecomprizzArgs, RoastArgs, RoastScmArgs, UrlError, get_additional_paths,
    parse_rel_path, raw_cli_stub, recomprizz_cli_stub, roast_cli_stub, roast_scm_cli_stub,
};
use libroast::common::{Compression, SupportedFormat, detect_compression};
use libroast::paths::RelPath;
use std::io::Write;

fn roast_args(outfile: &str) -> RoastArgs {
    RoastArgs {
        target: "/home/user/proj".to_string(),
        incl: None,
        exclude: None,
        additional_paths: None,
        outfile: outfile.to_string(),
        outdir: None,
        preserve_root: true,
        reproducible: true,
        ignore_git: true,
        ignore_hidden: false,
    }
}

#[test]
fn suffixes_pick_their_codec() {
    assert_eq!(detect_compression("a.tar.gz").unwrap(), Compression::Gz);
    assert_eq!(detect_compression("a.tar.xz").unwrap(), Compression::Xz);
    assert_eq!(detect_compression("a.tar.zst").unwrap(), Compression::Zst);
    assert_eq!(detect_compression("a.tar.zstd").unwrap(), Compression::Zstd);
    assert_eq!(detect_compression("a.tar.bz").unwrap(), Compression::Bz2);
    assert_eq!(detect_compression("a.tar.bz2").unwrap(), Compression::Bz2);
    assert_eq!(detect_compression("a.tar").unwrap(), Compression::Not);
    let err = detect_compression("a.rar").unwrap_err();
    assert_eq!(err.ext, "a.rar".to_string());
}

#[test]
fn codec_extensions_round_trip_through_detection() {
    for codec in [
        Compression::Gz,
        Compression::Xz,
        Compression::Zst,
        Compression::Zstd,
        Compression::Bz2,
        Compression::Not,
    ] {
        let name = format!("name{}", codec.to_extension());
        let detected = detect_compression(&name).unwrap();
        assert_eq!(codec.to_extension(), detected.to_extension());
    }
}

#[test]
fn roast_stub_validates_and_translates() {
    let mut args = roast_args("out.tar.zst");
    args.incl = Some(vec!["a/b.txt".to_string()]);
    args.exclude = Some(vec!["a".to_string()]);
    args.additional_paths = Some(vec!["/elsewhere/extra,vendor/in".to_string()]);
    let plan = roast_cli_stub(&args).unwrap();
    assert_eq!(plan.codec, Compression::Zst);
    assert_eq!(plan.request.root_name, b"proj".to_vec());
    assert_eq!(plan.request.incl.len(), 1);
    assert_eq!(
        plan.request.incl[0].parts,
        vec![b"a".to_vec(), b"b.txt".to_vec()]
    );
    assert_eq!(plan.request.exclude[0].parts, vec![b"a".to_vec()]);
    assert!(plan.request.ignore_vcs);
    assert!(!plan.request.ignore_hidden);
    assert!(plan.request.reproducible);
    assert_eq!(plan.additional_sources.len(), 1);
    assert_eq!(plan.additional_sources[0].0, b"/elsewhere/extra".to_vec());
    assert_eq!(
        plan.additional_sources[0].1.parts,
        vec![b"vendor".to_vec(), b"in".to_vec()]
    );
}

#[test]
fn roast_stub_rejects_bad_suffix() {
    let args = roast_args("out.rar");
    let err = roast_cli_stub(&args).unwrap_err();
    assert_eq!(err.ext, "out.rar".to_string());
}

#[test]
fn additional_path_without_destination_lands_at_root() {
    let root = RelPath { parts: vec![b"base".to_vec()] };
    let (src, dest) = get_additional_paths(&b"/some/file".to_vec(), &root);
    assert_eq!(src, b"/some/file".to_vec());
    assert_eq!(dest.parts, vec![b"base".to_vec()]);

    let (src2, dest2) = get_additional_paths(&b"/some/file,".to_vec(), &root);
    assert_eq!(src2, b"/some/file".to_vec());
    assert_eq!(dest2.parts, vec![b"base".to_vec()]);

    let (src3, dest3) = get_additional_paths(&b"/some/file,put/here".to_vec(), &root);
    assert_eq!(src3, b"/some/file".to_vec());
    assert_eq!(
        dest3.parts,
        vec![b"base".to_vec(), b"put".to_vec(), b"here".to_vec()]
    );
}

#[test]
fn path_parsing_normalizes_separators() {
    let p = parse_rel_path(&b"//a//b/".to_vec());
    assert_eq!(p.parts, vec![b"a".to_vec(), b"b".to_vec()]);
    let empty = parse_rel_path(&b"".to_vec());
    assert!(empty.parts.is_empty());
}

#[test]
fn recomprizz_strips_extensions_down_to_the_version() {
    let args = RecomprizzArgs {
        target: "/archives/source-1.2.3.tar.gz".to_string(),
        incl: None,
        exclude: None,
        additional_paths: None,
        outdir: None,
        compression: Compression::Zst,
        rename: None,
        reproducible: true,
        ignore_git: true,
        ignore_hidden: false,
    };
    let name = recomprizz_cli_stub(&args);
    assert_eq!(name, b"source-1.2.3.tar.zst".to_vec());
}

#[test]
fn recomprizz_respects_rename() {
    let args = RecomprizzArgs {
        target: "/archives/source-1.2.3.tar.gz".to_string(),
        incl: None,
        exclude: None,
        additional_paths: None,
        outdir: None,
        compression: Compression::Gz,
        rename: Some("renamed".to_string()),
        reproducible: true,
        ignore_git: true,
        ignore_hidden: false,
    };
    assert_eq!(recomprizz_cli_stub(&args), b"renamed.tar.gz".to_vec());
}

#[test]
fn recomprizz_stops_when_no_extension_remains() {
    let args = RecomprizzArgs {
        target: "plain.tar.gz".to_string(),
        incl: None,
        exclude: None,
        additional_paths: None,
        outdir: None,
        compression: Compression::Not,
        rename: None,
        reproducible: true,
        ignore_git: true,
        ignore_hidden: false,
    };
    assert_eq!(recomprizz_cli_stub(&args), b"plain.tar".to_vec());
}

fn scm_args(url: &str, outfile: Option<&str>) -> RoastScmArgs {
    RoastScmArgs {
        git_repository_url: url.to_string(),
        exclude: None,
        revision: "v1.0".to_string(),
        depth: 1,
        is_temporary: true,
        outfile: outfile.map(|s| s.to_string()),
        outdir: None,
        reproducible: true,
        ignore_git: true,
        ignore_hidden: false,
        compression: Compression::Zst,
    }
}

#[test]
fn scm_outfile_derived_from_url_and_revision() {
    let args = scm_args("https://example.org/octocat/hello.git", None);
    let name = roast_scm_cli_stub(&args, "1.0+git3.gabc").unwrap();
    assert_eq!(name, b"hello-1.0+git3.gabc.tar.zst".to_vec());
}

#[test]
fn scm_outfile_explicit_name_wins() {
    let args = scm_args("https://example.org/octocat/hello.git", Some("given.tar.gz"));
    let name = roast_scm_cli_stub(&args, "1.0").unwrap();
    assert_eq!(name, b"given.tar.gz".to_vec());
}

#[test]
fn scm_bad_url_is_rejected() {
    let args = scm_args("not a url at all", None);
    assert!(matches!(
        roast_scm_cli_stub(&args, "1.0"),
        Err(UrlError::Unparseable)
    ));
}

#[test]
fn scm_url_without_repository_segment_is_rejected() {
    let args = scm_args("mailto:user@example.org", None);
    assert!(matches!(
        roast_scm_cli_stub(&args, "1.0"),
        Err(UrlError::Unparseable) | Err(UrlError::NoBasename)
    ));
}

fn raw_args(target: &str) -> RawArgs {
    RawArgs { target: target.to_string(), outdir: None }
}

#[test]
fn gzip_magic_is_classified() {
    let mut enc = flate2::write::GzEncoder::new(Vec::new(), flate2::Compression::default());
    enc.write_all(b"payload").unwrap();
    let bytes = enc.finish().unwrap();
    match raw_cli_stub(&raw_args("/x/y.tar.gz"), &bytes).unwrap() {
        SupportedFormat::Compressed(c, _) => assert_eq!(c, Compression::Gz),
        SupportedFormat::Dir(_) => panic!("classified a stream as a directory"),
    }
}

#[test]
fn zstd_magic_is_classified() {
    let bytes = zstd::encode_all(std::io::Cursor::new(b"payload".to_vec()), 3).unwrap();
    match raw_cli_stub(&raw_args("/x/y.tar.zst"), &bytes).unwrap() {
        SupportedFormat::Compressed(c, _) => assert_eq!(c, Compression::Zst),
        SupportedFormat::Dir(_) => panic!("classified a stream as a directory"),
    }
}

#[test]
fn xz_magic_is_classified() {
    let mut enc = xz2::write::XzEncoder::new(Vec::new(), 6);
    enc.write_all(b"payload").unwrap();
    let bytes = enc.finish().unwrap();
    match raw_cli_stub(&raw_args("/x/y.tar.xz"), &bytes).unwrap() {
        SupportedFormat::Compressed(c, _) => assert_eq!(c, Compression::Xz),
        SupportedFormat::Dir(_) => panic!("classified a stream as a directory"),
    }
}

#[test]
fn bzip2_magic_is_classified() {
    let mut enc = bzip2::write::BzEncoder::new(Vec::new(), bzip2::Compression::best());
    enc.write_all(b"payload").unwrap();
    let bytes = enc.finish().unwrap();
    match raw_cli_stub(&raw_args("/x/y.tar.bz2"), &bytes).unwrap() {
        SupportedFormat::Compressed(c, _) => assert_eq!(c, Compression::Bz2),
        SupportedFormat::Dir(_) => panic!("classified a stream as a directory"),
    }
}

#[test]
fn unknown_magic_reports_the_extension() {
    let bytes = b"just some text, no magic".to_vec();
    let err = raw_cli_stub(&raw_args("/x/y.rar"), &bytes).unwrap_err();
    assert_eq!(err.ext, "rar".to_string());
    let err2 = raw_cli_stub(&raw_args("noext"), &bytes).unwrap_err();
    assert_eq!(err2.ext, "unknown format".to_string());
}

#[test]
fn compression_labels() {
    assert_eq!(Compression::Gz.label(), "gz");
    assert_eq!(Compression::Zstd.label(), "zst");
    assert_eq!(Compression::Not.label(), "tar (uncompressed)");
}

#[test]
fn tar_magic_is_classified() {
    let mut builder = tar::Builder::new(Vec::new());
    let mut header = tar::Header::new_gnu();
    header.set_size(4);
    header.set_cksum();
    builder
        .append_data(&mut header, "f.txt", std::io::Cursor::new(b"data"))
        .unwrap();
    let bytes = builder.into_inner().unwrap();
    match raw_cli_stub(&raw_args("/x/y.tar"), &bytes).unwrap() {
        SupportedFormat::Compressed(c, _) => assert_eq!(c, Compression::Not),
        SupportedFormat::Dir(_) => panic!("classified a stream as a directory"),
    }
}

#[test]
fn newest_match_takes_the_greatest_name() {
    let names = vec![
        b"name-v1.tar".to_vec(),
        b"name-v2.tar".to_vec(),
        b"name-v10.tar".to_vec(),
    ];
    assert_eq!(
        libroast::paths::newest_match(&names),
        Some(b"name-v2.tar".to_vec())
    );
    assert_eq!(libroast::paths::newest_match(&Vec::new()), None);
}
