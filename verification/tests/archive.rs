use std::io::Read;

use libroast::paths::RelPath;
use libroast::roast::{RoastError, roast_opts, roast_tar};
use libroast::stage::{AdditionalSet, ArchiveRequest, EntryKind, FsEntry};

fn path(s: &str) -> RelPath {
    RelPath {
        parts: s
            .split('/')
            .filter(|c| !c.is_empty())
            .map(|c| c.as_bytes().to_vec())
            .collect(),
    }
}

fn file_at(p: &str, data: &[u8], mtime: u64) -> FsEntry {
    FsEntry {
        path: path(p),
        kind: EntryKind::File,
        data: data.to_vec(),
        mode: 0o644,
        mtime,
        uid: 1000,
        gid: 1000,
    }
}

fn dir_at(p: &str, mtime: u64) -> FsEntry {
    FsEntry {
        path: path(p),
        kind: EntryKind::Dir,
        data: Vec::new(),
        mode: 0o755,
        mtime,
        uid: 1000,
        gid: 1000,
    }
}

fn sample_tree(mtime: u64) -> Vec<FsEntry> {
    vec![
        dir_at("src", mtime),
        file_at("src/main.rs", b"fn main() {}\n", mtime),
        file_at("README", b"hello\n", mtime),
        FsEntry {
            path: path("link"),
            kind: EntryKind::Symlink,
            data: b"README".to_vec(),
            mode: 0o777,
            mtime,
            uid: 1000,
            gid: 1000,
        },
    ]
}

fn request(reproducible: bool) -> ArchiveRequest {
    ArchiveRequest {
        root_name: b"proj".to_vec(),
        incl: Vec::new(),
        exclude: Vec::new(),
        preserve_root: true,
        ignore_hidden: false,
        ignore_vcs: false,
        reproducible,
        staging_marker: None,
    }
}

#[test]
fn repro_runs_are_byte_identical() {
    let (b1, _) = roast_tar(&request(true), sample_tree(1_700_000_000), Vec::new()).unwrap();
    let (b2, _) = roast_tar(&request(true), sample_tree(1_700_000_000), Vec::new()).unwrap();
    assert_eq!(b1, b2);
}

#[test]
fn repro_is_walk_order_insensitive() {
    let forward = sample_tree(1_700_000_000);
    let mut backward = sample_tree(1_700_000_000);
    backward.reverse();
    let (b1, _) = roast_tar(&request(true), forward, Vec::new()).unwrap();
    let (b2, _) = roast_tar(&request(true), backward, Vec::new()).unwrap();
    assert_eq!(b1, b2);
}

#[test]
fn repro_masks_metadata_drift() {
    // the same logical tree read at two different times carries
    // different mtimes; reproducible mode hides that
    let (b1, _) = roast_tar(&request(true), sample_tree(1_700_000_000), Vec::new()).unwrap();
    let (b2, _) = roast_tar(&request(true), sample_tree(1_800_000_000), Vec::new()).unwrap();
    assert_eq!(b1, b2);
}

#[test]
fn non_repro_runs_may_differ() {
    let (b1, _) = roast_tar(&request(false), sample_tree(1_700_000_000), Vec::new()).unwrap();
    let (b2, _) = roast_tar(&request(false), sample_tree(1_800_000_000), Vec::new()).unwrap();
    assert_ne!(b1, b2);
}

#[test]
fn tar_stream_holds_sorted_normalized_entries() {
    let (bytes, _) = roast_tar(&request(true), sample_tree(1_700_000_000), Vec::new()).unwrap();
    let mut archive = tar::Archive::new(std::io::Cursor::new(bytes));
    let mut names: Vec<String> = Vec::new();
    for entry in archive.entries().unwrap() {
        let mut entry = entry.unwrap();
        let header = entry.header();
        assert_eq!(header.mtime().unwrap(), 0);
        assert_eq!(header.uid().unwrap(), 0);
        assert_eq!(header.gid().unwrap(), 0);
        let name = entry.path().unwrap().to_string_lossy().into_owned();
        if name == "proj/src/main.rs" {
            let mut data = Vec::new();
            entry.read_to_end(&mut data).unwrap();
            assert_eq!(data, b"fn main() {}\n".to_vec());
            assert_eq!(entry.header().mode().unwrap(), 0o644);
        }
        if name == "proj/link" {
            assert!(entry.header().entry_type().is_symlink());
            let target = entry.link_name().unwrap().unwrap();
            assert_eq!(target.to_string_lossy().into_owned(), "README");
        }
        names.push(name);
    }
    let mut sorted = names.clone();
    sorted.sort();
    assert_eq!(names, sorted);
    assert_eq!(
        names,
        vec![
            "proj/README".to_string(),
            "proj/link".to_string(),
            "proj/src".to_string(),
            "proj/src/main.rs".to_string(),
        ]
    );
}

#[test]
fn round_trip_reproduces_bytes() {
    let (first, _) = roast_tar(&request(true), sample_tree(1_700_000_000), Vec::new()).unwrap();
    // extract the archive into an entry list, as an unpacking would
    let mut archive = tar::Archive::new(std::io::Cursor::new(first.clone()));
    let mut extracted: Vec<FsEntry> = Vec::new();
    for entry in archive.entries().unwrap() {
        let mut entry = entry.unwrap();
        let name = entry.path().unwrap().to_string_lossy().into_owned();
        let rel = name.strip_prefix("proj/").unwrap();
        let header = entry.header();
        let kind = if header.entry_type().is_dir() {
            EntryKind::Dir
        } else if header.entry_type().is_symlink() {
            EntryKind::Symlink
        } else {
            EntryKind::File
        };
        let data = match kind {
            EntryKind::Symlink => entry
                .link_name()
                .unwrap()
                .unwrap()
                .to_string_lossy()
                .into_owned()
                .into_bytes(),
            EntryKind::Dir => Vec::new(),
            EntryKind::File => {
                let mut d = Vec::new();
                entry.read_to_end(&mut d).unwrap();
                d
            }
        };
        extracted.push(FsEntry {
            path: path(rel),
            kind,
            data,
            mode: entry.header().mode().unwrap(),
            mtime: entry.header().mtime().unwrap(),
            uid: entry.header().uid().unwrap(),
            gid: entry.header().gid().unwrap(),
        });
    }
    // archive the extracted tree again with identical options
    let (second, _) = roast_tar(&request(true), extracted, Vec::new()).unwrap();
    assert_eq!(first, second);
}

#[test]
fn unsupported_suffix_rejected_before_work() {
    match roast_opts(&request(true), "out.rar", sample_tree(1_700_000_000), Vec::new()) {
        Err(RoastError::Unsupported(u)) => {
            assert_eq!(u.ext, "out.rar".to_string());
            let msg = u.message();
            assert_eq!(msg, "Unsupported archive format: out.rar".to_string());
        }
        _ => panic!("an unrecognized output suffix must be rejected"),
    }
}

#[test]
fn uncompressed_artifact_is_the_tar_stream() {
    let (tar_bytes, _) =
        roast_tar(&request(true), sample_tree(1_700_000_000), Vec::new()).unwrap();
    let (artifact, _) =
        roast_opts(&request(true), "out.tar", sample_tree(1_700_000_000), Vec::new()).unwrap();
    assert_eq!(artifact, tar_bytes);
}

#[test]
fn gzip_artifact_decodes_to_the_tar_stream() {
    let (tar_bytes, _) =
        roast_tar(&request(true), sample_tree(1_700_000_000), Vec::new()).unwrap();
    let (artifact, _) =
        roast_opts(&request(true), "out.tar.gz", sample_tree(1_700_000_000), Vec::new()).unwrap();
    assert_ne!(artifact, tar_bytes);
    let mut decoder = flate2::read::GzDecoder::new(std::io::Cursor::new(artifact));
    let mut decoded = Vec::new();
    decoder.read_to_end(&mut decoded).unwrap();
    assert_eq!(decoded, tar_bytes);
}

#[test]
fn xz_artifact_decodes_to_the_tar_stream() {
    let (tar_bytes, _) =
        roast_tar(&request(true), sample_tree(1_700_000_000), Vec::new()).unwrap();
    let (artifact, _) =
        roast_opts(&request(true), "out.tar.xz", sample_tree(1_700_000_000), Vec::new()).unwrap();
    let mut decoder = xz2::read::XzDecoder::new(std::io::Cursor::new(artifact));
    let mut decoded = Vec::new();
    decoder.read_to_end(&mut decoded).unwrap();
    assert_eq!(decoded, tar_bytes);
}

#[test]
fn zstd_artifact_decodes_to_the_tar_stream() {
    let (tar_bytes, _) =
        roast_tar(&request(true), sample_tree(1_700_000_000), Vec::new()).unwrap();
    let (artifact, _) =
        roast_opts(&request(true), "out.tar.zst", sample_tree(1_700_000_000), Vec::new()).unwrap();
    let decoded = zstd::decode_all(std::io::Cursor::new(artifact)).unwrap();
    assert_eq!(decoded, tar_bytes);
}

#[test]
fn bzip2_artifact_decodes_to_the_tar_stream() {
    let (tar_bytes, _) =
        roast_tar(&request(true), sample_tree(1_700_000_000), Vec::new()).unwrap();
    let (artifact, _) =
        roast_opts(&request(true), "out.tar.bz2", sample_tree(1_700_000_000), Vec::new()).unwrap();
    let mut decoder = bzip2::read::BzDecoder::new(std::io::Cursor::new(artifact));
    let mut decoded = Vec::new();
    decoder.read_to_end(&mut decoded).unwrap();
    assert_eq!(decoded, tar_bytes);
}

#[test]
fn repro_mode_propagates_owner_execute_only() {
    // the deterministic mode derivation: 0o755 for directories, symlinks
    // and owner-executable files, 0o644 for everything else -- group or
    // other execute bits alone do not make a file 0o755
    let tree = vec![
        file_at("plain", b"x", 1_700_000_000),
        FsEntry {
            path: path("tool"),
            kind: EntryKind::File,
            data: b"#!/bin/sh\n".to_vec(),
            mode: 0o744,
            mtime: 1_700_000_000,
            uid: 1000,
            gid: 1000,
        },
        FsEntry {
            path: path("oddball"),
            kind: EntryKind::File,
            data: b"y".to_vec(),
            mode: 0o654,
            mtime: 1_700_000_000,
            uid: 1000,
            gid: 1000,
        },
        dir_at("d", 1_700_000_000),
        FsEntry {
            path: path("l"),
            kind: EntryKind::Symlink,
            data: b"plain".to_vec(),
            mode: 0o777,
            mtime: 1_700_000_000,
            uid: 1000,
            gid: 1000,
        },
    ];
    let (bytes, _) = roast_tar(&request(true), tree, Vec::new()).unwrap();
    let mut archive = tar::Archive::new(std::io::Cursor::new(bytes));
    let mut seen = 0;
    for entry in archive.entries().unwrap() {
        let entry = entry.unwrap();
        let name = entry.path().unwrap().to_string_lossy().into_owned();
        let mode = entry.header().mode().unwrap();
        match name.as_str() {
            "proj/plain" => assert_eq!(mode, 0o644),
            "proj/tool" => assert_eq!(mode, 0o755),
            "proj/oddball" => assert_eq!(mode, 0o644),
            "proj/d" => assert_eq!(mode, 0o755),
            "proj/l" => assert_eq!(mode, 0o755),
            other => panic!("unexpected entry {other}"),
        }
        seen += 1;
    }
    assert_eq!(seen, 5);
}

#[test]
fn repro_gzip_artifacts_are_byte_identical() {
    let run = || {
        roast_opts(&request(true), "o.tar.gz", sample_tree(1_700_000_000), Vec::new()).unwrap()
    };
    let (a1, _) = run();
    let (a2, _) = run();
    assert_eq!(a1, a2);
}

#[test]
fn repro_xz_artifacts_are_byte_identical() {
    let run = || {
        roast_opts(&request(true), "o.tar.xz", sample_tree(1_700_000_000), Vec::new()).unwrap()
    };
    let (a1, _) = run();
    let (a2, _) = run();
    assert_eq!(a1, a2);
}

#[test]
fn repro_zstd_artifacts_are_byte_identical() {
    let run = || {
        roast_opts(&request(true), "o.tar.zst", sample_tree(1_700_000_000), Vec::new()).unwrap()
    };
    let (a1, _) = run();
    let (a2, _) = run();
    assert_eq!(a1, a2);
}

#[test]
fn repro_bzip2_artifacts_are_byte_identical() {
    let run = || {
        roast_opts(&request(true), "o.tar.bz2", sample_tree(1_700_000_000), Vec::new()).unwrap()
    };
    let (a1, _) = run();
    let (a2, _) = run();
    assert_eq!(a1, a2);
}

#[test]
fn non_repro_keeps_real_metadata() {
    let (bytes, _) = roast_tar(&request(false), sample_tree(1_700_000_000), Vec::new()).unwrap();
    let mut archive = tar::Archive::new(std::io::Cursor::new(bytes));
    for entry in archive.entries().unwrap() {
        let entry = entry.unwrap();
        assert_eq!(entry.header().mtime().unwrap(), 1_700_000_000);
        assert_eq!(entry.header().uid().unwrap(), 1000);
        assert_eq!(entry.header().gid().unwrap(), 1000);
    }
}

#[test]
fn empty_tree_archives_cleanly() {
    let (bytes, warnings) = roast_tar(&request(true), Vec::new(), Vec::new()).unwrap();
    assert!(warnings.is_empty());
    let mut archive = tar::Archive::new(std::io::Cursor::new(bytes));
    assert_eq!(archive.entries().unwrap().count(), 0);
}

#[test]
fn repro_with_extras_is_order_insensitive() {
    let extra_entries = |mtime: u64| {
        vec![
            dir_at("vendor", mtime),
            file_at("vendor/a.c", b"int a;", mtime),
            file_at("vendor/b.c", b"int b;", mtime),
        ]
    };
    let mut req = request(true);
    req.incl = vec![path("src/main.rs")];
    req.exclude = vec![path("src")];

    let run = |shuffle: bool| {
        let mut target = sample_tree(1_700_000_000);
        let mut extras = extra_entries(1_700_000_000);
        if shuffle {
            target.reverse();
            extras.reverse();
        }
        let sets = vec![AdditionalSet { dest: path("third_party"), entries: extras }];
        roast_tar(&req, target, sets).unwrap()
    };
    let (b1, w1) = run(false);
    let (b2, w2) = run(true);
    assert_eq!(b1, b2);
    assert_eq!(w1.len(), w2.len());
}
