use libroast::paths::RelPath;
use libroast::stage::{
    AdditionalSet, ArchiveRequest, EntryKind, FsEntry, StageError, WarnKind, assemble,
};

fn path(s: &str) -> RelPath {
    RelPath {
        parts: s
            .split('/')
            .filter(|c| !c.is_empty())
            .map(|c| c.as_bytes().to_vec())
            .collect(),
    }
}

fn file(p: &str, data: &[u8]) -> FsEntry {
    FsEntry {
        path: path(p),
        kind: EntryKind::File,
        data: data.to_vec(),
        mode: 0o644,
        mtime: 1_700_000_000,
        uid: 1000,
        gid: 1000,
    }
}

fn dir(p: &str) -> FsEntry {
    FsEntry {
        path: path(p),
        kind: EntryKind::Dir,
        data: Vec::new(),
        mode: 0o755,
        mtime: 1_700_000_000,
        uid: 1000,
        gid: 1000,
    }
}

fn request() -> ArchiveRequest {
    ArchiveRequest {
        root_name: b"T".to_vec(),
        incl: Vec::new(),
        exclude: Vec::new(),
        preserve_root: false,
        ignore_hidden: false,
        ignore_vcs: false,
        reproducible: true,
        staging_marker: None,
    }
}

fn staged_paths(entries: &[FsEntry]) -> Vec<String> {
    entries
        .iter()
        .map(|e| {
            e.path
                .parts
                .iter()
                .map(|c| String::from_utf8_lossy(c).into_owned())
                .collect::<Vec<_>>()
                .join("/")
        })
        .collect()
}

#[test]
fn include_overrides_exclude() {
    let target = vec![dir("a"), file("a/b.txt", b"hello")];
    let mut req = request();
    req.exclude = vec![path("a")];
    req.incl = vec![path("a/b.txt")];
    let staged = assemble(&req, &target, &Vec::new()).unwrap();
    let names = staged_paths(&staged.entries);
    assert!(names.contains(&"a/b.txt".to_string()));
}

#[test]
fn exclude_without_include_removes_content() {
    let target = vec![dir("a"), file("a/b.txt", b"hello"), file("c.txt", b"kept")];
    let mut req = request();
    req.exclude = vec![path("a")];
    let staged = assemble(&req, &target, &Vec::new()).unwrap();
    let names = staged_paths(&staged.entries);
    assert!(!names.iter().any(|n| n == "a" || n.starts_with("a/")));
    assert!(names.contains(&"c.txt".to_string()));
}

#[test]
fn hidden_file_policy() {
    let target = vec![file(".secret", b"shh"), file("open.txt", b"ok")];
    let mut req = request();
    req.ignore_hidden = true;
    req.ignore_vcs = false;
    let staged = assemble(&req, &target, &Vec::new()).unwrap();
    let names = staged_paths(&staged.entries);
    assert!(!names.contains(&".secret".to_string()));
    assert!(names.contains(&"open.txt".to_string()));

    let mut req2 = request();
    req2.ignore_hidden = false;
    let staged2 = assemble(&req2, &target, &Vec::new()).unwrap();
    let names2 = staged_paths(&staged2.entries);
    assert!(names2.contains(&".secret".to_string()));
}

#[test]
fn vcs_policy_is_independent_of_hidden_policy() {
    let target = vec![dir(".git"), file(".git/config", b"[core]"), file("src.rs", b"fn")];
    let mut req = request();
    req.ignore_hidden = false;
    req.ignore_vcs = true;
    let staged = assemble(&req, &target, &Vec::new()).unwrap();
    let names = staged_paths(&staged.entries);
    assert!(!names.iter().any(|n| n == ".git" || n.starts_with(".git/")));
    assert!(names.contains(&"src.rs".to_string()));
}

#[test]
fn hidden_ignored_but_vcs_kept() {
    // a `.git`-prefixed name answers to the VCS flag alone, even while
    // other dotfiles are dropped
    let target = vec![file(".gitignore", b"target"), file(".hidden", b"x")];
    let mut req = request();
    req.ignore_hidden = true;
    req.ignore_vcs = false;
    let staged = assemble(&req, &target, &Vec::new()).unwrap();
    let names = staged_paths(&staged.entries);
    assert!(names.contains(&".gitignore".to_string()));
    assert!(!names.contains(&".hidden".to_string()));
}

#[test]
fn self_copy_guard_skips_staging_location() {
    // the staging tree lives inside the target: nothing at or below it
    // is copied, and assembly terminates
    let target = vec![
        dir("work"),
        dir("work/stage"),
        file("work/stage/loop.txt", b"no"),
        file("top.txt", b"yes"),
    ];
    let mut req = request();
    req.staging_marker = Some(path("work/stage"));
    let staged = assemble(&req, &target, &Vec::new()).unwrap();
    let names = staged_paths(&staged.entries);
    assert!(names.contains(&"top.txt".to_string()));
    assert!(names.contains(&"work".to_string()));
    assert!(!names.iter().any(|n| n == "work/stage" || n.starts_with("work/stage/")));
}

#[test]
fn missing_include_is_fatal() {
    let target = vec![file("a.txt", b"a")];
    let mut req = request();
    req.incl = vec![path("ghost.txt")];
    match assemble(&req, &target, &Vec::new()) {
        Err(StageError::IncludeNotFound(p)) => {
            assert_eq!(p.parts, vec![b"ghost.txt".to_vec()]);
        }
        _ => panic!("an include that names nothing must be rejected"),
    }
}

#[test]
fn preserve_root_prefixes_every_path() {
    let target = vec![file("a.txt", b"a")];
    let mut req = request();
    req.preserve_root = true;
    let staged = assemble(&req, &target, &Vec::new()).unwrap();
    let names = staged_paths(&staged.entries);
    assert_eq!(names, vec!["T/a.txt".to_string()]);
}

#[test]
fn additional_path_lands_at_destination() {
    let target = vec![file("a.txt", b"a")];
    let req = request();
    let extra = AdditionalSet {
        dest: path("vendor"),
        entries: vec![dir("lib"), file("lib/x.c", b"int")],
    };
    let staged = assemble(&req, &target, &vec![extra]).unwrap();
    let names = staged_paths(&staged.entries);
    assert!(names.contains(&"vendor/lib/x.c".to_string()));
    assert!(names.contains(&"a.txt".to_string()));
}

#[test]
fn later_pass_overwrites_with_warning() {
    // an additional file colliding with a target file loses to the main
    // copy, and the collision is reported
    let target = vec![file("a.txt", b"from target")];
    let req = request();
    let extra = AdditionalSet {
        dest: RelPath { parts: Vec::new() },
        entries: vec![file("a.txt", b"from extra")],
    };
    let staged = assemble(&req, &target, &vec![extra]).unwrap();
    assert_eq!(staged.entries.len(), 1);
    assert_eq!(staged.entries[0].data, b"from target".to_vec());
    assert!(staged.warnings.iter().any(|w| w.kind == WarnKind::Overwrite));
}

#[test]
fn excluded_include_warns_but_proceeds() {
    let target = vec![dir("a"), file("a/b.txt", b"x")];
    let mut req = request();
    req.exclude = vec![path("a")];
    req.incl = vec![path("a/b.txt")];
    let staged = assemble(&req, &target, &Vec::new()).unwrap();
    assert!(staged.warnings.iter().any(|w| w.kind == WarnKind::IncludedExcluded));
    assert!(staged_paths(&staged.entries).contains(&"a/b.txt".to_string()));
}
