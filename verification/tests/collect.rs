use seer::collect::{
    collect_source_files, collect_step, file_is_under_any_path, is_source_file_path, join_rel,
    posix_spelling, walk_step, CollectStep, EntryKind, PathKind, WalkStep,
};
use seer::SeerError;

/// What a walk from the root reads of the given tree: each directory on the
/// way must be entered and the file itself read.
fn walked(tree: &[(&str, &str)]) -> Vec<(String, Vec<u8>)> {
    let mut found = Vec::new();
    'files: for (path, contents) in tree {
        let parts: Vec<&str> = path.split('/').collect();
        let mut rel = String::new();
        for (i, name) in parts.iter().enumerate() {
            let kind = if i + 1 == parts.len() { EntryKind::File } else { EntryKind::Dir };
            let step = walk_step(name, kind);
            let want = if i + 1 == parts.len() { WalkStep::Read } else { WalkStep::Descend };
            if step != want {
                continue 'files;
            }
            rel = join_rel(&rel, name);
        }
        found.push((rel, contents.as_bytes().to_vec()));
    }
    found
}

#[test]
fn includes_rs_sorts_posix_and_excludes() {
    let tree = [
        ("b.rs", "fn b() {}"),
        ("a.rs", "fn a() {}"),
        ("sub/c.rs", "fn c() {}"),
        ("A.RS", "fn upper() {}"),
        ("target/hidden.rs", "fn t() {}"),
        (".git/hidden.rs", "fn g() {}"),
        ("node_modules/hidden.rs", "fn n() {}"),
        (".hidden/x.rs", "fn h() {}"),
        (".dot.rs", "fn d() {}"),
        ("sub/.secret.rs", "fn s() {}"),
        ("keep.txt", "not rust"),
        ("d.java", "class D {}"),
        ("e.ts", "export {}"),
        ("f.tsx", "export {}"),
        ("skip.js", "1"),
    ];
    let files = collect_source_files(walked(&tree)).unwrap();
    let paths: Vec<&str> = files.iter().map(|(p, _)| p.as_str()).collect();
    assert_eq!(paths, ["a.rs", "b.rs", "d.java", "e.ts", "f.tsx", "sub/c.rs"]);
}

#[test]
fn empty_dir_is_empty() {
    assert!(collect_source_files(Vec::new()).unwrap().is_empty());
}

#[test]
fn invalid_utf8_is_io() {
    match collect_source_files(vec![("bad.rs".to_string(), vec![0xff, 0xfe])]) {
        Err(SeerError::Io(msg)) => assert_eq!(msg, "invalid utf-8: bad.rs"),
        other => panic!("expected invalid utf-8, got {other:?}"),
    }
}

#[test]
fn collect_path_single_file_keeps_argv_spelling() {
    let arg = "tmp\\sub/input.rs";
    match collect_step(arg, PathKind::File).unwrap() {
        CollectStep::ReadFile(p) => assert_eq!(p, arg.replace('\\', "/")),
        other => panic!("expected a file read, got {other:?}"),
    }
    assert_eq!(posix_spelling("a\\b\\c.rs"), "a/b/c.rs");
}

#[test]
fn collect_path_missing() {
    match collect_step("/no/such/file.rs", PathKind::Missing) {
        Err(SeerError::Io(msg)) => assert_eq!(msg, "path not found: /no/such/file.rs"),
        other => panic!("expected missing, got {other:?}"),
    }
}

#[test]
fn collect_path_unsupported() {
    match collect_step("/tmp/x.js", PathKind::File) {
        Err(SeerError::Io(msg)) => {
            assert_eq!(
                msg,
                "unsupported language: js (v1 supports rust, java, and typescript)"
            );
        }
        other => panic!("expected unsupported, got {other:?}"),
    }
}

#[test]
fn collect_path_unknown_extension() {
    match collect_step("/tmp/x", PathKind::File) {
        Err(SeerError::Io(msg)) => {
            assert_eq!(
                msg,
                "unsupported language: unknown (v1 supports rust, java, and typescript)"
            );
        }
        other => panic!("expected unknown, got {other:?}"),
    }
}

#[test]
fn does_not_follow_symlinks() {
    assert_eq!(walk_step("link.rs", EntryKind::Symlink), WalkStep::Skip);
    assert_eq!(walk_step("linkdir", EntryKind::Symlink), WalkStep::Skip);
    assert_eq!(walk_step("real.rs", EntryKind::File), WalkStep::Read);
    assert_eq!(walk_step("other", EntryKind::Dir), WalkStep::Descend);
}

#[test]
fn dash_is_stdin_and_dir_is_walked() {
    assert_eq!(collect_step("-", PathKind::Missing).unwrap(), CollectStep::Stdin);
    assert_eq!(collect_step("src", PathKind::Dir).unwrap(), CollectStep::Walk);
    match collect_step("/dev/null", PathKind::Other) {
        Err(SeerError::Io(msg)) => assert_eq!(msg, "not a file or directory: /dev/null"),
        other => panic!("expected not a file, got {other:?}"),
    }
}

#[test]
fn source_paths_and_filters() {
    assert!(is_source_file_path("src/a.rs"));
    assert!(!is_source_file_path("target/a.rs"));
    assert!(!is_source_file_path("src/.hidden.rs"));
    assert!(!is_source_file_path("README.md"));
    let filters: Vec<String> = vec!["./src/".into()];
    assert!(file_is_under_any_path("src/a.rs", &filters));
    assert!(!file_is_under_any_path("srcx/a.rs", &filters));
    assert!(file_is_under_any_path("anything.rs", &Vec::new()));
    let dot: Vec<String> = vec![".".into()];
    assert!(file_is_under_any_path("x/y.rs", &dot));
}
