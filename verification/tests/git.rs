use seer::git::{diff_titles, ls_tree_args, parse_blob_batch, parse_diff_args};
use seer::SeerError;

#[test]
fn parse_batch_blob_and_empty() {
    let mut bytes = b"deadbeef blob 3\n".to_vec();
    bytes.extend_from_slice(b"fn\n");
    bytes.push(b'\n');
    bytes.extend_from_slice(b"cafebabe blob 0\n\n");
    let files = parse_blob_batch(&bytes, &["a.rs".into(), "b.rs".into()]).unwrap();
    assert_eq!(
        files,
        vec![("a.rs".into(), "fn\n".into()), ("b.rs".into(), "".into())]
    );
}

#[test]
fn parse_batch_missing_blob() {
    let bytes = b"HEAD:a.rs missing\n".to_vec();
    match parse_blob_batch(&bytes, &["a.rs".into()]) {
        Err(SeerError::Io(m)) => assert_eq!(m, "missing blob: a.rs"),
        other => panic!("expected missing blob, got {other:?}"),
    }
}

#[test]
fn parse_batch_truncated_header() {
    let bytes = b"deadbeef blob 3".to_vec();
    match parse_blob_batch(&bytes, &["a.rs".into()]) {
        Err(SeerError::Io(m)) => assert_eq!(m, "truncated git cat-file header: a.rs"),
        other => panic!("expected truncated header, got {other:?}"),
    }
}

#[test]
fn diff_args_split_at_dashdash() {
    let args: Vec<String> = vec!["HEAD~1".into(), "--".into(), "src".into()];
    let d = parse_diff_args(&args).unwrap();
    assert_eq!(d.revs, vec!["HEAD~1".to_string()]);
    assert_eq!(d.paths, vec!["src".to_string()]);
}

#[test]
fn diff_args_too_many_revs() {
    let args: Vec<String> = vec!["a".into(), "b".into(), "c".into()];
    match parse_diff_args(&args) {
        Err(SeerError::Usage(m)) => assert_eq!(m, "too many revs"),
        other => panic!("expected usage error, got {other:?}"),
    }
}

#[test]
fn diff_titles_by_rev_count() {
    let none: Vec<String> = vec![];
    assert_eq!(diff_titles(&none), ("HEAD".to_string(), "WORKTREE".to_string()));
    let one: Vec<String> = vec!["v1".into()];
    assert_eq!(diff_titles(&one), ("v1".to_string(), "WORKTREE".to_string()));
    let two: Vec<String> = vec!["v1".into(), "v2".into()];
    assert_eq!(diff_titles(&two), ("v1".to_string(), "v2".to_string()));
}

#[test]
fn ls_tree_args_with_filters() {
    let filters: Vec<String> = vec!["src".into()];
    assert_eq!(
        ls_tree_args("HEAD", &filters),
        vec!["ls-tree", "-r", "--name-only", "--full-tree", "HEAD", "--", "src"]
    );
    let none: Vec<String> = vec![];
    assert_eq!(
        ls_tree_args("HEAD", &none),
        vec!["ls-tree", "-r", "--name-only", "--full-tree", "HEAD"]
    );
}

#[test]
fn blob_request_lines() {
    let paths: Vec<String> = vec!["a.rs".into(), "b/c.ts".into()];
    assert_eq!(
        seer::git::blob_request("HEAD", &paths),
        "HEAD:a.rs\nHEAD:b/c.ts\n"
    );
}

#[test]
fn listed_paths_keep_sources_under_filters() {
    let listing = "a.rs\nREADME.md\nsrc/b.java\ntarget/x.rs\nsrc/c.ts\n";
    let none: Vec<String> = vec![];
    assert_eq!(
        seer::git::listed_source_paths(listing, &none),
        vec!["a.rs", "src/b.java", "src/c.ts"]
    );
    let src_only: Vec<String> = vec!["src/".into()];
    assert_eq!(
        seer::git::listed_source_paths(listing, &src_only),
        vec!["src/b.java", "src/c.ts"]
    );
}

#[test]
fn listing_lines_lose_crlf_ends() {
    let none: Vec<String> = Vec::new();
    assert_eq!(
        seer::git::listed_source_paths("a.rs\r\nnotes.txt\r\nb.java", &none),
        vec!["a.rs", "b.java"]
    );
}

#[test]
fn git_errors_name_the_problem_and_exit_3() {
    let e = seer::git::not_a_git_repository();
    assert_eq!(e.exit_code(), 3);
    assert_eq!(e.to_string(), "not a git repository");
    let e = seer::git::invalid_revision("not-a-rev");
    assert_eq!(e.exit_code(), 3);
    assert_eq!(e.to_string(), "invalid revision: not-a-rev");
}

#[test]
fn inside_work_tree_reads_true() {
    assert!(seer::git::is_inside_work_tree("true\n"));
    assert!(!seer::git::is_inside_work_tree("false\n"));
    assert!(!seer::git::is_inside_work_tree(""));
}
