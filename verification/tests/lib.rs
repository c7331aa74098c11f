use seer::cli::{plan, Plan, Source};
use seer::{diff_text, outline_diff, outline_files};

fn args(v: &[&str]) -> Vec<String> {
    v.iter().map(|s| s.to_string()).collect()
}

#[test]
fn help_has_no_ansi() {
    let out = match plan(&args(&["seer", "--help"]), false).unwrap() {
        Plan::Output(out) => out,
        other => panic!("expected output, got {other:?}"),
    };
    assert_eq!(out.exit, 0);
    assert!(!out.stdout.as_bytes().contains(&0x1b));
    assert!(!out.stdout.is_empty());
}

#[test]
fn version_has_no_ansi() {
    let out = match plan(&args(&["seer", "--version"]), false).unwrap() {
        Plan::Output(out) => out,
        other => panic!("expected output, got {other:?}"),
    };
    assert_eq!(out.exit, 0);
    assert!(!out.stdout.as_bytes().contains(&0x1b));
    assert!(out.stdout.contains("seer"));
}

#[test]
fn cli_tree_no_path_tty() {
    let err = plan(&args(&["seer", "tree"]), true).unwrap_err();
    assert_eq!(err.exit_code(), 2);
}

#[test]
fn cli_tree_piped_reads_stdin() {
    assert_eq!(plan(&args(&["seer", "tree"]), false).unwrap(), Plan::Tree(Source::Stdin));
}

#[test]
fn cli_no_args_is_git_diff() {
    assert_eq!(plan(&args(&["seer"]), true).unwrap(), Plan::GitDiff(vec![]));
}

#[test]
fn cli_bad_graph_format_is_usage() {
    let err = plan(&args(&["seer", "graph", "--format", "dot", "x.rs"]), true).unwrap_err();
    assert_eq!(err.exit_code(), 2);
}

#[test]
fn outline_files_empty_input() {
    assert_eq!(outline_files(&[]), "");
}

#[test]
fn outline_files_sorts_by_path_and_skips_nested() {
    let b = ("b.rs".into(), "fn b() { return; }\n".into());
    let a = (
        "a.rs".into(),
        "trait T { fn sig(&self); }\nfn a() { fn inner() { return; } return; }\n".into(),
    );
    assert_eq!(
        outline_files(&[b, a]),
        "a.rs:2 fn a\n  fn inner\n    return\n  return\n\nb.rs:1 fn b\n  return\n"
    );
}

#[test]
fn diff_identical_empty() {
    assert_eq!(diff_text("fn a\n", "fn a\n", "a", "b"), "");
}

#[test]
fn outline_diff_nested_callee() {
    let left = [(
        "a.rs".into(),
        "fn process() { handle(); }\nfn handle() { return; }\n".into(),
    )];
    let right = [(
        "a.rs".into(),
        "fn process() { handle(); }\nfn handle() { if true { return; } }\n".into(),
    )];
    assert_eq!(
        outline_diff(&left, &right, "a", "b"),
        "\
--- a
+++ b
@@ -1,3 +1,4 @@
 a.rs fn process
   a.rs handle()
-    return
+    if true
+      return
"
    );
}

#[test]
fn outline_diff_move_fn_empty() {
    let left = [(
        "a.rs".into(),
        "fn process() { handle(); }\nfn handle() { return; }\n".into(),
    )];
    let right = [(
        "a.rs".into(),
        "fn handle() { return; }\nfn process() { handle(); }\n".into(),
    )];
    assert_eq!(outline_diff(&left, &right, "a", "b"), "");
}

#[test]
fn outline_diff_new_call() {
    let left = [(
        "a.rs".into(),
        "fn process() { handle(); }\nfn handle() { return; }\n".into(),
    )];
    let right = [(
        "a.rs".into(),
        "fn process() { audit(); handle(); }\nfn handle() { return; }\nfn audit() { return; }\n"
            .into(),
    )];
    assert_eq!(
        outline_diff(&left, &right, "a", "b"),
        "\
--- a
+++ b
@@ -1,3 +1,5 @@
 a.rs fn process
+  a.rs audit()
+    return
   a.rs handle()
     return
"
    );
}

#[test]
fn outline_diff_new_entry() {
    let left = [("a.rs".into(), "fn main() { return; }\n".into())];
    let right = [(
        "a.rs".into(),
        "fn main() { return; }\nfn extra() { return; }\n".into(),
    )];
    assert_eq!(
        outline_diff(&left, &right, "HEAD", "WORKTREE"),
        "\
--- HEAD
+++ WORKTREE
@@ -1,2 +1,5 @@
+a.rs fn extra
+  return
+
 a.rs fn main
   return
"
    );
}

#[test]
fn outline_diff_expand_once() {
    let left = [(
        "a.rs".into(),
        "fn a() { b(); c(); }\nfn b() { d(); }\nfn c() { d(); }\nfn d() { return; }\n".into(),
    )];
    let right = [(
        "a.rs".into(),
        "fn a() { b(); c(); }\nfn b() { d(); }\nfn c() { d(); }\nfn d() { todo!(); }\n".into(),
    )];
    assert_eq!(
        outline_diff(&left, &right, "a", "b"),
        "\
--- a
+++ b
@@ -1,6 +1,6 @@
 a.rs fn a
   a.rs b()
     a.rs d()
-      return
+      todo!()
   a.rs c()
     a.rs d()
"
    );
}

#[test]
fn outline_diff_same_files_is_empty() {
    let files = [(
        "a.rs".into(),
        "fn a() { b(); }\nfn b() { if x { return; } }\n".into(),
    )];
    assert_eq!(outline_diff(&files, &files, "HEAD", "WORKTREE"), "");
}

#[test]
fn outline_diff_blank_lines_only_is_quiet() {
    let left = [("a.rs".into(), "fn a() { b(); }\nfn b() { return; }\n".into())];
    let right = [("a.rs".into(), "\n\nfn a() { b(); }\n\n\nfn b() { return; }\n".into())];
    assert_eq!(outline_diff(&left, &right, "a", "b"), "");
}

#[test]
fn cli_graph_no_path_tty() {
    let err = plan(&args(&["seer", "graph"]), true).unwrap_err();
    assert_eq!(err.exit_code(), 2);
}

#[test]
fn tree_of_no_sources_is_empty() {
    let files = seer::collect::collect_source_files(Vec::new()).unwrap();
    assert!(files.is_empty());
    assert_eq!(outline_files(&files), "");
}
