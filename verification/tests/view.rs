use seer::browse::{Area, Browser, Mouse, MouseKind};
use seer::view::{
    changed_files, diff_revs, inline_plain_text, list_index_at_row, parse_diff, parse_log_line,
    render_side_by_side, visible_list_rows, Commit, GREEN, RED,
};

fn commit_fixture(hash: &str, parent: Option<&str>, subject: &str) -> Commit {
    Commit {
        hash: hash.into(),
        parent: parent.map(str::to_string),
        subject: subject.into(),
    }
}

#[test]
fn pairs_minus_plus_side_by_side() {
    let diff = "\
--- HEAD
+++ WORKTREE
@@ -1,3 +1,4 @@
 a.rs fn process
   a.rs handle()
-    return
+    if true
+      return
";
    let view = parse_diff(diff);
    let out = render_side_by_side(&view, 40, false);
    assert!(out.contains("HEAD"));
    assert!(out.contains("WORKTREE"));
    assert!(out.contains("a.rs fn process"));
    assert!(out.contains("a.rs handle()"));
    assert!(out.contains("    return"));
    assert!(out.contains("    if true"));
    assert!(out.contains("│"));
    assert!(!out.contains('\u{1b}'));
    assert_eq!(changed_files(&view.rows), vec!["a.rs"]);
    assert_eq!(
        inline_plain_text(&view.rows),
        vec![
            " a.rs fn process",
            "   a.rs handle()",
            "-    return",
            "+    if true",
            "+      return",
        ]
    );
}

#[test]
fn color_wraps_added_and_removed() {
    let diff = "--- a\n+++ b\n-old\n+new\n";
    let view = parse_diff(diff);
    let out = render_side_by_side(&view, 40, true);
    assert!(out.contains(RED));
    assert!(out.contains(GREEN));
    assert!(out.contains("old"));
    assert!(out.contains("new"));
}

#[test]
fn empty_diff_has_no_files() {
    let view = parse_diff("");
    assert!(view.rows.is_empty());
    assert!(changed_files(&view.rows).is_empty());
}

#[test]
fn parse_log_line_parent_and_root() {
    let c = parse_log_line("abc\tdef123 ghi\tadd tree").unwrap();
    assert_eq!(c.hash, "abc");
    assert_eq!(c.parent.as_deref(), Some("def123"));
    assert_eq!(c.subject, "add tree");
    let root = parse_log_line("aaa\t\tinit").unwrap();
    assert_eq!(root.parent, None);
    assert_eq!(root.subject, "init");
}

#[test]
fn diff_revs_worktree_one_commit_and_range() {
    let commits = vec![
        commit_fixture("c1", Some("c2"), "head"),
        commit_fixture("c2", Some("c3"), "mid"),
        commit_fixture("c3", None, "root"),
    ];
    let wt = diff_revs(&commits, 0, 0).unwrap();
    assert!(wt.0.is_empty());
    assert_eq!((wt.1.as_str(), wt.2.as_str()), ("HEAD", "WORKTREE"));

    let one = diff_revs(&commits, 1, 1).unwrap();
    assert_eq!(one.0, vec!["c2", "c1"]);
    assert_eq!(one.1, "c2");

    let range = diff_revs(&commits, 1, 2).unwrap();
    assert_eq!(range.0, vec!["c2", "c1"]);

    let vs_wt = diff_revs(&commits, 0, 2).unwrap();
    assert_eq!(vs_wt.0, vec!["c2"]);
    assert_eq!(vs_wt.2, "WORKTREE");

    assert!(diff_revs(&commits, 3, 3).is_none());
}

#[test]
fn rows_for_maps_visible_items() {
    // A list drawn inside the rectangle at (1, 1), 18 wide and 4 high.
    let hits = visible_list_rows(1, 4, 3, 10);
    assert_eq!(hits, vec![(1, 3), (2, 4), (3, 5), (4, 6)]);
    assert_eq!(list_index_at_row(&hits, 1), Some(3));
    assert_eq!(list_index_at_row(&hits, 0), None);
    assert_eq!(list_index_at_row(&hits, 5), None);
    assert!(visible_list_rows(1, 4, 9, 10).len() == 1);
    assert!(visible_list_rows(1, 4, 10, 10).is_empty());
}

#[test]
fn plus_hunk_is_visible_under_file_filter() {
    let diff = "\
--- a
+++ b
@@ -0,0 +1,3 @@
+src/bin/seer-view.rs fn main
+  env::args()
+  ExitCode::SUCCESS
";
    let view = parse_diff(diff);
    assert!(!view.rows.is_empty());
    assert_eq!(changed_files(&view.rows), vec!["src/bin/seer-view.rs"]);
    let want = "src/bin/seer-view.rs";
    let n = view
        .rows
        .iter()
        .filter(|r| {
            let name = if r.file.is_empty() {
                "(outline)"
            } else {
                r.file.as_str()
            };
            name == want
        })
        .count();
    assert_eq!(n, 3);
}

#[test]
fn click_rendered_commit_row_selects_it() {
    let mut app = Browser::new(
        Vec::new(),
        vec![
            commit_fixture("aaa", Some("bbb"), "one"),
            commit_fixture("ccc", Some("aaa"), "two"),
        ],
    );
    // An 80x24 screen: the log takes the top 13 rows of the left 40
    // columns, its items drawn inside the border from row 1.
    let commits_area = Area { x: 0, y: 0, width: 40, height: 13 };
    let files_area = Area { x: 0, y: 13, width: 40, height: 10 };
    let diff_area = Area { x: 40, y: 0, width: 40, height: 23 };
    let hits = visible_list_rows(1, 11, 0, app.log_len());
    let files_hits = Vec::new();
    app.set_layout(commits_area, files_area, diff_area, hits.clone(), files_hits);
    let (row, idx) = hits
        .iter()
        .copied()
        .find(|(_, i)| *i == 1)
        .expect("first commit row");
    app.handle_mouse(Mouse {
        kind: MouseKind::LeftDown,
        column: commits_area.x + 2,
        row,
        shift: false,
    });
    assert_eq!(app.nav.log_idx, idx);
}

#[test]
fn parse_log_splits_lines_like_str_lines() {
    let commits = seer::view::parse_log("abc\tdef\tfirst\r\n\naaa\t\tinit\n");
    assert_eq!(commits.len(), 2);
    assert_eq!(commits[0].hash, "abc");
    assert_eq!(commits[0].subject, "first");
    assert_eq!(commits[1].parent, None);
    assert_eq!(commits[1].subject, "init");
}
