use seer::browse::{Area, Browser, Focus, Key, KeyCode, Mouse, MouseKind, Step};
use seer::view::{parse_diff, Commit};

fn commit(hash: &str, parent: Option<&str>, subject: &str) -> Commit {
    Commit {
        hash: hash.into(),
        parent: parent.map(str::to_string),
        subject: subject.into(),
    }
}

fn browser() -> Browser {
    Browser::new(
        Vec::new(),
        vec![
            commit("c1", Some("c2"), "head"),
            commit("c2", Some("c3"), "mid"),
            commit("c3", None, "root"),
        ],
    )
}

fn press(code: KeyCode) -> Key {
    Key { code, press: true, ctrl: false }
}

#[test]
fn keys_quit_and_ignore_releases() {
    let mut b = browser();
    assert_eq!(b.handle_key(press(KeyCode::Char('q'))), Step::Quit);
    assert_eq!(b.handle_key(press(KeyCode::Esc)), Step::Quit);
    assert_eq!(b.handle_key(Key { code: KeyCode::Char('c'), press: true, ctrl: true }), Step::Quit);
    assert_eq!(b.handle_key(Key { code: KeyCode::Char('q'), press: false, ctrl: false }), Step::Stay);
}

#[test]
fn keys_move_in_the_log_and_clamp() {
    let mut b = browser();
    assert_eq!(b.handle_key(press(KeyCode::Char('j'))), Step::Reload);
    assert_eq!(b.nav.log_idx, 1);
    assert_eq!(b.handle_key(press(KeyCode::End)), Step::Reload);
    assert_eq!(b.nav.log_idx, 3);
    assert_eq!(b.handle_key(press(KeyCode::Down)), Step::Stay);
    assert_eq!(b.nav.log_idx, 3);
    assert_eq!(b.handle_key(press(KeyCode::PageUp)), Step::Reload);
    assert_eq!(b.nav.log_idx, 0);
}

#[test]
fn range_grows_with_shift_keys_and_drops_with_v() {
    let mut b = browser();
    assert_eq!(b.handle_key(press(KeyCode::Char('J'))), Step::Reload);
    assert_eq!(b.range(), (0, 1));
    assert_eq!(b.handle_key(press(KeyCode::Char('J'))), Step::Reload);
    assert_eq!(b.range(), (0, 2));
    let (revs, left, right) = b.pending_diff().unwrap();
    assert_eq!(revs, vec!["c2"]);
    assert_eq!((left.as_str(), right.as_str()), ("c2", "WORKTREE"));
    assert_eq!(b.handle_key(press(KeyCode::Char('v'))), Step::Reload);
    assert_eq!(b.range(), (2, 2));
    assert_eq!(b.handle_key(press(KeyCode::Char('v'))), Step::Reload);
    assert_eq!(b.nav.anchor, Some(2));
}

#[test]
fn tab_cycles_focus_and_diff_scrolls_saturating() {
    let mut b = browser();
    assert_eq!(b.nav.focus, Focus::Commits);
    b.handle_key(press(KeyCode::Tab));
    assert_eq!(b.nav.focus, Focus::Files);
    b.handle_key(press(KeyCode::Tab));
    assert_eq!(b.nav.focus, Focus::Diff);
    b.handle_key(press(KeyCode::Char('k')));
    assert_eq!(b.nav.scroll, 0);
    b.handle_key(press(KeyCode::PageDown));
    assert_eq!(b.nav.scroll, 20);
    b.handle_key(press(KeyCode::Home));
    assert_eq!(b.nav.scroll, 0);
    b.handle_key(press(KeyCode::Tab));
    assert_eq!(b.nav.focus, Focus::Commits);
    b.handle_key(press(KeyCode::Char('d')));
    assert!(b.nav.inline);
}

#[test]
fn set_view_lists_files_and_falls_back_to_titles() {
    let mut b = browser();
    let view = parse_diff("@@ -1,4 +1,4 @@\n a.rs fn f\n-  x\n+  y\n b.rs fn g\n-  p\n+  q\n");
    b.show(view, "HEAD".into(), "WORKTREE".into());
    assert_eq!(b.view.left_title, "HEAD");
    assert_eq!(b.view.right_title, "WORKTREE");
    assert_eq!(b.files, vec!["a.rs", "b.rs"]);
    assert_eq!(b.nav.file_idx, 0);
    assert!(b.nav.file_selected);
    assert!(b.status.is_empty());
    b.handle_key(press(KeyCode::Tab));
    b.handle_key(press(KeyCode::Char('G')));
    assert_eq!(b.nav.file_idx, 1);
    assert_eq!(b.nav.scroll, 2);
}

#[test]
fn root_commit_has_no_parent() {
    let mut b = browser();
    b.handle_key(press(KeyCode::End));
    assert!(b.pending_diff().is_none());
    b.show_root();
    assert_eq!(b.status, "root commit \u{2014} no parent");
    assert!(b.view.rows.is_empty());
    assert_eq!(b.selected_label(), "c3 root");
}

#[test]
fn mouse_selects_and_wheel_moves() {
    let mut b = browser();
    let commits_area = Area { x: 0, y: 0, width: 40, height: 13 };
    let hits = vec![(1u16, 0usize), (2, 1), (3, 2), (4, 3)];
    b.set_layout(
        commits_area,
        Area { x: 0, y: 13, width: 40, height: 10 },
        Area { x: 40, y: 0, width: 40, height: 23 },
        hits,
        Vec::new(),
    );
    let at = |kind, row, shift| Mouse { kind, column: 2, row, shift };
    assert_eq!(b.handle_mouse(at(MouseKind::LeftDown, 3, false)), Step::Reload);
    assert_eq!(b.nav.log_idx, 2);
    assert_eq!(b.nav.click_start, Some(2));
    assert_eq!(b.handle_mouse(at(MouseKind::LeftUp, 3, false)), Step::Stay);
    assert_eq!(b.nav.click_start, None);
    assert_eq!(b.handle_mouse(at(MouseKind::LeftDrag, 4, true)), Step::Reload);
    assert_eq!(b.range(), (2, 3));
    assert_eq!(b.handle_mouse(at(MouseKind::ScrollUp, 4, false)), Step::Reload);
    assert_eq!(b.nav.log_idx, 2);
    assert_eq!(b.nav.anchor, None);
    let diff = Mouse { kind: MouseKind::ScrollDown, column: 50, row: 5, shift: false };
    assert_eq!(b.handle_mouse(diff), Step::Stay);
    assert_eq!(b.nav.focus, Focus::Diff);
    assert_eq!(b.nav.scroll, 3);
}

#[test]
fn footer_and_empty_message() {
    let mut b = browser();
    b.show_error("boom".into(), "HEAD".into(), "WORKTREE".into());
    assert_eq!(b.empty_message(), "boom");
    assert_eq!(b.footer(), " WORKTREE  HEAD \u{2192} WORKTREE  (0 lines, side) ");
    b.show(parse_diff(""), "HEAD".into(), "WORKTREE".into());
    assert_eq!(b.empty_message(), "No outline change\nHEAD \u{2192} WORKTREE");
    b.clamp_scroll(10);
    assert_eq!(b.nav.scroll, 0);
}

#[test]
fn d_twice_restores_the_view_mode() {
    let mut b = browser();
    let before = b.nav;
    assert_eq!(b.handle_key(press(KeyCode::Char('d'))), Step::Stay);
    assert!(b.nav.inline != before.inline);
    assert_eq!(b.handle_key(press(KeyCode::Char('d'))), Step::Stay);
    assert_eq!(b.nav, before);
}

#[test]
fn range_runs_first_to_last() {
    let mut b = browser();
    b.handle_key(press(KeyCode::Char('J')));
    b.handle_key(press(KeyCode::Char('J')));
    let (lo, hi) = b.range();
    assert!(lo <= hi && hi < b.log_len());
}
