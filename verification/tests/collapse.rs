use seer::collapse::{collapse, strip_std};

#[test]
fn collapse_ws_runs() {
    assert_eq!(collapse("  foo   \n\t bar  ", &[]), "foo bar");
    assert_eq!(collapse("a\n\nb", &[]), "a b");
    assert_eq!(collapse("   ", &[]), "");
}

#[test]
fn collapse_preserves_string_interior() {
    let src = r#"x("a  b")"#;
    let start = src.find('"').unwrap();
    let end = start + r#""a  b""#.len();
    assert_eq!(collapse(src, &[(start, end)]), r#"x("a  b")"#);
    assert_eq!(collapse(src, &[]), r#"x("a b")"#);
}

#[test]
fn strip_std_std_fs_write() {
    assert_eq!(strip_std("std::fs::write(path, data)"), "fs::write(path, data)");
}

#[test]
fn strip_std_serde_unchanged() {
    assert_eq!(strip_std("serde_json::x"), "serde_json::x");
}

#[test]
fn strip_std_core() {
    assert_eq!(strip_std("core::mem::drop(x)"), "mem::drop(x)");
}

#[test]
fn strip_std_not_applied_in_this_unit() {
    assert_eq!(collapse("std::fs::write(path, data)", &[]), "std::fs::write(path, data)");
}

#[test]
fn strip_std_twice_is_once() {
    let once = strip_std("std::core::x");
    assert_eq!(strip_std(&once), strip_std(&strip_std(&once)));
}
