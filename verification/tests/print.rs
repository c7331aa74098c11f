use seer::ir::{Outline, OutlineNode};
use seer::print::print;

fn node(text: &str, children: Vec<OutlineNode>) -> OutlineNode {
    OutlineNode {
        text: text.to_string(),
        loc: None,
        children,
    }
}

#[test]
fn print_print_empty() {
    let outline = Outline { roots: vec![] };
    assert_eq!(print(&outline), "");
}

#[test]
fn print_print_two_roots() {
    let outline = Outline {
        roots: vec![
            node("fn a", vec![node("return", vec![])]),
            node("fn b", vec![node("return", vec![])]),
        ],
    };
    assert_eq!(print(&outline), "fn a\n  return\n\nfn b\n  return\n");
}

#[test]
fn print_print_indent_and_no_trailing_ws() {
    let outline = Outline {
        roots: vec![node(
            "fn outer",
            vec![node("if cond", vec![node("return", vec![])])],
        )],
    };
    let out = print(&outline);
    assert_eq!(out, "fn outer\n  if cond\n    return\n");
    assert!(out.ends_with('\n'));
    for line in out.lines() {
        assert_eq!(line, line.trim_end());
        assert!(!line.ends_with(' '));
        assert!(!line.ends_with('\t'));
    }
}
