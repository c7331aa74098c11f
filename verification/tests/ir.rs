use seer::ir::{line_of, print_outline, Label, Loc, Outline, OutlineNode};

fn node(text: &str, children: Vec<OutlineNode>) -> OutlineNode {
    OutlineNode {
        text: text.to_string(),
        loc: None,
        children,
    }
}

#[test]
fn line_of_counts_newlines() {
    assert_eq!(line_of("fn a", 0), 1);
    assert_eq!(line_of("fn a\nfn b\n", 5), 2);
}

#[test]
fn print_jump_and_flow_labels() {
    let outline = Outline {
        roots: vec![OutlineNode {
            text: "fn process".into(),
            loc: Some(Loc {
                file: "a.rs".into(),
                line: 1,
            }),
            children: vec![OutlineNode {
                text: "handle()".into(),
                loc: Some(Loc {
                    file: "a.rs".into(),
                    line: 13,
                }),
                children: vec![],
            }],
        }],
    };
    assert_eq!(
        print_outline(&outline, Label::Jump),
        "a.rs:1 fn process\n  a.rs:13 handle()\n"
    );
    assert_eq!(
        print_outline(&outline, Label::Flow),
        "a.rs fn process\n  a.rs handle()\n"
    );
}

#[test]
fn ir_print_empty() {
    let outline = Outline { roots: vec![] };
    assert_eq!(print_outline(&outline, Label::Jump), "");
}

#[test]
fn ir_print_two_roots() {
    let outline = Outline {
        roots: vec![
            node("fn a", vec![node("return", vec![])]),
            node("fn b", vec![node("return", vec![])]),
        ],
    };
    assert_eq!(
        print_outline(&outline, Label::Jump),
        "fn a\n  return\n\nfn b\n  return\n"
    );
}

#[test]
fn ir_print_indent_and_no_trailing_ws() {
    let outline = Outline {
        roots: vec![node(
            "fn outer",
            vec![node("if cond", vec![node("return", vec![])])],
        )],
    };
    let out = print_outline(&outline, Label::Jump);
    assert_eq!(out, "fn outer\n  if cond\n    return\n");
    assert!(out.ends_with('\n'));
    for line in out.lines() {
        assert_eq!(line, line.trim_end());
        assert!(!line.ends_with(' '));
        assert!(!line.ends_with('\t'));
    }
}

#[test]
fn line_of_past_end_is_last_line() {
    assert_eq!(line_of("a\nb", 100), 2);
}
