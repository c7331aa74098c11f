use seer::lang::rust::first_named_child;
use seer::parse::{find_kind, parse_rust};
use seer::syntax::tree_from_records;

#[test]
fn find_kind_returns_first_match_in_document_order() {
    let tree = parse_rust("fn f() { g(); h(); }\n");
    let c = find_kind(&tree, 0, "call_expression").expect("a call");
    assert_eq!(tree.kind(c), "call_expression");
    assert_eq!(tree.text_of(c), "g()");
    assert_eq!(find_kind(&tree, 0, "source_file"), Some(0));
    assert_eq!(find_kind(&tree, 0, "while_expression"), None);
}

#[test]
fn first_named_child_counts_comments() {
    let tree = parse_rust("// note\nfn f() {}\n");
    let c = first_named_child(&tree, 0).expect("a child");
    assert_eq!(tree.kind(c), "line_comment");
    let body = find_kind(&tree, 0, "block").expect("a block");
    assert_eq!(first_named_child(&tree, body), None);
}

#[test]
fn tree_from_given_records_builds_ends_and_texts() {
    let raw = vec![
        ("root".to_string(), None, true, 0usize, 4usize, 0u32),
        ("letter".to_string(), Some("first".to_string()), true, 1usize, 3usize, 1u32),
        ("tail".to_string(), None, false, 3usize, 4usize, 1u32),
    ];
    let tree = tree_from_records("aéb", raw);
    assert_eq!(tree.kind(0), "root");
    assert_eq!(tree.end_of(0), 3);
    assert_eq!(tree.end_of(1), 2);
    assert_eq!(tree.text_of(0), "aéb");
    assert_eq!(tree.text_of(1), "é");
    assert_eq!(tree.text_of(2), "b");
    assert_eq!(first_named_child(&tree, 0), Some(1));
}
