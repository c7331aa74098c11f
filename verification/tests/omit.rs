use seer::extract::{extract_fn, find_function_item, print_raw_fn};
use seer::ir::{CallKind, CallSite};
use seer::omit::{should_omit, should_omit_resolved, UseMap};
use seer::parse::parse_rust;

fn outline_of(src: &str, name: &str) -> String {
    let tree = parse_rust(src);
    let uses = UseMap::from_tree(&tree);
    let fn_item = find_function_item(&tree, 0, name).expect(name);
    let body = extract_fn(&tree, fn_item, "input.rs", &uses);
    print_raw_fn(name, &body)
}

fn free_macro(path: &[&str]) -> CallSite {
    CallSite {
        display: String::new(),
        kind: CallKind::Free {
            path: path.iter().map(|s| (*s).to_string()).collect(),
        },
        is_macro: true,
        file: "input.rs".into(),
    }
}

fn free_call(path: &[&str]) -> CallSite {
    CallSite {
        display: String::new(),
        kind: CallKind::Free {
            path: path.iter().map(|s| (*s).to_string()).collect(),
        },
        is_macro: false,
        file: "input.rs".into(),
    }
}

#[test]
fn omit_each_rust_name() {
    let uses = UseMap::default();
    for name in ["println", "eprintln", "print", "eprint", "dbg"] {
        assert!(
            should_omit(&free_macro(&[name]), &uses),
            "{name}! should be omitted"
        );
    }
    assert!(should_omit(&free_macro(&["log", "warn"]), &uses));
    assert!(should_omit(&free_call(&["log", "warn"]), &uses));
    assert!(should_omit(&free_macro(&["tracing", "info"]), &uses));
    let src = r#"
fn f() {
    println!("x");
    eprintln!("x");
    print!("x");
    eprint!("x");
    dbg!(1);
    log::warn!("empty");
    tracing::info!("t");
    log::warn("empty");
    return;
}
"#;
    assert_eq!(outline_of(src, "f"), "fn f\n  return\n");
}

#[test]
fn omit_keeps_format() {
    let uses = UseMap::default();
    assert!(!should_omit(&free_macro(&["format"]), &uses));
    assert!(!should_omit(&free_macro(&["vec"]), &uses));
    assert!(!should_omit(&free_macro(&["todo"]), &uses));
    assert!(!should_omit(&free_macro(&["assert"]), &uses));
    assert!(!should_omit(
        &CallSite {
            display: String::new(),
            kind: CallKind::Method {
                name: "unwrap".into()
            },
            is_macro: false,
            file: "input.rs".into(),
        },
        &uses
    ));
    let src = r#"
fn f() {
    format!("a{}", 1);
}
"#;
    assert_eq!(outline_of(src, "f"), "fn f\n  format!(\"a{}\", 1)\n");
}

#[test]
fn omit_keeps_local_info() {
    let src = r#"
fn info() {
    return;
}
fn f() {
    info();
}
"#;
    assert_eq!(outline_of(src, "f"), "fn f\n  info()\n");
}

#[test]
fn omit_use_log_warn_macro() {
    let src = r#"
use log::warn;
fn f() {
    warn!("x");
    return;
}
"#;
    assert_eq!(outline_of(src, "f"), "fn f\n  return\n");
}

#[test]
fn omit_glob_keeps_unqualified() {
    let src = r#"
use tracing::*;
fn f() {
    todo!();
    foo();
    return;
}
"#;
    assert_eq!(outline_of(src, "f"), "fn f\n  todo!()\n  foo()\n  return\n");
    let tree = parse_rust(src);
    let uses = UseMap::from_tree(&tree);
    assert_eq!(uses.globs(), &vec![vec!["tracing".to_string()]]);
}

#[test]
fn omit_never_drops_a_local_target() {
    let uses = UseMap::default();
    assert!(!should_omit_resolved(&free_call(&["log", "warn"]), &uses, true));
    assert!(should_omit_resolved(&free_call(&["log", "warn"]), &uses, false));
}

#[test]
fn use_binding_rewrites_first_segment() {
    let src = "use a::b as c;\nuse x::y;\nfn f() { return; }\n";
    let tree = parse_rust(src);
    let uses = UseMap::from_tree(&tree);
    assert_eq!(uses.binding("c"), Some(&vec!["a".to_string(), "b".to_string()]));
    assert_eq!(
        uses.rewrite_named(&vec!["y".to_string(), "z".to_string()]),
        vec!["x".to_string(), "y".to_string(), "z".to_string()]
    );
}
