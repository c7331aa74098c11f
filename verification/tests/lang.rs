use seer::extract::find_function_item;
use seer::ir::FnKind;
use seer::lang::rust::classify_function_item;
use seer::lang::{is_source_filename, language_for_path, supported_languages_msg, Language};
use seer::parse::parse_rust;

#[test]
fn classify_method_vs_free() {
    let src = r#"
fn free_fn() {}
mod m {
    fn in_mod() {}
}
impl Foo {
    fn method() {}
}
fn outer() {
    fn inner() {}
}
"#;
    let tree = parse_rust(src);
    let find = |name: &str| find_function_item(&tree, 0, name).unwrap();
    assert_eq!(classify_function_item(&tree, find("free_fn")), FnKind::Free);
    assert_eq!(classify_function_item(&tree, find("in_mod")), FnKind::Free);
    assert_eq!(classify_function_item(&tree, find("method")), FnKind::Method);
    assert_eq!(classify_function_item(&tree, find("inner")), FnKind::Free);
}

#[test]
fn language_by_extension() {
    assert_eq!(language_for_path("a/b.rs"), Some(Language::Rust));
    assert_eq!(language_for_path("<stdin>"), Some(Language::Rust));
    assert_eq!(language_for_path("A.java"), Some(Language::Java));
    assert_eq!(language_for_path("x.tsx"), Some(Language::TypeScript));
    assert_eq!(language_for_path("x.mts"), Some(Language::TypeScript));
    assert_eq!(language_for_path("x.js"), None);
    assert!(is_source_filename("m.cts"));
    assert!(!is_source_filename("A.RS"));
    assert_eq!(supported_languages_msg(), "v1 supports rust, java, and typescript");
}

#[test]
fn file_name_skips_trailing_dot_parts() {
    assert_eq!(language_for_path("x.rs/."), Some(Language::Rust));
    assert_eq!(language_for_path("src/x.ts/./"), Some(Language::TypeScript));
    assert_eq!(seer::lang::file_name("x.rs/."), Some("x.rs".to_string()));
    assert_eq!(seer::lang::file_name("."), None);
    assert_eq!(seer::lang::file_name("/."), None);
    assert_eq!(seer::lang::file_name("a/.."), None);
}
