use seer::ir::{CallKind, CallSite};
use seer::resolve::{index_files, resolve, rust_module_path};

fn free_call_site(file: &str, path: &[&str]) -> CallSite {
    CallSite {
        display: path.join("::"),
        kind: CallKind::Free {
            path: path.iter().map(|s| (*s).to_string()).collect(),
        },
        is_macro: false,
        file: file.to_string(),
    }
}

#[test]
fn resolve_same_file_win() {
    let index = index_files(&[(
        "input.rs".into(),
        "fn process() { handle(); }\nfn handle() { return; }\n".into(),
    )]);
    let id = resolve(&free_call_site("input.rs", &["handle"]), &index).expect("unique handle");
    assert_eq!(index.function(&id).unwrap().name, "handle");
    assert_eq!(id.file, "input.rs");
}

#[test]
fn resolve_same_file_ambiguous() {
    let index = index_files(&[(
        "input.rs".into(),
        "fn process() { handle(); }\nfn handle() { return; }\nfn handle() { return; }\n".into(),
    )]);
    assert_eq!(resolve(&free_call_site("input.rs", &["handle"]), &index), None);
}

#[test]
fn resolve_std_external() {
    let index = index_files(&[(
        "input.rs".into(),
        "fn f() { std::fs::write(path, data); }\n".into(),
    )]);
    assert_eq!(
        resolve(&free_call_site("input.rs", &["std", "fs", "write"]), &index),
        None
    );
}

#[test]
fn module_path_src_strip_is_per_path() {
    assert_eq!(rust_module_path("src/lib.rs"), Vec::<String>::new());
    assert_eq!(rust_module_path("src/foo.rs"), vec!["foo".to_string()]);
    assert_eq!(rust_module_path("root.rs"), vec!["root".to_string()]);
    assert_eq!(rust_module_path("lib.rs"), Vec::<String>::new());
    assert_eq!(rust_module_path("<stdin>"), Vec::<String>::new());
    assert_eq!(
        rust_module_path("foo/bar.rs"),
        vec!["foo".to_string(), "bar".to_string()]
    );
}

#[test]
fn resolve_qualified_through_module() {
    let index = index_files(&[
        ("src/lib.rs".into(), "fn main() { util::helper(); }\n".into()),
        ("src/util.rs".into(), "pub fn helper() { return; }\n".into()),
    ]);
    let id = resolve(&free_call_site("src/lib.rs", &["util", "helper"]), &index).expect("helper");
    assert_eq!(id.file, "src/util.rs");
}

#[test]
fn resolve_method_unique_name() {
    let index = index_files(&[(
        "input.rs".into(),
        "struct S;\nimpl S { fn run(&self) { return; } }\nfn main() { s.run(); }\n".into(),
    )]);
    let site = CallSite {
        display: "s.run()".into(),
        kind: CallKind::Method { name: "run".into() },
        is_macro: false,
        file: "input.rs".into(),
    };
    let id = resolve(&site, &index).expect("unique method");
    assert_eq!(index.function(&id).unwrap().name, "run");
}

#[test]
fn function_finds_each_definition_by_its_own_id() {
    let index = index_files(&[(
        "src/lib.rs".into(),
        "fn a() { b(); }\nfn b() { return; }\nmod m { fn c() {} }\n".into(),
    )]);
    assert!(index.defs.len() >= 3);
    for d in &index.defs {
        let found = index.function(&d.id).unwrap();
        assert_eq!(found.id, d.id);
        assert_eq!(found.name, d.name);
    }
    let mut other = index.defs[0].id.clone();
    other.start_byte = 999;
    assert!(index.function(&other).is_none());
}
