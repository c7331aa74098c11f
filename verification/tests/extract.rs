use seer::extract::{extract_fn, find_function_item, print_raw_fn, root_function_items};
use seer::lang::rust::fn_name;
use seer::omit::UseMap;
use seer::parse::parse_rust;

fn outline_of(src: &str, name: &str) -> String {
    let tree = parse_rust(src);
    let uses = UseMap::from_tree(&tree);
    let fn_item = find_function_item(&tree, 0, name).expect(name);
    let body = extract_fn(&tree, fn_item, "input.rs", &uses);
    print_raw_fn(name, &body)
}

#[test]
fn extract_if_else_if_else_headers() {
    let src = r#"
fn f(x: i32) {
    if x < 0 {
        return;
    } else if x == 0 {
        return;
    } else {
        return;
    }
}
"#;
    assert_eq!(
        outline_of(src, "f"),
        "\
fn f
  if x < 0
    return
  else if x == 0
    return
  else
    return
"
    );
}

#[test]
fn extract_match_arms() {
    let src = r#"
fn f(x: i32) {
    match x {
        0 => return,
        1 | 2 => {
            foo();
        }
        n if n > 10 => return,
        _ => {}
    }
}
"#;
    assert_eq!(
        outline_of(src, "f"),
        "\
fn f
  match x
    0
      return
    1 | 2
      foo()
    n if n > 10
      return
    _
"
    );
}

#[test]
fn extract_loop_while_for_headers() {
    let src = r#"
fn f(items: &[u8]) {
    loop {
        break;
    }
    while true {
        continue;
    }
    for item in items {
        return;
    }
}
"#;
    assert_eq!(
        outline_of(src, "f"),
        "\
fn f
  loop
    break
  while true
    continue
  for item in items
    return
"
    );
}

#[test]
fn extract_let_emits_compute() {
    let src = r#"
fn f() {
    let x = compute();
}
"#;
    assert_eq!(outline_of(src, "f"), "fn f\n  compute()\n");
}

#[test]
fn extract_println_omitted() {
    let src = r#"
fn f() {
    println!("x");
    return;
}
"#;
    assert_eq!(outline_of(src, "f"), "fn f\n  return\n");
}

#[test]
fn extract_todo_kept() {
    let src = r#"
fn f() {
    todo!();
}
"#;
    assert_eq!(outline_of(src, "f"), "fn f\n  todo!()\n");
}

#[test]
fn extract_condition_calls_not_emitted() {
    let src = r#"
fn f() {
    if items.is_empty() {
        return;
    }
    for x in items.iter() {
        return;
    }
    match compute() {
        _ => return,
    }
}
"#;
    assert_eq!(
        outline_of(src, "f"),
        "\
fn f
  if items.is_empty()
    return
  for x in items.iter()
    return
  match compute()
    _
      return
"
    );
}

#[test]
fn extract_return_true_kept() {
    let src = r#"
fn valid(&self) -> bool {
    return true;
}
"#;
    assert_eq!(outline_of(src, "valid"), "fn valid\n  return true\n");
}

#[test]
fn extract_try_else_skip_leading_comments() {
    let src = r#"
fn f() {
    try /* c */ {
        foo();
    }
    if x {
        return;
    } else /* c */ {
        bar();
    }
}
"#;
    assert_eq!(
        outline_of(src, "f"),
        "\
fn f
  try
    foo()
  if x
    return
  else
    bar()
"
    );
}

#[test]
fn root_function_items_skips_nested_and_signatures() {
    let src = r#"
trait T { fn sig(&self); }
fn outer() {
    fn inner() {}
}
impl X {
    fn method() {}
}
"#;
    let tree = parse_rust(src);
    let names: Vec<String> = root_function_items(&tree)
        .into_iter()
        .map(|n| fn_name(&tree, n))
        .collect();
    assert_eq!(names, vec!["outer", "method"]);
}

#[test]
fn extract_if_std_fs_exists_keeps_std() {
    let src = r#"
fn f() {
    if std::fs::exists(p) {
        return;
    }
}
"#;
    assert_eq!(
        outline_of(src, "f"),
        "\
fn f
  if std::fs::exists(p)
    return
"
    );
}
