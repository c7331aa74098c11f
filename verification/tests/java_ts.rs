use seer::lang::java::module_path_from_tree;
use seer::lang::typescript::{resolve_ts_spec, ts_module_path};
use seer::omit::UseMap;
use seer::outline_files;
use seer::parse::parse_path;

const SHOP: &str = "\
package com.acme;

import java.util.List;

class Shop {
    void process(List<Item> items) {
        if (items.isEmpty()) {
            return;
        } else if (items.size() > 3) {
            audit(items);
        } else {
            handle(items.get(0));
        }
        for (Item item : items) {
            handle(item);
        }
    }

    void handle(Item item) {
        try {
            item.run();
        } catch (Exception e) {
            throw new IllegalStateException(e);
        } finally {
            done();
        }
    }
}
";

#[test]
fn java_tree_outline() {
    let out = outline_files(&[("Shop.java".into(), SHOP.into())]);
    assert_eq!(
        out,
        "\
Shop.java:6 fn process
  if (items.isEmpty())
    return
  else if (items.size() > 3)
    audit(items)
  else
    Shop.java:19 handle(items.get(0))
      try
        item.run()
      catch (Exception e)
        throw new IllegalStateException(e)
      finally
        done()
  for (Item item : items)
    Shop.java:19 handle(item)
      try
        item.run()
      catch (Exception e)
        throw new IllegalStateException(e)
      finally
        done()
"
    );
}

#[test]
fn java_module_and_imports() {
    let t = parse_path("src/Shop.java", SHOP);
    assert_eq!(module_path_from_tree(&t, "src/Shop.java"), vec!["com", "acme", "Shop"]);
    let uses = UseMap::for_file(&t, "src/Shop.java");
    assert_eq!(
        uses.binding("List"),
        Some(&vec!["java".to_string(), "util".to_string(), "List".to_string()])
    );
}

const APP: &str = "\
import { helper } from \"./util\";
export function process(items: Item[]) {
  if (items.length === 0) {
    return;
  } else if (items.length > 3) {
    helper(items);
  } else {
    audit(items);
  }
  for (const item of items) {
    handle(item);
  }
}
function handle(item: Item) {
  switch (item.kind) {
    case 1:
      return;
    default:
      item.run();
  }
}
";

const UTIL: &str = "export function helper(x: Item[]) {\n  return;\n}\n";

#[test]
fn typescript_tree_outline() {
    let out = outline_files(&[
        ("src/app.ts".into(), APP.into()),
        ("src/util.ts".into(), UTIL.into()),
    ]);
    assert_eq!(
        out,
        "\
src/app.ts:2 fn process
  if (items.length === 0)
    return
  else if (items.length > 3)
    src/util.ts:1 helper(items)
      return
  else
    audit(items)
  for (const item of items)
    src/app.ts:14 handle(item)
      switch (item.kind)
        case 1
          return
        default
          item.run()
"
    );
}

#[test]
fn typescript_imports_bind_relative_modules() {
    let t = parse_path("src/app.ts", APP);
    let uses = UseMap::for_file(&t, "src/app.ts");
    assert_eq!(
        uses.binding("helper"),
        Some(&vec!["util".to_string(), "helper".to_string()])
    );
}

#[test]
fn typescript_module_paths() {
    assert_eq!(ts_module_path("src/a/b.tsx"), vec!["a", "b"]);
    assert_eq!(ts_module_path("src/a/index.ts"), vec!["a"]);
    assert_eq!(ts_module_path("<stdin>"), Vec::<String>::new());
    assert_eq!(resolve_ts_spec("src/a/b.ts", "../c/d.js"), Some(vec!["c".to_string(), "d".to_string()]));
    assert_eq!(resolve_ts_spec("src/a/b.ts", "./e"), Some(vec!["a".to_string(), "e".to_string()]));
    assert_eq!(resolve_ts_spec("src/b.ts", "../../x"), None);
    assert_eq!(resolve_ts_spec("src/b.ts", "react"), None);
}
