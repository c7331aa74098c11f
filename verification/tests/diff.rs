use seer::diff::diff_text;

#[test]
fn empty_to_content_hunk_is_zero_zero() {
    let d = diff_text("", "fn f\n  return\n", "a", "b");
    assert_eq!(d, "--- a\n+++ b\n@@ -0,0 +1,2 @@\n+fn f\n+  return\n");
}

#[test]
fn content_to_empty_hunk() {
    let d = diff_text("fn f\n", "", "a", "b");
    assert_eq!(d, "--- a\n+++ b\n@@ -1 +0,0 @@\n-fn f\n");
}

#[test]
fn diff_changed_middle_keeps_context() {
    let a = "1\n2\n3\n4\n5\n";
    let b = "1\n2\nx\n4\n5\n";
    let d = diff_text(a, b, "old", "new");
    assert_eq!(d, "--- old\n+++ new\n@@ -1,5 +1,5 @@\n 1\n 2\n-3\n+x\n 4\n 5\n");
}

#[test]
fn far_apart_changes_make_two_hunks() {
    let a: String = (1..13).map(|i| format!("l{}\n", i)).collect();
    let b = a.replacen("l1\n", "x1\n", 1).replace("l12\n", "x12\n");
    let d = diff_text(&a, &b, "a", "b");
    assert_eq!(
        d,
        "--- a\n+++ b\n@@ -1,4 +1,4 @@\n-l1\n+x1\n l2\n l3\n l4\n@@ -9,4 +9,4 @@\n l9\n l10\n l11\n-l12\n+x12\n"
    );
}

#[test]
fn last_line_without_newline_is_its_own_line() {
    let d = diff_text("a\nb", "a\nc", "x", "y");
    assert_eq!(d, "--- x\n+++ y\n@@ -1,2 +1,2 @@\n a\n-b+c");
}

#[test]
fn diff_lines_rebuild_both_sides() {
    let a = "fn f\n  if x\n    return\n  g()\n";
    let b = "fn f\n  while x\n    return\n  g()\n  h()\n";
    let d = diff_text(a, b, "a", "b");
    let mut old = String::new();
    let mut new = String::new();
    for line in d.split_inclusive('\n').skip(3) {
        let (mark, rest) = line.split_at(1);
        if mark != "+" {
            old.push_str(rest);
        }
        if mark != "-" {
            new.push_str(rest);
        }
    }
    assert_eq!(old, a);
    assert_eq!(new, b);
}

#[test]
fn longest_match_ties_go_to_the_earliest() {
    assert_eq!(
        diff_text("x\ny\n", "y\nx\n", "a", "b"),
        "--- a\n+++ b\n@@ -1,2 +1,2 @@\n+y\n x\n-y\n"
    );
    assert_eq!(
        diff_text("a\nb\na\nb\n", "b\na\n", "a", "b"),
        "--- a\n+++ b\n@@ -1,4 +1,2 @@\n-a\n b\n a\n-b\n"
    );
}

#[test]
fn popular_lines_do_not_start_matches() {
    let a: String = (0..220).map(|i| if i % 2 == 1 { "}\n".to_string() } else { format!("f{}\n", i) }).collect();
    let b = a.replace("f100\n", "g100\n");
    assert_eq!(
        diff_text(&a, &b, "a", "b"),
        "--- a\n+++ b\n@@ -98,7 +98,7 @@\n }\n f98\n }\n-f100\n+g100\n }\n f102\n }\n"
    );
}

#[test]
fn each_hunk_applies_to_its_range() {
    let a: String = (1..30).map(|i| format!("l{}\n", i)).collect();
    let b = a.replacen("l2\n", "x2\n", 1).replace("l20\n", "").replace("l28\n", "l28\ny\n");
    let d = diff_text(&a, &b, "a", "b");
    let al: Vec<&str> = a.split_inclusive('\n').collect();
    let bl: Vec<&str> = b.split_inclusive('\n').collect();
    let mut hunks = 0;
    let mut lines = d.split_inclusive('\n').skip(2).peekable();
    while let Some(head) = lines.next() {
        let nums: Vec<&str> = head.trim_start_matches("@@ -").trim_end_matches(" @@\n").split(" +").collect();
        let range = |s: &str| -> (usize, usize) {
            let mut p = s.split(',');
            let start: usize = p.next().unwrap().parse().unwrap();
            let len: usize = p.next().map(|x| x.parse().unwrap()).unwrap_or(1);
            (if len == 0 { start } else { start - 1 }, len)
        };
        let (os, ol) = range(nums[0]);
        let (ns, nl) = range(nums[1]);
        let mut old = Vec::new();
        let mut new = Vec::new();
        while let Some(l) = lines.peek() {
            if l.starts_with("@@") {
                break;
            }
            let (mark, rest) = l.split_at(1);
            if mark != "+" {
                old.push(rest);
            }
            if mark != "-" {
                new.push(rest);
            }
            lines.next();
        }
        assert_eq!(old, al[os..os + ol].to_vec());
        assert_eq!(new, bl[ns..ns + nl].to_vec());
        hunks += 1;
    }
    assert_eq!(hunks, 3);
}

#[test]
fn hunks_applied_to_the_left_text_give_the_right_text() {
    let a: String = (1..40).map(|i| format!("l{}\n", i)).collect();
    let b = a.replacen("l3\n", "x3\n", 1).replace("l21\n", "").replace("l37\n", "l37\nnew\n");
    let d = diff_text(&a, &b, "a", "b");
    let al: Vec<&str> = a.split_inclusive('\n').collect();
    let mut out: Vec<&str> = Vec::new();
    let mut at = 0;
    let mut lines = d.split_inclusive('\n').skip(2).peekable();
    while let Some(head) = lines.next() {
        let old = head.trim_start_matches("@@ -").split(' ').next().unwrap();
        let mut p = old.split(',');
        let start: usize = p.next().unwrap().parse().unwrap();
        let len: usize = p.next().map(|x| x.parse().unwrap()).unwrap_or(1);
        let from = if len == 0 { start } else { start - 1 };
        out.extend_from_slice(&al[at..from]);
        at = from;
        while let Some(l) = lines.peek() {
            if l.starts_with("@@") {
                break;
            }
            let (mark, rest) = l.split_at(1);
            if mark == "-" || mark == " " {
                assert_eq!(al[at], rest);
                at += 1;
            }
            if mark != "-" {
                out.push(rest);
            }
            lines.next();
        }
    }
    out.extend_from_slice(&al[at..]);
    assert_eq!(out.concat(), b);
}
