use seer::cli::{cap_lines, split_max_lines};

fn args(v: &[&str]) -> Vec<String> {
    v.iter().map(|s| s.to_string()).collect()
}

#[test]
fn max_lines_is_split_off_the_front() {
    let (cap, rest) = split_max_lines(&args(&["seer", "--max-lines", "80", "src/a.rs"])).unwrap();
    assert_eq!(cap, Some(80));
    assert_eq!(rest, args(&["seer", "src/a.rs"]));
    let (cap, rest) = split_max_lines(&args(&["seer", "--max-lines=3", "--", "a.rs"])).unwrap();
    assert_eq!(cap, Some(3));
    assert_eq!(rest, args(&["seer", "--", "a.rs"]));
    let (cap, rest) = split_max_lines(&args(&["seer", "graph", "x.rs"])).unwrap();
    assert_eq!(cap, None);
    assert_eq!(rest, args(&["seer", "graph", "x.rs"]));
}

#[test]
fn max_lines_needs_a_number() {
    let err = split_max_lines(&args(&["seer", "--max-lines"])).unwrap_err();
    assert_eq!(err.exit_code(), 2);
    assert_eq!(err.to_string(), "--max-lines requires a number");
    let err = split_max_lines(&args(&["seer", "--max-lines", "ten", "a.rs"])).unwrap_err();
    assert_eq!(err.exit_code(), 2);
    assert_eq!(err.to_string(), "invalid --max-lines: ten");
}

#[test]
fn short_output_is_not_capped() {
    assert_eq!(cap_lines("a\nb\n", 2), "a\nb\n");
    assert_eq!(cap_lines("", 0), "");
}

#[test]
fn long_output_keeps_lines_and_adds_notice() {
    assert_eq!(
        cap_lines("a\nb\nc\nd", 2),
        "a\nb\n... 2 more (--max-lines 2)\n"
    );
    assert_eq!(cap_lines("x\n", 0), "... 1 more (--max-lines 0)\n");
}
