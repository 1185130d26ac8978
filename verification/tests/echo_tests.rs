use rustbox::escape::{echo_output, process_escapes};

fn args(v: &[&str]) -> Vec<String> {
    v.iter().map(|s| s.to_string()).collect()
}

#[test]
fn echo_basic() {
    assert_eq!(echo_output(&args(&["hello"]), false, false), "hello\n");
}

#[test]
fn echo_multiple_args() {
    assert_eq!(echo_output(&args(&["hello", "world"]), false, false), "hello world\n");
}

#[test]
fn echo_no_newline() {
    assert_eq!(echo_output(&args(&["hello"]), false, true), "hello");
}

#[test]
fn echo_with_escape() {
    let out = echo_output(&args(&["hello\\tworld"]), true, false);
    assert!(out.contains("hello\tworld"));
}

#[test]
fn echo_empty_input() {
    assert_eq!(echo_output(&[], false, false), "\n");
}

#[test]
fn echo_prints_joined_text_with_newline() {
    assert_eq!(echo_output(&args(&["hello", "world"]), false, false), "hello world\n");
}

#[test]
fn echo_n_skips_trailing_newline() {
    assert_eq!(echo_output(&args(&["x"]), false, true), "x");
}

#[test]
fn echo_e_processes_escapes() {
    assert_eq!(echo_output(&args(&[r"a\nb"]), true, false), "a\nb\n");
}

#[test]
fn escapes_each_known_sequence() {
    assert_eq!(process_escapes(r"\n\t\r\\\a\b"), "\n\t\r\\\x07\x08");
}

#[test]
fn escapes_unknown_sequence_kept() {
    assert_eq!(process_escapes(r"a\qb"), "a\\qb");
    assert_eq!(process_escapes("end\\"), "end\\");
}

#[test]
fn escapes_absent_text_unchanged() {
    assert_eq!(process_escapes("plain text"), "plain text");
}

#[test]
fn escapes_double_backslash_then_n() {
    assert_eq!(process_escapes(r"\\n"), "\\n");
}

#[test]
fn echo_without_e_keeps_backslashes() {
    assert_eq!(echo_output(&args(&[r"a\nb"]), false, false), "a\\nb\n");
}
