use rustbox::grep::{GrepScan, grep_lines, grep_output, context_output, match_line, count_line, line_prefix,
    GrepOptions, LinePrefix};
use rustbox::matcher::Matcher;
use rustbox::highlight::highlight_matches;
use rustbox::glob::{glob_match, match_name};
use rustbox::find::{find_selects, basic_find_selects, match_type, normalize_find_style_argv, EntryKind, FindEntry};

fn strs(v: &[&str]) -> Vec<String> {
    v.iter().map(|s| s.to_string()).collect()
}

fn no_colour() {
    colored::control::set_override(false);
}

fn plain_opts() -> GrepOptions {
    GrepOptions { line_number: false, recursive: false, count: false, before: None, after: None }
}

#[test]
fn grep_finds_pattern() {
    let m = Matcher::new("foo", false).unwrap();
    let out = grep_lines(&m, "g.txt", &strs(&["foo", "bar foo", "baz"]), plain_opts());
    let text = out.join("\n");
    assert!(text.contains("foo"));
    assert!(text.contains("bar foo"));
    assert!(!out.iter().any(|l| l == "baz"));
}

#[test]
fn grep_plain_lines_exact() {
    no_colour();
    let m = Matcher::new("foo", false).unwrap();
    let out = grep_lines(&m, "g.txt", &strs(&["foo", "bar foo", "baz"]), plain_opts());
    assert_eq!(out, strs(&["foo", "bar foo"]));
}

#[test]
fn grep_line_numbers() {
    no_colour();
    let m = Matcher::new("foo", false).unwrap();
    let o = GrepOptions { line_number: true, recursive: true, ..plain_opts() };
    let out = grep_lines(&m, "g.txt", &strs(&["foo", "baz", "bar foo"]), o);
    assert_eq!(out, strs(&["g.txt:1:foo", "g.txt:3:bar foo"]));
}

#[test]
fn grep_recursive_prefix() {
    no_colour();
    let m = Matcher::new("o+", false).unwrap();
    let o = GrepOptions { recursive: true, ..plain_opts() };
    let out = grep_lines(&m, "d/f", &strs(&["no", "yes"]), o);
    assert_eq!(out, strs(&["d/f:no"]));
}

#[test]
fn grep_count_only() {
    let m = Matcher::new("a", false).unwrap();
    let o = GrepOptions { count: true, ..plain_opts() };
    let out = grep_lines(&m, "f", &strs(&["a", "b", "ca"]), o);
    assert_eq!(out, strs(&["f:2"]));
    let o2 = GrepOptions { count: true, before: Some(3), ..plain_opts() };
    assert_eq!(grep_lines(&m, "f", &strs(&["b"]), o2), strs(&["f:0"]));
}

#[test]
fn grep_ignore_case() {
    no_colour();
    let m = Matcher::new("FOO", true).unwrap();
    let out = grep_lines(&m, "f", &strs(&["Foo", "bar"]), plain_opts());
    assert_eq!(out, strs(&["Foo"]));
    let strict = Matcher::new("FOO", false).unwrap();
    assert!(grep_lines(&strict, "f", &strs(&["Foo"]), plain_opts()).is_empty());
}

#[test]
fn grep_invalid_pattern() {
    assert!(Matcher::new("(", false).is_none());
    assert!(Matcher::new("a(b", true).is_none());
}

#[test]
fn grep_context_blocks() {
    no_colour();
    let m = Matcher::new("foo", false).unwrap();
    let o = GrepOptions { before: Some(1), after: Some(1), ..plain_opts() };
    let out = grep_lines(&m, "f", &strs(&["a", "foo", "b", "c", "foo"]), o);
    assert_eq!(out, strs(&["f-a", "f:foo", "f-b", "f-c", "f:foo"]));
}

#[test]
fn grep_context_repeats_overlaps() {
    no_colour();
    let m = Matcher::new("foo", false).unwrap();
    let o = GrepOptions { after: Some(1), line_number: true, ..plain_opts() };
    let out = grep_lines(&m, "f", &strs(&["foo", "foo"]), o);
    assert_eq!(out, strs(&["f:foo", "f-foo", "f:foo"]));
}

#[test]
fn grep_context_zero_is_file_prefix() {
    no_colour();
    let m = Matcher::new("x", false).unwrap();
    let lines = strs(&["x1", "y", "x2"]);
    let ctx = GrepOptions { before: Some(0), after: Some(0), ..plain_opts() };
    let rec = GrepOptions { recursive: true, ..plain_opts() };
    assert_eq!(grep_lines(&m, "f", &lines, ctx), grep_lines(&m, "f", &lines, rec));
}

#[test]
fn context_output_large_after() {
    let lines = strs(&["m", "a", "b"]);
    let out = context_output("f", &lines, &[true, false, false], &strs(&["M", "", ""]), 5, usize::MAX);
    assert_eq!(out, strs(&["f:M", "f-a", "f-b"]));
}

#[test]
fn grep_output_from_results() {
    let lines = strs(&["l1", "l2", "l3"]);
    let hls = strs(&["H1", "", "H3"]);
    let o = GrepOptions { line_number: true, ..plain_opts() };
    assert_eq!(grep_output("f", &lines, &[true, false, true], &hls, o), strs(&["f:1:H1", "f:3:H3"]));
    let c = GrepOptions { count: true, ..plain_opts() };
    assert_eq!(grep_output("f", &lines, &[true, false, true], &hls, c), strs(&["f:2"]));
}

#[test]
fn match_and_count_lines() {
    assert_eq!(match_line("f", 9, "hl", LinePrefix::FileAndNumber), "f:10:hl");
    assert_eq!(match_line("f", 0, "hl", LinePrefix::FileName), "f:hl");
    assert_eq!(match_line("f", 0, "hl", LinePrefix::Plain), "hl");
    assert_eq!(count_line("f", 12), "f:12");
    assert!(line_prefix(true, true) == LinePrefix::FileAndNumber);
    assert!(line_prefix(false, true) == LinePrefix::FileName);
    assert!(line_prefix(false, false) == LinePrefix::Plain);
}

#[test]
fn highlight_without_colour_is_line() {
    no_colour();
    let m = Matcher::new("o", false).unwrap();
    assert_eq!(highlight_matches("foo bar", &m), "foo bar");
}

#[test]
fn glob_wildcards() {
    assert!(glob_match("main.rs", "*.rs"));
    assert!(!glob_match("a.txt", "*.rs"));
    assert!(glob_match("abc", "a?c"));
    assert!(!glob_match("ab", "a?c"));
    assert!(glob_match("", "*"));
    assert!(glob_match("", ""));
    assert!(!glob_match("x", ""));
    assert!(glob_match("abcbd", "a*b?"));
    assert!(glob_match("xaaab", "*a*b"));
}

#[test]
fn glob_star_in_name_still_wildcard() {
    assert!(glob_match("a*b", "a*"));
    assert!(glob_match("*a", "*"));
    assert!(glob_match("x*y*z", "x*z"));
    assert!(!glob_match("a*b", "a*c"));
    assert!(glob_match("ab", "a*"));
}

#[test]
fn names_exact_or_wildcard() {
    assert!(match_name("main.rs", "main.rs"));
    assert!(!match_name("main.rs", "main"));
    assert!(match_name("main.rs", "m*"));
    assert!(match_name("a", "?"));
}

fn entry(is_file: bool, is_dir: bool, is_symlink: bool, name: &str, size: Option<u64>) -> FindEntry {
    FindEntry { kind: EntryKind { is_file, is_dir, is_symlink }, file_name: name.to_string(), size }
}

#[test]
fn find_type_filter() {
    let k = EntryKind { is_file: false, is_dir: false, is_symlink: true };
    assert!(match_type(&k, "l"));
    assert!(!match_type(&k, "f"));
    assert!(match_type(&k, "zz"));
}

#[test]
fn find_all_filters() {
    let e = entry(true, false, false, "a.rs", Some(10));
    assert!(find_selects(&e, Some("*.rs"), Some("f"), Some(10)));
    assert!(!find_selects(&e, Some("*.rs"), Some("f"), Some(11)));
    assert!(!find_selects(&e, Some("*.txt"), None, None));
    assert!(!find_selects(&e, None, Some("d"), None));
    let d = entry(false, true, false, "src", None);
    assert!(!find_selects(&d, None, None, Some(0)));
    assert!(find_selects(&d, Some("src"), Some("d"), None));
}

#[test]
fn basic_find_filters() {
    let l = entry(false, false, true, "ln", None);
    assert!(basic_find_selects(&l, None, Some("l"), None));
    assert!(!basic_find_selects(&l, None, Some("f"), None));
    let d = entry(false, true, false, "dir", None);
    assert!(!basic_find_selects(&d, None, Some("l"), None));
    assert!(basic_find_selects(&d, None, Some("x"), None));
    assert!(!basic_find_selects(&l, Some("l"), None, None));
    assert!(basic_find_selects(&l, Some("l?"), None, None));
}

#[test]
fn argv_single_dash_options() {
    let out = normalize_find_style_argv(strs(&["find", "-name", "x", "-type", "f", "-size", "3", "-other"]));
    assert_eq!(out, strs(&["find", "--name", "x", "--type", "f", "--size", "3", "-other"]));
    assert_eq!(normalize_find_style_argv(strs(&["-name"])), strs(&["-name"]));
}

#[test]
fn grep_scan_line_by_line() {
    no_colour();
    let m = Matcher::new("o", false).unwrap();
    let o = GrepOptions { line_number: true, ..plain_opts() };
    let mut g = GrepScan::new(o);
    assert_eq!(g.step(&m, "f", 0, "no"), Some("f:1:no".to_string()));
    assert_eq!(g.step(&m, "f", 1, "yes"), None);
    assert_eq!(g.step(&m, "f", 2, "so"), Some("f:3:so".to_string()));
    assert_eq!(g.count, 2);
    assert_eq!(g.finish("f"), None);
    let mut c = GrepScan::new(GrepOptions { count: true, ..plain_opts() });
    assert_eq!(c.step(&m, "f", 0, "no"), None);
    assert_eq!(c.finish("f"), Some("f:1".to_string()));
}
