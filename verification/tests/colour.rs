use rustbox::highlight::highlight_matches;
use rustbox::matcher::Matcher;
use rustbox::grep::{grep_lines, GrepOptions};
use rustbox::report::{file_row, title_line, done_line};

fn colour_on() {
    colored::control::set_override(true);
}

#[test]
fn highlight_paints_each_match() {
    colour_on();
    let m = Matcher::new("foo", false).unwrap();
    assert_eq!(highlight_matches("a foo b foo", &m), "a \x1b[1;31mfoo\x1b[0m b \x1b[1;31mfoo\x1b[0m");
}

#[test]
fn highlight_multibyte_offsets() {
    colour_on();
    let m = Matcher::new("é+", false).unwrap();
    assert_eq!(highlight_matches("caféé!", &m), "caf\x1b[1;31méé\x1b[0m!");
}

#[test]
fn grep_highlighted_with_number() {
    colour_on();
    let m = Matcher::new("b", false).unwrap();
    let o = GrepOptions { line_number: true, recursive: false, count: false, before: None, after: None };
    let out = grep_lines(&m, "f", &["abc".to_string()], o);
    assert_eq!(out, vec!["f:1:a\x1b[1;31mb\x1b[0mc".to_string()]);
}

#[test]
fn status_cell_green() {
    colour_on();
    let r = file_row("x", Some(5));
    assert_eq!(r.status, "\x1b[32mOK\x1b[0m");
    assert_eq!(r.size, "5B");
}

#[test]
fn report_lines_painted() {
    colour_on();
    assert_eq!(title_line(), "\x1b[1;32m파일 처리 시작\x1b[0m");
    assert_eq!(done_line(2), "\x1b[32m✓\x1b[0m 2개 파일 처리 완료");
}
