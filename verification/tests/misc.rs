use rustbox::xargs::{split_input_args, nonempty_args, split_command, batches, prompt_text, is_yes, next_exit};
use rustbox::transfer::{is_affirmative, split_paths, target_for, copy_action, may_write, must_ask,
    transfer_line, Target, CopyAction};
use rustbox::report::{file_row, report_table, title_line, done_line};
use rustbox::text::{decimal_string, trim_chars, parse_usize};

fn strs(v: &[&str]) -> Vec<String> {
    v.iter().map(|s| s.to_string()).collect()
}

#[test]
fn delimited_input_args() {
    assert_eq!(split_input_args("a,b,,c\n", ","), strs(&["a", "b", "c"]));
    assert_eq!(split_input_args("ab", ""), strs(&["a", "b"]));
    assert_eq!(split_input_args("x::y", "::"), strs(&["x", "y"]));
    assert_eq!(split_input_args("  \n", ","), Vec::<String>::new());
}

#[test]
fn line_input_args() {
    assert_eq!(nonempty_args(&strs(&["a", "", "b"])), strs(&["a", "b"]));
}

#[test]
fn command_defaults_to_echo() {
    let (c, a) = split_command(&[]);
    assert_eq!(c, "echo");
    assert!(a.is_empty());
    let (c, a) = split_command(&strs(&["ls", "-l", "x"]));
    assert_eq!(c, "ls");
    assert_eq!(a, strs(&["-l", "x"]));
}

#[test]
fn batches_by_limit() {
    let init = strs(&["-n"]);
    let input = strs(&["a", "b", "c"]);
    assert_eq!(batches(&init, &input, Some(2)), vec![strs(&["-n", "a", "b"]), strs(&["-n", "c"])]);
    assert_eq!(batches(&init, &input, None), vec![strs(&["-n", "a", "b", "c"])]);
    assert_eq!(batches(&init, &input, Some(1)).len(), 3);
    assert_eq!(batches(&init, &[], Some(2)), vec![strs(&["-n"])]);
    assert_eq!(batches(&[], &[], None), vec![Vec::<String>::new()]);
}

#[test]
fn prompt_and_answer() {
    assert_eq!(prompt_text("echo", &strs(&["a", "b"])), "echo a b? (y/n) ");
    assert!(is_yes(" Y\n"));
    assert!(!is_yes("yes"));
    assert!(!is_yes("n"));
}

#[test]
fn exit_codes_kept() {
    assert_eq!(next_exit(0, Some(0)), 0);
    assert_eq!(next_exit(0, Some(2)), 2);
    assert_eq!(next_exit(2, Some(0)), 2);
    assert_eq!(next_exit(2, None), 1);
    assert_eq!(next_exit(3, Some(-1)), -1);
}

#[test]
fn overwrite_answers() {
    assert!(is_affirmative("yes\n"));
    assert!(is_affirmative(" Y "));
    assert!(is_affirmative("YES"));
    assert!(!is_affirmative("no"));
    assert!(!is_affirmative(""));
    assert!(!is_affirmative("ye"));
}

#[test]
fn paths_and_targets() {
    let (src, dst) = split_paths(&strs(&["a", "b", "dst"]));
    assert_eq!(src, strs(&["a", "b"]));
    assert_eq!(dst, "dst");
    assert!(target_for(true, 3) == Target::IntoDirectory);
    assert!(target_for(false, 2) == Target::NotADirectory);
    assert!(target_for(false, 1) == Target::ToPath);
}

#[test]
fn copy_actions() {
    assert!(copy_action(true, false) == CopyAction::SkipDirectory);
    assert!(copy_action(true, true) == CopyAction::CopyDirectory);
    assert!(copy_action(false, true) == CopyAction::CopyFile);
}

#[test]
fn write_permission() {
    assert!(!may_write(true, true, "n"));
    assert!(may_write(true, true, "y\n"));
    assert!(may_write(false, true, "n"));
    assert!(may_write(true, false, ""));
    assert!(must_ask(true, true));
    assert!(!must_ask(true, false));
    assert_eq!(transfer_line("a", "b/a"), "a -> b/a");
}

#[test]
fn report_rows() {
    colored::control::set_override(false);
    let r = file_row("x.txt", Some(2048));
    assert_eq!(r.name, "x.txt");
    assert_eq!(r.size, "2.0K");
    assert_eq!(r.status, "OK");
    assert_eq!(file_row("y", None).size, "?");
}

#[test]
fn text_helpers() {
    assert_eq!(decimal_string(0), "0");
    assert_eq!(decimal_string(18446744073709551615), "18446744073709551615");
    assert_eq!(trim_chars(&[' ', 'a', '\u{3000}', 'b', '\n']), vec!['a', '\u{3000}', 'b']);
    assert_eq!(parse_usize(&['4', '2']), Some(42));
    assert_eq!(parse_usize(&[]), None);
    assert_eq!(parse_usize(&['-', '1']), None);
}

#[test]
fn report_table_cells() {
    colored::control::set_override(false);
    let rows = vec![file_row("a.txt", Some(1)), file_row("b.log", None)];
    let t = report_table(&rows);
    let header: Vec<String> = t.header().unwrap().cell_iter().map(|c| c.content()).collect();
    assert_eq!(header, strs(&["파일", "크기", "상태"]));
    let cells: Vec<Vec<String>> = t.row_iter().map(|r| r.cell_iter().map(|c| c.content()).collect()).collect();
    assert_eq!(cells, vec![strs(&["a.txt", "1B", "OK"]), strs(&["b.log", "?", "OK"])]);
}

#[test]
fn report_lines_plain() {
    colored::control::set_override(false);
    assert_eq!(title_line(), "파일 처리 시작");
    assert_eq!(done_line(3), "✓ 3개 파일 처리 완료");
}
