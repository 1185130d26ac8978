use rustbox::lines::{cat_lines, format_numbered, head_lines, tail_lines, tail_start, file_banner,
    CatFlags, CatState, HeadCounter, TailBuffer};
use rustbox::cut::{parse_ranges, cut_fields, cut_characters, cut_line, all_one_based};
use rustbox::charset::{parse_char_set, translate, delete_chars, tr_line, can_translate};
use rustbox::sort::{sort_all, sort_key, get_field, dedup_lines, SortOptions};
use rustbox::order::{numeric_compare, str_cmp, NumKey};
use std::cmp::Ordering;

fn strs(v: &[&str]) -> Vec<String> {
    v.iter().map(|s| s.to_string()).collect()
}

fn plain() -> CatFlags {
    CatFlags { number: false, number_nonblank: false, squeeze_blank: false }
}

#[test]
fn cat_prints_file_contents() {
    assert_eq!(cat_lines(&strs(&["one", "two"]), plain()), strs(&["one", "two"]));
}

#[test]
fn cat_numbers_every_line() {
    let f = CatFlags { number: true, ..plain() };
    assert_eq!(cat_lines(&strs(&["a", "", "b"]), f), strs(&["     1\ta", "     2\t", "     3\tb"]));
}

#[test]
fn cat_numbers_nonblank_lines() {
    let f = CatFlags { number_nonblank: true, ..plain() };
    assert_eq!(cat_lines(&strs(&["a", "", "b"]), f), strs(&["     1\ta", "", "     2\tb"]));
}

#[test]
fn cat_b_wins_over_n() {
    let f = CatFlags { number: true, number_nonblank: true, squeeze_blank: false };
    assert_eq!(cat_lines(&strs(&["", "x"]), f), strs(&["", "     1\tx"]));
}

#[test]
fn cat_squeezes_blank_runs() {
    let f = CatFlags { squeeze_blank: true, ..plain() };
    assert_eq!(cat_lines(&strs(&["a", "", "", "", "b", ""]), f), strs(&["a", "", "b", ""]));
}

#[test]
fn cat_squeeze_and_number() {
    let f = CatFlags { squeeze_blank: true, number: true, number_nonblank: false };
    assert_eq!(cat_lines(&strs(&["", "", "z"]), f), strs(&["     1\t", "     2\tz"]));
}

#[test]
fn cat_state_steps() {
    let mut st = CatState::new(CatFlags { squeeze_blank: true, number: true, number_nonblank: false });
    assert_eq!(st.step(""), Some("     1\t".to_string()));
    assert_eq!(st.step(""), None);
    assert_eq!(st.step("q"), Some("     2\tq".to_string()));
    assert_eq!(st.line_number, 3);
    assert!(st.numbers("r"));
    assert!(!CatState::new(plain()).numbers("r"));
}

#[test]
fn numbered_line_width() {
    assert_eq!(format_numbered(7, "x"), "     7\tx");
    assert_eq!(format_numbered(123456, "y"), "123456\ty");
    assert_eq!(format_numbered(1234567, "z"), "1234567\tz");
}

#[test]
fn head_first_lines() {
    assert_eq!(head_lines(&strs(&["a", "b", "c"]), 2), strs(&["a", "b"]));
}

#[test]
fn head_more_than_available() {
    assert_eq!(head_lines(&strs(&["a"]), 10), strs(&["a"]));
    assert_eq!(head_lines(&strs(&["a", "b"]), 0), Vec::<String>::new());
}

#[test]
fn head_counter_admits_limit() {
    let mut c = HeadCounter::new(2);
    assert!(c.admits());
    assert!(c.admits());
    assert!(!c.admits());
    assert!(!c.admits());
}

#[test]
fn tail_last_lines() {
    assert_eq!(tail_lines(&strs(&["a", "b", "c"]), 2), strs(&["b", "c"]));
    assert_eq!(tail_lines(&strs(&["a"]), 5), strs(&["a"]));
}

#[test]
fn tail_zero_keeps_nothing() {
    assert_eq!(tail_lines(&strs(&["a", "b", "c"]), 0), Vec::<String>::new());
    let mut t = TailBuffer::new(0);
    t.push("x".to_string());
    assert!(t.lines().is_empty());
}

#[test]
fn tail_buffer_window() {
    let mut t = TailBuffer::new(2);
    t.push("1".to_string());
    t.push("2".to_string());
    t.push("3".to_string());
    assert_eq!(t.lines(), strs(&["2", "3"]));
}

#[test]
fn tail_byte_start() {
    assert_eq!(tail_start(100, 10), 90);
    assert_eq!(tail_start(5, 10), 0);
    assert_eq!(tail_start(10, 10), 0);
}

#[test]
fn banners_for_several_files() {
    assert_eq!(file_banner(0, 2, "a.txt"), strs(&["==> a.txt <=="]));
    assert_eq!(file_banner(1, 2, "b.txt"), strs(&["", "==> b.txt <=="]));
    assert_eq!(file_banner(0, 1, "c.txt"), Vec::<String>::new());
}

#[test]
fn ranges_single_and_list() {
    assert_eq!(parse_ranges("1,3"), vec![1, 3]);
    assert_eq!(parse_ranges("3,1"), vec![1, 3]);
    assert_eq!(parse_ranges("2-4"), vec![2, 3, 4]);
    assert_eq!(parse_ranges("3,1-2,2"), vec![1, 2, 3]);
}

#[test]
fn ranges_odd_inputs() {
    assert_eq!(parse_ranges("a"), Vec::<usize>::new());
    assert_eq!(parse_ranges("1-2-3"), Vec::<usize>::new());
    assert_eq!(parse_ranges("-2"), vec![1, 2]);
    assert_eq!(parse_ranges("3-"), Vec::<usize>::new());
    assert_eq!(parse_ranges(""), Vec::<usize>::new());
}

#[test]
fn ranges_leave_out_zero() {
    assert_eq!(parse_ranges("0"), Vec::<usize>::new());
    assert_eq!(parse_ranges("0-2"), vec![1, 2]);
    assert_eq!(parse_ranges("0,3"), vec![3]);
}

#[test]
fn cut_selected_fields() {
    assert_eq!(cut_fields("a,b,c", ",", &[1, 3]), "a,c");
    assert_eq!(cut_fields("a,b", ",", &[5]), "");
    assert_eq!(cut_fields("a\tb\tc", "\t", &[2]), "b");
    assert_eq!(cut_fields("a::b::c", "::", &[2, 3]), "b::c");
}

#[test]
fn cut_selected_characters() {
    assert_eq!(cut_characters("hello", &[1, 5]), "ho");
    assert_eq!(cut_characters("héllo", &[2]), "é");
    assert_eq!(cut_characters("hi", &[3]), "");
}

#[test]
fn cut_line_prefers_fields() {
    assert_eq!(cut_line("a,b", ",", &[2], &[1]), "b");
    assert_eq!(cut_line("xyz", ",", &[], &[2]), "y");
    assert_eq!(cut_line("xyz", ",", &[], &[]), "xyz");
    assert!(all_one_based(&[1, 2]));
    assert!(!all_one_based(&[0, 2]));
}

#[test]
fn char_set_ranges() {
    assert_eq!(parse_char_set("a-c"), vec!['a', 'b', 'c']);
    assert_eq!(parse_char_set("aab"), vec!['a', 'b']);
    assert_eq!(parse_char_set("c-a"), Vec::<char>::new());
    assert_eq!(parse_char_set("a-"), vec!['a', '-']);
    assert_eq!(parse_char_set("x-zy"), vec!['x', 'y', 'z']);
}

#[test]
fn translate_maps_characters() {
    assert_eq!(translate("hello", &['l'], &['L']), "heLLo");
    assert_eq!(translate("abc", &['a', 'b', 'c'], &['x']), "xxx");
    assert_eq!(translate("abc", &['a', 'b'], &['1', '2']), "12c");
}

#[test]
fn delete_removes_characters() {
    assert_eq!(delete_chars("hello", &['l']), "heo");
    assert_eq!(delete_chars("hello", &[]), "hello");
}

#[test]
fn tr_line_modes() {
    assert_eq!(tr_line("abc", true, &['b'], None), "ac");
    let to = ['B'];
    assert_eq!(tr_line("abc", false, &['b'], Some(&to[..])), "aBc");
    assert_eq!(tr_line("abc", false, &['b'], None), "abc");
    assert!(!can_translate("abc", &['b'], &[]));
    assert!(can_translate("ac", &['b'], &[]));
}

fn opts() -> SortOptions {
    SortOptions { reverse: false, numeric: false, ignore_case: false, unique: false, key: None }
}

fn invalid(n: usize) -> Vec<NumKey> {
    vec![NumKey::Invalid; n]
}

#[test]
fn sort_sorts_lines() {
    let lines = strs(&["banana", "apple"]);
    assert_eq!(sort_all(&lines, opts(), invalid(2)), strs(&["apple", "banana"]));
}

#[test]
fn sort_reverse_and_unique() {
    let lines = strs(&["b", "a", "c", "b"]);
    assert_eq!(sort_all(&lines, SortOptions { reverse: true, ..opts() }, invalid(4)), strs(&["c", "b", "b", "a"]));
    assert_eq!(sort_all(&lines, SortOptions { unique: true, ..opts() }, invalid(4)), strs(&["a", "b", "c"]));
}

#[test]
fn sort_ignore_case_is_stable() {
    let lines = strs(&["b", "A", "a"]);
    assert_eq!(sort_all(&lines, SortOptions { ignore_case: true, ..opts() }, invalid(3)), strs(&["A", "a", "b"]));
}

#[test]
fn sort_numeric_with_non_numbers_last() {
    let lines = strs(&["10", "9", "x", "1"]);
    let nums = vec![NumKey::Number(10), NumKey::Number(9), NumKey::Invalid, NumKey::Number(1)];
    assert_eq!(sort_all(&lines, SortOptions { numeric: true, ..opts() }, nums), strs(&["1", "9", "10", "x"]));
}

#[test]
fn sort_by_key_field() {
    let lines = strs(&["x 3", "y 1", "z"]);
    assert_eq!(sort_all(&lines, SortOptions { key: Some(2), ..opts() }, invalid(3)), strs(&["z", "y 1", "x 3"]));
}

#[test]
fn sort_keys_extracted() {
    assert_eq!(sort_key("HeLLo", SortOptions { ignore_case: true, ..opts() }), "hello");
    assert_eq!(sort_key("HeLLo", SortOptions { ignore_case: true, numeric: true, ..opts() }), "HeLLo");
    assert_eq!(sort_key("a b c", SortOptions { key: Some(3), ..opts() }), "c");
    assert_eq!(sort_key("ÀB Σ", SortOptions { ignore_case: true, ..opts() }), "àb σ");
}

#[test]
fn fields_split_on_whitespace() {
    assert_eq!(get_field("a  b\tc", 2), "b");
    assert_eq!(get_field("  a", 1), "a");
    assert_eq!(get_field("a", 3), "");
}

#[test]
fn numeric_order_cases() {
    assert_eq!(numeric_compare("1", "2", NumKey::Number(1), NumKey::Number(2)), Ordering::Less);
    assert_eq!(numeric_compare("2", "1", NumKey::Number(2), NumKey::Number(1)), Ordering::Greater);
    assert_eq!(numeric_compare("a", "b", NumKey::Invalid, NumKey::Invalid), Ordering::Less);
    assert_eq!(numeric_compare("5", "b", NumKey::Number(5), NumKey::Invalid), Ordering::Less);
    assert_eq!(numeric_compare("b", "5", NumKey::Invalid, NumKey::Number(5)), Ordering::Greater);
    assert_eq!(numeric_compare("NaN", "5", NumKey::NaN, NumKey::Number(5)), Ordering::Equal);
}

#[test]
fn code_point_order() {
    assert_eq!(str_cmp("abc", "abd"), Ordering::Less);
    assert_eq!(str_cmp("ab", "a"), Ordering::Greater);
    assert_eq!(str_cmp("Z", "a"), Ordering::Less);
    assert_eq!(str_cmp("x", "x"), Ordering::Equal);
}

#[test]
fn dedup_adjacent_only() {
    assert_eq!(dedup_lines(&strs(&["a", "a", "b", "a"])), strs(&["a", "b", "a"]));
}

#[test]
fn cut_every_field_gives_line() {
    assert_eq!(cut_fields("a,b,c", ",", &[1, 2, 3, 4]), "a,b,c");
    assert_eq!(cut_fields("x::y::", "::", &[1, 2, 3]), "x::y::");
    assert_eq!(cut_fields("abc", "", &[1, 2, 3, 4, 5]), "abc");
    assert_eq!(cut_fields("", ",", &[1]), "");
}
