use rustbox::ls::{prepare_rows, list_names, long_row, short_listing, sort_by_lowercase, box_long_row};
use rustbox::names::shown_names;
use rustbox::tree::{plan_level, tree_summary, level_totals, TreeEntry, TreeOptions, TreeTotals};
use rustbox::du::{show_child, du_line, visit_order, leaf_size, DuDir, DuKind, DuOptions};
use rustbox::sizes::{format_size, format_permissions, month_name, format_time};
use rustbox::du::format_size as du_format_size;
use rustbox::report::format_size as table_format_size;

fn strs(v: &[&str]) -> Vec<String> {
    v.iter().map(|s| s.to_string()).collect()
}

fn ls_expected(size: u64, human: bool) -> String {
    const KB: u64 = 1024;
    const MB: u64 = 1024 * KB;
    const GB: u64 = 1024 * MB;
    if !human {
        return size.to_string();
    }
    if size >= GB {
        format!("{:.1}G", size as f64 / GB as f64)
    } else if size >= MB {
        format!("{:.1}M", size as f64 / MB as f64)
    } else if size >= KB {
        format!("{:.1}K", size as f64 / KB as f64)
    } else {
        size.to_string()
    }
}

fn du_expected(bytes: u64, human: bool) -> String {
    const KB: u64 = 1024;
    const MB: u64 = 1024 * KB;
    const GB: u64 = 1024 * MB;
    const TB: u64 = 1024 * GB;
    if !human {
        return bytes.to_string();
    }
    if bytes >= TB {
        format!("{:.1}T", bytes as f64 / TB as f64)
    } else if bytes >= GB {
        format!("{:.1}G", bytes as f64 / GB as f64)
    } else if bytes >= MB {
        format!("{:.1}M", bytes as f64 / MB as f64)
    } else if bytes >= KB {
        format!("{:.1}K", bytes as f64 / KB as f64)
    } else {
        format!("{}B", bytes)
    }
}

fn table_expected(bytes: u64) -> String {
    const KB: u64 = 1024;
    const MB: u64 = 1024 * KB;
    if bytes >= MB {
        format!("{:.1}M", bytes as f64 / MB as f64)
    } else if bytes >= KB {
        format!("{:.1}K", bytes as f64 / KB as f64)
    } else {
        format!("{}B", bytes)
    }
}

fn sample_sizes() -> Vec<u64> {
    let mut v = vec![0, 1, 999, 1023, 1024, 1025, 1075, 1126, 1280, 1331, 1536, 1740, 10239, 10240,
        102400, 1048575, 1048576, 1153434, 1310720, 1073741823, 1073741824, 1181116006,
        1099511627775, 1099511627776, 1209462790553, 9007199254740993, u64::MAX - 1, u64::MAX];
    let mut x: u64 = 12345;
    for _ in 0..300 {
        x = x.wrapping_mul(6364136223846793005).wrapping_add(1442695040888963407);
        v.push(x >> (x % 64));
    }
    v
}

#[test]
fn ls_sizes_match_float_formatting() {
    for s in sample_sizes() {
        assert_eq!(format_size(s, true), ls_expected(s, true), "size {}", s);
        assert_eq!(format_size(s, false), ls_expected(s, false), "size {}", s);
    }
}

#[test]
fn du_sizes_match_float_formatting() {
    for s in sample_sizes() {
        assert_eq!(du_format_size(s, true), du_expected(s, true), "size {}", s);
        assert_eq!(du_format_size(s, false), du_expected(s, false), "size {}", s);
    }
}

#[test]
fn table_sizes_match_float_formatting() {
    for s in sample_sizes() {
        assert_eq!(table_format_size(s), table_expected(s), "size {}", s);
    }
}

#[test]
fn size_formula_examples() {
    assert_eq!(format_size(1536, true), "1.5K");
    assert_eq!(format_size(1280, true), "1.2K");
    assert_eq!(format_size(1331, true), "1.3K");
    assert_eq!(format_size(500, true), "500");
    assert_eq!(du_format_size(500, true), "500B");
    assert_eq!(du_format_size(1099511627776, true), "1.0T");
    assert_eq!(table_format_size(1048576), "1.0M");
}

#[test]
fn permission_strings() {
    assert_eq!(format_permissions(0o755, true), "drwxr-xr-x");
    assert_eq!(format_permissions(0o754, false), "-rwxr-xr--");
    assert_eq!(format_permissions(0o100644, false), "-rw-r--r--");
    assert_eq!(format_permissions(0, false), "----------");
}

#[test]
fn month_names() {
    assert_eq!(month_name(1), "Jan");
    assert_eq!(month_name(12), "Dec");
    assert_eq!(month_name(0), "???");
    assert_eq!(month_name(13), "???");
}

#[test]
fn time_column() {
    assert_eq!(format_time(0), "Jan 01 00:00");
    assert_eq!(format_time(86400 * 31 + 3600 * 5 + 60 * 7), "Feb 02 05:07");
    assert_eq!(format_time(86400 * 364), "??? 05 00:00");
}

#[test]
fn rows_sorted_case_insensitively() {
    assert_eq!(prepare_rows(&strs(&["b", "A", "c"]), false), strs(&["A", "b", "c"]));
    assert_eq!(sort_by_lowercase(&strs(&["b", "B", "a"])), strs(&["a", "b", "B"]));
}

#[test]
fn rows_with_dot_entries() {
    assert_eq!(prepare_rows(&strs(&["b", ".", "a", ".."]), true), strs(&[".", "..", "a", "b"]));
    assert_eq!(prepare_rows(&strs(&["z"]), true), strs(&[".", "..", "z"]));
}

#[test]
fn listed_names_hide_dotfiles() {
    let names = strs(&[".hidden", "b", "a"]);
    assert_eq!(list_names(&names, false), strs(&["a", "b"]));
    assert_eq!(list_names(&names, true), strs(&[".", "..", ".hidden", "a", "b"]));
    assert_eq!(shown_names(&names, false), strs(&["b", "a"]));
}

#[test]
fn long_rows() {
    assert_eq!(long_row(0o755, true, 4096, false, 0, "src"), "drwxr-xr-x 4096 Jan 01 00:00 src  /");
    assert_eq!(long_row(0o644, false, 2048, true, 86400 * 31 + 3600 * 5 + 60 * 7, "f"),
        "-rw-r--r-- 2.0K Feb 02 05:07 f  ");
}

#[test]
fn short_listing_text() {
    assert_eq!(short_listing(&strs(&["a", "b"])), "a  b  \n");
    assert_eq!(short_listing(&[]), "\n");
}

fn te(name: &str, is_dir: bool) -> TreeEntry {
    TreeEntry { name: name.to_string(), is_dir }
}

fn topts() -> TreeOptions {
    TreeOptions { max_depth: None, dirs_only: false, show_hidden: false }
}

#[test]
fn tree_level_basic() {
    let lvl = plan_level(&[te("b", true), te("a", false), te(".h", false)], "", 0, topts());
    assert_eq!(lvl.items.len(), 2);
    assert_eq!(lvl.items[0].line, "├── a");
    assert_eq!(lvl.items[0].name, "a");
    assert!(lvl.items[0].descend.is_none());
    assert_eq!(lvl.items[1].line, "└── b");
    assert_eq!(lvl.items[1].descend, Some("    ".to_string()));
    assert_eq!((lvl.dirs, lvl.files), (1, 1));
}

#[test]
fn tree_level_hidden_and_prefix() {
    let o = TreeOptions { show_hidden: true, ..topts() };
    let lvl = plan_level(&[te("x", true), te(".h", false)], "│   ", 3, o);
    assert_eq!(lvl.items[0].line, "│   ├── .h");
    assert_eq!(lvl.items[1].line, "│   └── x");
    assert_eq!(lvl.items[1].descend, Some("│       ".to_string()));
}

#[test]
fn tree_level_dirs_only_keeps_connectors() {
    let o = TreeOptions { dirs_only: true, ..topts() };
    let lvl = plan_level(&[te("b", false), te("a", true)], "", 0, o);
    assert_eq!(lvl.items.len(), 1);
    assert_eq!(lvl.items[0].line, "├── a");
    assert_eq!(lvl.items[0].descend, Some("│   ".to_string()));
    assert_eq!((lvl.dirs, lvl.files), (1, 0));
}

#[test]
fn tree_level_depth_limit() {
    let one = TreeOptions { max_depth: Some(1), ..topts() };
    assert!(plan_level(&[te("d", true)], "", 0, one).items[0].descend.is_none());
    let two = TreeOptions { max_depth: Some(2), ..topts() };
    assert!(plan_level(&[te("d", true)], "", 0, two).items[0].descend.is_some());
    assert!(plan_level(&[te("d", true)], "", 1, two).items[0].descend.is_none());
    let zero = TreeOptions { max_depth: Some(0), ..topts() };
    assert!(plan_level(&[te("d", true)], "", 0, zero).items[0].descend.is_none());
}

#[test]
fn tree_summary_line() {
    assert_eq!(tree_summary(1, 1), "1 directoryy, 1 file");
    assert_eq!(tree_summary(2, 3), "2 directoryies, 3 files");
    assert_eq!(tree_summary(0, 0), "0 directoryies, 0 files");
}

fn dopts(summarize: bool, max_depth: Option<usize>) -> DuOptions {
    DuOptions { human_readable: false, summarize, max_depth }
}

#[test]
fn du_child_lines_shown() {
    assert!(show_child(0, dopts(false, None)));
    assert!(show_child(7, dopts(false, None)));
    assert!(!show_child(0, dopts(true, None)));
    assert!(show_child(0, dopts(false, Some(1))));
    assert!(!show_child(1, dopts(false, Some(1))));
    assert!(!show_child(0, dopts(false, Some(0))));
}

#[test]
fn du_lines_and_totals() {
    assert_eq!(du_line(2048, true, "a/b"), "2.0K\ta/b");
    assert_eq!(du_line(5, false, "x"), "5\tx");
    assert_eq!(du_line(5, true, "x"), "5B\tx");
    let mut d = DuDir::new(0);
    assert_eq!(d.child_done(10, "p/a", dopts(false, None)), Some("10\tp/a".to_string()));
    assert_eq!(d.child_done(5, "p/b", dopts(true, None)), None);
    assert_eq!(d.total, 15);
}

#[test]
fn du_order_and_leaves() {
    assert_eq!(visit_order(&strs(&["b", "a", "B", "a"])), vec![2, 1, 3, 0]);
    assert_eq!(leaf_size(DuKind::File, 10), 10);
    assert_eq!(leaf_size(DuKind::Other, 10), 0);
}

#[test]
fn multi_tool_long_rows() {
    assert_eq!(box_long_row(true, "4096", "src"), "drwxr-xr-x 4096  src");
    assert_eq!(box_long_row(false, "1.5K", "a.txt"), "-rwxr-xr-x 1.5K  a.txt");
}

#[test]
fn tree_totals_add_subtrees() {
    let lvl = plan_level(&[te("a", true), te("b", true), te("c", false)], "", 0, topts());
    let subs = [TreeTotals { dirs: 2, files: 5 }, TreeTotals { dirs: 0, files: 1 }];
    let t = level_totals(&lvl, &subs).unwrap();
    assert_eq!((t.dirs, t.files), (4, 7));
    let big = [TreeTotals { dirs: usize::MAX, files: 0 }, TreeTotals { dirs: 0, files: 0 }];
    assert!(level_totals(&lvl, &big).is_none());
}
