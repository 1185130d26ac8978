//! The file report of the terminal-ui demo: one row per processed file, the
//! table they are shown in, and the painted title and closing lines.
use vstd::prelude::*;
use crate::text::{owned, decimal, decimal_string, push_str, push_char};
use crate::sizes::{scaled, kib, mib, scaled_text};
use crate::paint::{paint_green, paint_bold_green, painted_with, green, bold_green};
use crate::escape::string_views;

verus! {

/// What the file table of the terminal-ui demo prints as a size: one decimal
/// with `M` or `K` from 1 KiB up, the byte count with `B` below.
pub open spec fn table_size_spec(size: nat) -> Seq<char> {
    if size >= mib() {
        scaled(size, mib(), 'M')
    } else if size >= kib() {
        scaled(size, kib(), 'K')
    } else {
        decimal(size).push('B')
    }
}

/// `format_size` of the terminal-ui demo.
pub fn format_size(bytes: u64) -> (r: String)
    ensures
        r@ == table_size_spec(bytes as nat),
{
    if bytes >= 1024 * 1024 {
        scaled_text(bytes, 1024 * 1024, 'M')
    } else if bytes >= 1024 {
        scaled_text(bytes, 1024, 'K')
    } else {
        let mut s = crate::text::decimal_string(bytes);
        push_char(&mut s, 'B');
        s
    }
}

/// A row of the table: the file's name, its size, and its status.
pub struct FileRow {
    pub name: String,
    pub size: String,
    pub status: String,
}

/// The size column: the size with its unit, or `?` when the file's metadata
/// could not be read.
pub open spec fn size_cell_spec(size: Option<u64>) -> Seq<char> {
    match size {
        Some(b) => table_size_spec(b as nat),
        None => seq!['?'],
    }
}

/// The row of a processed file: its name, its size cell, and `OK` painted
/// green.
pub fn file_row(name: &str, size: Option<u64>) -> (r: FileRow)
    ensures
        r.name@ == name@,
        r.size@ == size_cell_spec(size),
        painted_with(green(), seq!['O', 'K'], r.status@),
{
    let size_text = match size {
        Some(b) => format_size(b),
        None => {
            proof { reveal_strlit("?"); }
            let q = owned("?");
            assert(q@ =~= seq!['?']);
            q
        },
    };
    proof { reveal_strlit("OK"); }
    let status = paint_green("OK");
    assert("OK"@ =~= seq!['O', 'K']);
    FileRow { name: owned(name), size: size_text, status }
}

/// `comfy_table::Table`, carried through opaquely.
#[verifier::external_type_specification]
#[verifier::external_body]
pub struct ExTable(comfy_table::Table);

/// The header of a table as the texts of its cells, `None` before one is set.
pub uninterp spec fn table_header(t: comfy_table::Table) -> Option<Seq<Seq<char>>>;

/// The rows of a table, each as the texts of its cells, in the order they
/// were added.
pub uninterp spec fn table_rows(t: comfy_table::Table) -> Seq<Seq<Seq<char>>>;

/// `Table::new`: a table with no header and no rows.
#[verifier::external_body]
fn table_new() -> (t: comfy_table::Table)
    ensures
        table_header(t) is None,
        table_rows(t) == Seq::<Seq<Seq<char>>>::empty(),
{
    comfy_table::Table::new()
}

/// `Table::set_content_arrangement` with `ContentArrangement::Dynamic`: the
/// table is laid out to fit the terminal's width when printed; its header
/// and rows stay as they are.
#[verifier::external_body]
fn table_fit_to_terminal(t: &mut comfy_table::Table)
    ensures
        table_header(*final(t)) == table_header(*old(t)),
        table_rows(*final(t)) == table_rows(*old(t)),
{
    t.set_content_arrangement(comfy_table::ContentArrangement::Dynamic);
}

/// `Table::set_header`: the header becomes the given cells; the rows stay.
#[verifier::external_body]
fn table_set_header(t: &mut comfy_table::Table, cells: Vec<String>)
    ensures
        table_header(*final(t)) == Some(string_views(cells@)),
        table_rows(*final(t)) == table_rows(*old(t)),
{
    t.set_header(cells);
}

/// `Table::add_row`: a row with the given cells is added after the others;
/// the header stays.
#[verifier::external_body]
fn table_add_row(t: &mut comfy_table::Table, cells: Vec<String>)
    ensures
        table_header(*final(t)) == table_header(*old(t)),
        table_rows(*final(t)) == table_rows(*old(t)).push(string_views(cells@)),
{
    t.add_row(cells);
}

/// The header of the report: file, size, status.
pub open spec fn report_header() -> Seq<Seq<char>> {
    seq![seq!['파', '일'], seq!['크', '기'], seq!['상', '태']]
}

/// The cells of a row.
pub open spec fn row_cells(r: FileRow) -> Seq<Seq<char>> {
    seq![r.name@, r.size@, r.status@]
}

/// The report table: the header `파일`, `크기`, `상태` and one row per
/// processed file, in order, laid out to fit the terminal.
pub fn report_table(rows: &[FileRow]) -> (t: comfy_table::Table)
    ensures
        table_header(t) == Some(report_header()),
        table_rows(t) == Seq::new(rows@.len(), |i: int| row_cells(rows@[i])),
{
    let mut t = table_new();
    table_fit_to_terminal(&mut t);
    proof {
        reveal_strlit("파일");
        reveal_strlit("크기");
        reveal_strlit("상태");
    }
    let h0 = owned("파일");
    let h1 = owned("크기");
    let h2 = owned("상태");
    assert(h0@ =~= seq!['파', '일']);
    assert(h1@ =~= seq!['크', '기']);
    assert(h2@ =~= seq!['상', '태']);
    let header: Vec<String> = vec![h0, h1, h2];
    assert(string_views(header@) =~= report_header()) by {
        assert(string_views(header@)[0] == header@[0]@);
        assert(string_views(header@)[1] == header@[1]@);
        assert(string_views(header@)[2] == header@[2]@);
    }
    table_set_header(&mut t, header);
    let mut i: usize = 0;
    while i < rows.len()
        invariant
            i <= rows@.len(),
            table_header(t) == Some(report_header()),
            table_rows(t) == Seq::new(i as nat, |k: int| row_cells(rows@[k])),
        decreases rows@.len() - i,
    {
        let r = &rows[i];
        let cells: Vec<String> = vec![owned(r.name.as_str()), owned(r.size.as_str()), owned(r.status.as_str())];
        assert(string_views(cells@) =~= row_cells(rows@[i as int]));
        table_add_row(&mut t, cells);
        assert(table_rows(t) =~= Seq::new((i + 1) as nat, |k: int| row_cells(rows@[k])));
        i += 1;
    }
    t
}

/// The title line: `파일 처리 시작` painted bold green.
pub fn title_line() -> (r: String)
    ensures
        painted_with(bold_green(), seq!['파', '일', ' ', '처', '리', ' ', '시', '작'], r@),
{
    proof { reveal_strlit("파일 처리 시작"); }
    assert("파일 처리 시작"@ =~= seq!['파', '일', ' ', '처', '리', ' ', '시', '작']);
    paint_bold_green("파일 처리 시작")
}

/// The text after the check mark of the closing line.
pub open spec fn done_text(count: nat) -> Seq<char> {
    seq![' '] + decimal(count) + seq!['개', ' ', '파', '일', ' ', '처', '리', ' ', '완', '료']
}

/// The closing line: a check mark painted green, then how many files were
/// processed.
pub fn done_line(count: u64) -> (r: String)
    ensures
        exists|mark: Seq<char>| #[trigger] painted_with(green(), seq!['✓'], mark) && r@ == mark + done_text(count as nat),
{
    proof {
        reveal_strlit("✓");
        reveal_strlit("개 파일 처리 완료");
    }
    let mark = paint_green("✓");
    assert("✓"@ =~= seq!['✓']);
    let ghost m = mark@;
    let mut r = mark;
    push_char(&mut r, ' ');
    let n = decimal_string(count);
    push_str(&mut r, n.as_str());
    push_str(&mut r, "개 파일 처리 완료");
    assert(r@ =~= m + done_text(count as nat));
    r
}

} // verus!
