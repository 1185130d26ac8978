//! `tree`: what one directory level prints, which subdirectories are entered
//! and with what prefix, and the closing summary.
use vstd::prelude::*;
use crate::text::{chars_of, decimal, decimal_string, push_str, push_char};
use crate::names::{is_hidden, hidden, stable_order, stable_by_key, picked};
use crate::cut::views;

verus! {

/// A directory entry as `tree` reads it.
#[derive(Clone)]
pub struct TreeEntry {
    pub name: String,
    pub is_dir: bool,
}

/// The options of `tree`.
#[derive(Clone, Copy)]
pub struct TreeOptions {
    /// `-L`: the deepest level shown (the top level is level 1).
    pub max_depth: Option<usize>,
    /// `-d`: show directories only.
    pub dirs_only: bool,
    /// `-a`: show hidden entries.
    pub show_hidden: bool,
}

/// One printed line of a level, the entry's name, and, for a directory that
/// is entered, the prefix of the lines below it.
pub struct TreeItem {
    pub line: String,
    pub name: String,
    pub descend: Option<String>,
}

/// What one directory level prints, and the directories and files it counts
/// (not counting what is below its subdirectories).
pub struct TreeLevel {
    pub items: Vec<TreeItem>,
    pub dirs: usize,
    pub files: usize,
}

pub open spec fn entry_view(e: TreeEntry) -> (Seq<char>, bool) {
    (e.name@, e.is_dir)
}

pub open spec fn entry_views(v: Seq<TreeEntry>) -> Seq<(Seq<char>, bool)> {
    Seq::new(v.len(), |i: int| entry_view(v[i]))
}

pub open spec fn entry_names(v: Seq<(Seq<char>, bool)>) -> Seq<Seq<char>> {
    Seq::new(v.len(), |i: int| v[i].0)
}

/// The entries that are not hidden, in their order.
pub open spec fn visible_entries(v: Seq<(Seq<char>, bool)>) -> Seq<(Seq<char>, bool)>
    decreases v.len(),
{
    if v.len() == 0 {
        v
    } else {
        let rest = visible_entries(v.drop_last());
        if is_hidden(v.last().0) { rest } else { rest.push(v.last()) }
    }
}

pub open spec fn shown_entries(v: Seq<(Seq<char>, bool)>, show_hidden: bool) -> Seq<(Seq<char>, bool)> {
    if show_hidden { v } else { visible_entries(v) }
}

/// `└── ` for the last entry of a level, `├── ` otherwise.
pub open spec fn connector(is_last: bool) -> Seq<char> {
    if is_last { seq!['└', '─', '─', ' '] } else { seq!['├', '─', '─', ' '] }
}

/// What goes in front of the lines below an entry: blank under the last
/// entry, a vertical bar otherwise.
pub open spec fn branch(is_last: bool) -> Seq<char> {
    if is_last { seq![' ', ' ', ' ', ' '] } else { seq!['│', ' ', ' ', ' '] }
}

/// A directory at `depth` is entered unless `-L` is reached.
pub open spec fn enters(depth: nat, o: TreeOptions) -> bool {
    match o.max_depth {
        Some(m) => depth + 1 < m,
        None => true,
    }
}

/// What the entry at position `i` of the `n` sorted entries prints, as
/// `(line, name, prefix below it)`; nothing for a file under `-d`.
pub open spec fn item_of(e: (Seq<char>, bool), i: nat, n: nat, prefix: Seq<char>, depth: nat, o: TreeOptions)
    -> Option<(Seq<char>, Seq<char>, Option<Seq<char>>)>
{
    let is_last = i + 1 == n;
    if o.dirs_only && !e.1 {
        None
    } else {
        Some((
            prefix + connector(is_last) + e.0,
            e.0,
            if e.1 && enters(depth, o) { Some(prefix + branch(is_last)) } else { None },
        ))
    }
}

/// The items of the first `k` of the sorted entries.
pub open spec fn items_upto(sorted: Seq<(Seq<char>, bool)>, prefix: Seq<char>, depth: nat, o: TreeOptions, k: nat)
    -> Seq<(Seq<char>, Seq<char>, Option<Seq<char>>)>
    decreases k,
{
    if k == 0 {
        Seq::empty()
    } else {
        let j = (k - 1) as nat;
        let rest = items_upto(sorted, prefix, depth, o, j);
        match item_of(sorted[j as int], j, sorted.len(), prefix, depth, o) {
            Some(it) => rest.push(it),
            None => rest,
        }
    }
}

/// How many of the entries are directories (`want_dirs`) or files.
pub open spec fn count_kind(v: Seq<(Seq<char>, bool)>, want_dirs: bool) -> nat
    decreases v.len(),
{
    if v.len() == 0 {
        0
    } else {
        count_kind(v.drop_last(), want_dirs) + if v.last().1 == want_dirs { 1nat } else { 0nat }
    }
}

pub open spec fn option_view(p: Option<String>) -> Option<Seq<char>> {
    match p {
        Some(s) => Some(s@),
        None => None,
    }
}

pub open spec fn item_views(v: Seq<TreeItem>) -> Seq<(Seq<char>, Seq<char>, Option<Seq<char>>)> {
    Seq::new(v.len(), |i: int| (v[i].line@, v[i].name@, option_view(v[i].descend)))
}

/// `r` is what one level prints for the entries of a directory read at
/// `depth` (0 for the top directory): the entries shown (hidden ones only
/// with `-a`) sorted stably by name, each as `prefix`, a connector and its
/// name, the last one with `└── `; files left out under `-d`; subdirectories
/// entered while `-L` allows, with the prefix extended; every shown directory
/// counted, and every shown file unless `-d`.
pub open spec fn level_ok(entries: Seq<(Seq<char>, bool)>, prefix: Seq<char>, depth: nat, o: TreeOptions, r: TreeLevel) -> bool {
    let shown = shown_entries(entries, o.show_hidden);
    exists|order: Seq<usize>| {
        &&& #[trigger] stable_by_key(entry_names(shown), order)
        &&& item_views(r.items@) == items_upto(picked(shown, order), prefix, depth, o, picked(shown, order).len())
        &&& r.dirs == count_kind(picked(shown, order), true)
        &&& r.files == (if o.dirs_only { 0 } else { count_kind(picked(shown, order), false) })
    }
}

fn shown_tree_entries(entries: &[TreeEntry], show_hidden: bool) -> (r: Vec<TreeEntry>)
    ensures
        entry_views(r@) == shown_entries(entry_views(entries@), show_hidden),
{
    let ghost ev = entry_views(entries@);
    let mut r: Vec<TreeEntry> = Vec::new();
    let mut i: usize = 0;
    assert(ev.take(0) =~= Seq::<(Seq<char>, bool)>::empty());
    while i < entries.len()
        invariant
            i <= entries@.len(),
            ev == entry_views(entries@),
            entry_views(r@) == shown_entries(ev.take(i as int), show_hidden),
        decreases entries@.len() - i,
    {
        let ghost pre = r@;
        assert(ev.take(i + 1).drop_last() =~= ev.take(i as int));
        assert(ev.take(i + 1).last() == entry_view(entries@[i as int]));
        if show_hidden || !hidden(entries[i].name.as_str()) {
            let e = TreeEntry { name: entries[i].name.clone(), is_dir: entries[i].is_dir };
            r.push(e);
            assert(entry_views(r@) =~= entry_views(pre).push(entry_view(entries@[i as int])));
        }
        assert(entry_views(r@) =~= shown_entries(ev.take(i + 1), show_hidden));
        i += 1;
    }
    assert(ev.take(entries@.len() as int) =~= ev);
    r
}

fn connector_text(is_last: bool) -> (r: String)
    ensures
        r@ == connector(is_last),
{
    let mut r = String::new();
    if is_last {
        push_char(&mut r, '└');
    } else {
        push_char(&mut r, '├');
    }
    push_char(&mut r, '─');
    push_char(&mut r, '─');
    push_char(&mut r, ' ');
    assert(r@ =~= connector(is_last));
    r
}

fn branch_text(is_last: bool) -> (r: String)
    ensures
        r@ == branch(is_last),
{
    let mut r = String::new();
    if is_last {
        push_char(&mut r, ' ');
    } else {
        push_char(&mut r, '│');
    }
    push_char(&mut r, ' ');
    push_char(&mut r, ' ');
    push_char(&mut r, ' ');
    assert(r@ =~= branch(is_last));
    r
}

/// One level of `tree` for the entries read from a directory at `depth`.
pub fn plan_level(entries: &[TreeEntry], prefix: &str, depth: usize, o: TreeOptions) -> (r: TreeLevel)
    requires
        depth < usize::MAX,
    ensures
        level_ok(entry_views(entries@), prefix@, depth as nat, o, r),
{
    let shown = shown_tree_entries(entries, o.show_hidden);
    let ghost sv = entry_views(shown@);
    let mut keys: Vec<Vec<char>> = Vec::new();
    let mut i: usize = 0;
    while i < shown.len()
        invariant
            i <= shown@.len(),
            keys@.len() == i,
            forall|k: int| 0 <= k < i ==> #[trigger] keys@[k]@ == shown@[k].name@,
        decreases shown@.len() - i,
    {
        keys.push(chars_of(shown[i].name.as_str()));
        i += 1;
    }
    assert(views(keys@) =~= entry_names(sv));
    let order = stable_order(keys);
    let n = order.len();
    let ghost sorted = picked(sv, order@);
    let mut items: Vec<TreeItem> = Vec::new();
    let mut dirs: usize = 0;
    let mut files: usize = 0;
    let mut j: usize = 0;
    while j < n
        invariant
            n == order@.len(),
            n == shown@.len(),
            sv == entry_views(shown@),
            sorted == picked(sv, order@),
            depth < usize::MAX,
            forall|k: int| 0 <= k < n ==> #[trigger] order@[k] < n,
            j <= n,
            item_views(items@) == items_upto(sorted, prefix@, depth as nat, o, j as nat),
            dirs == count_kind(sorted.take(j as int), true),
            files == count_kind(sorted.take(j as int), false),
            dirs + files == j,
        decreases n - j,
    {
        let e = &shown[order[j]];
        assert(sorted[j as int] == entry_view(*e));
        let is_last = j + 1 == n;
        assert(sorted.take(j + 1).drop_last() =~= sorted.take(j as int));
        if e.is_dir {
            dirs = dirs + 1;
        } else {
            files = files + 1;
        }
        if !(o.dirs_only && !e.is_dir) {
            let mut line = String::new();
            push_str(&mut line, prefix);
            let c = connector_text(is_last);
            push_str(&mut line, c.as_str());
            push_str(&mut line, e.name.as_str());
            let enter = match o.max_depth {
                Some(m) => depth + 1 < m,
                None => true,
            };
            let descend = if e.is_dir && enter {
                let mut p = String::new();
                push_str(&mut p, prefix);
                let b = branch_text(is_last);
                push_str(&mut p, b.as_str());
                Some(p)
            } else {
                None
            };
            let ghost pre = items@;
            let item = TreeItem { line, name: e.name.clone(), descend };
            items.push(item);
            assert(item_views(items@) =~= item_views(pre).push(
                item_of(sorted[j as int], j as nat, n as nat, prefix@, depth as nat, o).unwrap()));
        }
        j = j + 1;
    }
    assert(sorted.take(n as int) =~= sorted);
    let r = TreeLevel { items, dirs, files: if o.dirs_only { 0 } else { files } };
    assert(stable_by_key(entry_names(sv), order@));
    r
}

/// The directories and files counted under a directory, its subdirectories
/// included.
#[derive(Clone, Copy)]
pub struct TreeTotals {
    pub dirs: usize,
    pub files: usize,
}

/// How many items of a level enter a subdirectory.
pub open spec fn entered_count(items: Seq<TreeItem>) -> nat
    decreases items.len(),
{
    if items.len() == 0 {
        0
    } else {
        entered_count(items.drop_last()) + if items.last().descend is Some { 1nat } else { 0nat }
    }
}

/// The directories counted by a list of subtree totals.
pub open spec fn sum_dirs(subs: Seq<TreeTotals>) -> nat
    decreases subs.len(),
{
    if subs.len() == 0 { 0 } else { sum_dirs(subs.drop_last()) + subs.last().dirs as nat }
}

/// The files counted by a list of subtree totals.
pub open spec fn sum_files(subs: Seq<TreeTotals>) -> nat
    decreases subs.len(),
{
    if subs.len() == 0 { 0 } else { sum_files(subs.drop_last()) + subs.last().files as nat }
}

/// A directory's totals: the counts of its own level plus the totals of the
/// subdirectories it enters, given in the order of the level's entering
/// items. `None` when a total does not fit in `usize`.
pub fn level_totals(level: &TreeLevel, subs: &[TreeTotals]) -> (t: Option<TreeTotals>)
    requires
        subs@.len() == entered_count(level.items@),
    ensures
        t is None <==> (level.dirs + sum_dirs(subs@) > usize::MAX || level.files + sum_files(subs@) > usize::MAX),
        t matches Some(tt) ==> tt.dirs == level.dirs + sum_dirs(subs@) && tt.files == level.files + sum_files(subs@),
{
    let mut dirs: u128 = level.dirs as u128;
    let mut files: u128 = level.files as u128;
    let mut i: usize = 0;
    assert(subs@.take(0) =~= Seq::<TreeTotals>::empty());
    while i < subs.len()
        invariant
            i <= subs@.len(),
            dirs == level.dirs + sum_dirs(subs@.take(i as int)),
            files == level.files + sum_files(subs@.take(i as int)),
            sum_dirs(subs@.take(i as int)) <= i * 0xffff_ffff_ffff_ffff,
            sum_files(subs@.take(i as int)) <= i * 0xffff_ffff_ffff_ffff,
        decreases subs@.len() - i,
    {
        assert(subs@.take(i + 1).drop_last() =~= subs@.take(i as int));
        assert(subs@.take(i + 1).last() == subs@[i as int]);
        assert(i < 0xffff_ffff_ffff_ffff);
        assert((i + 1) * 0xffff_ffff_ffff_ffff <= 0xffff_ffff_ffff_ffff_ffff_ffff_ffff_ffff) by (nonlinear_arith)
            requires
                i < 0xffff_ffff_ffff_ffff;
        assert(i * 0xffff_ffff_ffff_ffff + 0xffff_ffff_ffff_ffff == (i + 1) * 0xffff_ffff_ffff_ffff) by (nonlinear_arith);
        dirs = dirs + subs[i].dirs as u128;
        files = files + subs[i].files as u128;
        i += 1;
    }
    assert(subs@.take(subs@.len() as int) =~= subs@);
    if dirs > usize::MAX as u128 || files > usize::MAX as u128 {
        None
    } else {
        Some(TreeTotals { dirs: dirs as usize, files: files as usize })
    }
}

/// The closing line: `N directory...`, `M file...` (`directory` takes `y`
/// for one and `ies` otherwise, `file` takes `s` unless one).
pub open spec fn summary_spec(dirs: nat, files: nat) -> Seq<char> {
    decimal(dirs) + seq![' ', 'd', 'i', 'r', 'e', 'c', 't', 'o', 'r', 'y']
        + (if dirs != 1 { seq!['i', 'e', 's'] } else { seq!['y'] })
        + seq![',', ' '] + decimal(files) + seq![' ', 'f', 'i', 'l', 'e']
        + (if files != 1 { seq!['s'] } else { Seq::empty() })
}

pub fn tree_summary(dirs: u64, files: u64) -> (r: String)
    ensures
        r@ == summary_spec(dirs as nat, files as nat),
{
    proof { reveal_strlit(" directory"); reveal_strlit(", "); reveal_strlit(" file"); reveal_strlit("ies"); }
    let mut r = decimal_string(dirs);
    push_str(&mut r, " directory");
    if dirs != 1 {
        push_str(&mut r, "ies");
    } else {
        push_char(&mut r, 'y');
    }
    push_str(&mut r, ", ");
    let f = decimal_string(files);
    push_str(&mut r, f.as_str());
    push_str(&mut r, " file");
    if files != 1 {
        push_char(&mut r, 's');
    }
    assert(r@ =~= summary_spec(dirs as nat, files as nat));
    r
}

/// Every entry is counted once, as a directory or as a file.
pub proof fn lemma_counts_cover(v: Seq<(Seq<char>, bool)>)
    ensures
        count_kind(v, true) + count_kind(v, false) == v.len(),
    decreases v.len(),
{
    if v.len() > 0 {
        lemma_counts_cover(v.drop_last());
    }
}

} // verus!
