//! `du`: what a path counts for, the order children are visited in, how a
//! size is written, which child lines are printed, and the running total of a
//! directory.
use vstd::prelude::*;
use crate::text::{decimal, decimal_string, push_str, push_char};
use crate::sizes::{scaled, kib, mib, gib, tib, scaled_text};
use crate::names::{stable_by_key, stable_order, name_keys};
use crate::escape::string_views;

verus! {

/// The options of `du` that shape its output.
#[derive(Clone, Copy)]
pub struct DuOptions {
    /// `-h`: sizes with a unit.
    pub human_readable: bool,
    /// `-s`: only the total of each argument.
    pub summarize: bool,
    /// `-d`: the deepest level whose lines are printed.
    pub max_depth: Option<usize>,
}

/// What the metadata of a path says it is.
#[derive(Clone, Copy, PartialEq, Eq, Structural)]
pub enum DuKind {
    File,
    Dir,
    /// Neither (a symbolic link when links are not followed, a device, ...).
    Other,
}

/// What a path that is not a directory counts for: a file its length,
/// anything else nothing.
pub open spec fn leaf_size_spec(kind: DuKind, len: nat) -> nat {
    if kind == DuKind::File { len } else { 0 }
}

pub fn leaf_size(kind: DuKind, len: u64) -> (r: u64)
    requires
        kind != DuKind::Dir,
    ensures
        r == leaf_size_spec(kind, len as nat),
{
    match kind {
        DuKind::File => len,
        _ => 0,
    }
}

/// What `du` prints as a size: the byte count, or with `-h` one decimal and
/// `T`, `G`, `M` or `K` from 1 KiB up, and the byte count with `B` below.
pub open spec fn du_size_spec(size: nat, human_readable: bool) -> Seq<char> {
    if !human_readable {
        decimal(size)
    } else if size >= tib() {
        scaled(size, tib(), 'T')
    } else if size >= gib() {
        scaled(size, gib(), 'G')
    } else if size >= mib() {
        scaled(size, mib(), 'M')
    } else if size >= kib() {
        scaled(size, kib(), 'K')
    } else {
        decimal(size).push('B')
    }
}

/// `format_size` of `du`.
pub fn format_size(bytes: u64, human_readable: bool) -> (r: String)
    ensures
        r@ == du_size_spec(bytes as nat, human_readable),
{
    if !human_readable {
        return crate::text::decimal_string(bytes);
    }
    if bytes >= 1024 * 1024 * 1024 * 1024 {
        scaled_text(bytes, 1024 * 1024 * 1024 * 1024, 'T')
    } else if bytes >= 1024 * 1024 * 1024 {
        scaled_text(bytes, 1024 * 1024 * 1024, 'G')
    } else if bytes >= 1024 * 1024 {
        scaled_text(bytes, 1024 * 1024, 'M')
    } else if bytes >= 1024 {
        scaled_text(bytes, 1024, 'K')
    } else {
        let mut s = crate::text::decimal_string(bytes);
        push_char(&mut s, 'B');
        s
    }
}

/// Whether the line of a child of a directory at `depth` is printed: never
/// under `-s`, and under `-d` only while the child's level is within it.
pub open spec fn shows_child(depth: nat, o: DuOptions) -> bool {
    !o.summarize && match o.max_depth {
        Some(m) => depth + 1 <= m,
        None => true,
    }
}

pub fn show_child(depth: usize, o: DuOptions) -> (b: bool)
    ensures
        b == shows_child(depth as nat, o),
{
    if o.summarize {
        return false;
    }
    match o.max_depth {
        Some(m) => depth < m,
        None => true,
    }
}

/// A line of `du`: the size, a tab, and the path.
pub open spec fn du_line_spec(size: nat, human_readable: bool, path: Seq<char>) -> Seq<char> {
    du_size_spec(size, human_readable) + seq!['\t'] + path
}

pub fn du_line(size: u64, human_readable: bool, path: &str) -> (r: String)
    ensures
        r@ == du_line_spec(size as nat, human_readable, path@),
{
    let mut r = format_size(size, human_readable);
    push_char(&mut r, '\t');
    push_str(&mut r, path);
    r
}

/// The order `du` visits the children of a directory in: the indices of
/// their names, sorted stably by name.
pub fn visit_order(names: &[String]) -> (r: Vec<usize>)
    ensures
        stable_by_key(string_views(names@), r@),
        r@.len() == names@.len(),
        forall|i: int| 0 <= i < r@.len() ==> #[trigger] r@[i] < names@.len(),
{
    let keys = name_keys(names);
    stable_order(keys)
}

/// A directory being measured: its depth and the sizes of the children
/// measured so far.
pub struct DuDir {
    pub depth: usize,
    pub total: u64,
}

impl DuDir {
    /// A directory at `depth` with nothing measured yet.
    pub fn new(depth: usize) -> (d: DuDir)
        ensures
            d.depth == depth,
            d.total == 0,
    {
        DuDir { depth, total: 0 }
    }

    /// A child's subtree, at `path`, measured `size`: it is added to the
    /// total, and its line is returned when it is printed.
    pub fn child_done(&mut self, size: u64, path: &str, o: DuOptions) -> (line: Option<String>)
        requires
            old(self).total + size <= u64::MAX,
        ensures
            final(self).depth == old(self).depth,
            final(self).total == old(self).total + size,
            shows_child(old(self).depth as nat, o) ==> (line matches Some(l)
                && l@ == du_line_spec(size as nat, o.human_readable, path@)),
            !shows_child(old(self).depth as nat, o) ==> line is None,
    {
        let line = if show_child(self.depth, o) {
            Some(du_line(size, o.human_readable, path))
        } else {
            None
        };
        self.total = self.total + size;
        line
    }
}

} // verus!
