//! Line-oriented steps of `cat`, `head` and `tail`.
use vstd::prelude::*;
use std::collections::VecDeque;
use crate::text::{decimal, decimal_chars, string_of, push_char, push_str};

verus! {

/// `s` right-aligned in a field of `width` characters (spaces on the left);
/// longer text is not cut.
pub open spec fn pad_left(s: Seq<char>, width: nat) -> Seq<char> {
    if s.len() < width {
        Seq::new((width - s.len()) as nat, |i: int| ' ') + s
    } else {
        s
    }
}

/// A numbered line as `cat -n` prints it (`{:6}\t{}`).
pub open spec fn numbered(n: nat, line: Seq<char>) -> Seq<char> {
    pad_left(decimal(n), 6) + seq!['\t'] + line
}

/// The flags of `cat`.
#[derive(Clone, Copy)]
pub struct CatFlags {
    pub number: bool,
    pub number_nonblank: bool,
    pub squeeze_blank: bool,
}

/// Whether a line gets a number.
pub open spec fn gets_number(f: CatFlags, line: Seq<char>) -> bool {
    if f.number_nonblank { line.len() > 0 } else { f.number }
}

/// One step of `cat` on a line, from the next line number and whether the last
/// line kept was blank (under `-s`): the new state and what is printed, if
/// anything. Under `-s` a blank line after a blank line is dropped.
pub open spec fn cat_next(f: CatFlags, n: nat, prev_blank: bool, line: Seq<char>) -> (nat, bool, Option<Seq<char>>) {
    if f.squeeze_blank && line.len() == 0 && prev_blank {
        (n, prev_blank, None)
    } else {
        let pb = f.squeeze_blank && line.len() == 0;
        if gets_number(f, line) {
            (n + 1, pb, Some(numbered(n, line)))
        } else {
            (n, pb, Some(line))
        }
    }
}

/// The state of `cat` after the given lines.
pub open spec fn cat_state(f: CatFlags, lines: Seq<Seq<char>>) -> (nat, bool)
    decreases lines.len(),
{
    if lines.len() == 0 {
        (1, false)
    } else {
        let (n, pb) = cat_state(f, lines.drop_last());
        let r = cat_next(f, n, pb, lines.last());
        (r.0, r.1)
    }
}

/// What `cat` prints for the given lines, one entry per printed line.
pub open spec fn cat_out(f: CatFlags, lines: Seq<Seq<char>>) -> Seq<Seq<char>>
    decreases lines.len(),
{
    if lines.len() == 0 {
        Seq::empty()
    } else {
        let prev = cat_out(f, lines.drop_last());
        let (n, pb) = cat_state(f, lines.drop_last());
        match cat_next(f, n, pb, lines.last()).2 {
            Some(x) => prev.push(x),
            None => prev,
        }
    }
}

/// The streaming state of `cat` over one input.
pub struct CatState {
    pub flags: CatFlags,
    pub line_number: u32,
    pub prev_blank: bool,
}

/// Renders a line number and a line as `{:6}\t{}`.
pub fn format_numbered(n: u32, line: &str) -> (r: String)
    ensures
        r@ == numbered(n as nat, line@),
{
    let digits = decimal_chars(n as u64);
    let mut out = String::new();
    let mut k: usize = digits.len();
    while k < 6
        invariant
            digits.len() <= k,
            k <= 6 || k == digits.len(),
            out@ == Seq::new((k - digits.len()) as nat, |i: int| ' '),
        decreases 6 - k,
    {
        push_char(&mut out, ' ');
        assert(out@ =~= Seq::new((k + 1 - digits.len()) as nat, |i: int| ' '));
        k += 1;
    }
    let ds = string_of(digits.as_slice());
    push_str(&mut out, ds.as_str());
    push_char(&mut out, '\t');
    push_str(&mut out, line);
    proof {
        if digits@.len() < 6 {
            assert(out@ =~= numbered(n as nat, line@));
        } else {
            assert(out@ =~= numbered(n as nat, line@));
        }
    }
    out
}

/// Whether a line gets a number at this point: it is not dropped by `-s`, and
/// the flags number it.
pub open spec fn numbers_next(f: CatFlags, prev_blank: bool, line: Seq<char>) -> bool {
    !(f.squeeze_blank && line.len() == 0 && prev_blank) && gets_number(f, line)
}

impl CatState {
    /// Whether the next line, `line`, would be printed with a number (the
    /// number `self.line_number`, after which the count goes up by one).
    pub fn numbers(&self, line: &str) -> (b: bool)
        ensures
            b == numbers_next(self.flags, self.prev_blank, line@),
    {
        let empty = line.is_empty();
        if self.flags.squeeze_blank && empty && self.prev_blank {
            return false;
        }
        if self.flags.number_nonblank { !empty } else { self.flags.number }
    }

    /// The state at the start of an input: numbering from 1, no blank line seen.
    pub fn new(flags: CatFlags) -> (s: Self)
        ensures
            s.flags == flags,
            s.line_number == 1,
            !s.prev_blank,
    {
        CatState { flags, line_number: 1, prev_blank: false }
    }

    /// One line through `cat`: what is printed for it, if anything. A line
    /// that would take the number `i32::MAX` is not allowed, since counting
    /// past it overflows.
    pub fn step(&mut self, line: &str) -> (r: Option<String>)
        requires
            numbers_next(old(self).flags, old(self).prev_blank, line@) ==> old(self).line_number < 0x7fff_ffff,
        ensures
            ({
                let (n, pb, out) = cat_next(old(self).flags, old(self).line_number as nat, old(self).prev_blank, line@);
                &&& final(self).flags == old(self).flags
                &&& final(self).line_number == n
                &&& final(self).prev_blank == pb
                &&& match r {
                    Some(s) => out == Some(s@),
                    None => out is None,
                }
            }),
    {
        let empty = line.is_empty();
        if self.flags.squeeze_blank && empty && self.prev_blank {
            return None;
        }
        self.prev_blank = self.flags.squeeze_blank && empty;
        let numbered_line = if self.flags.number_nonblank { !empty } else { self.flags.number };
        if numbered_line {
            let out = format_numbered(self.line_number, line);
            self.line_number = self.line_number + 1;
            Some(out)
        } else {
            Some(crate::text::owned(line))
        }
    }
}

proof fn lemma_cat_state_grows(f: CatFlags, lines: Seq<Seq<char>>, k: int)
    requires
        0 <= k <= lines.len(),
    ensures
        cat_state(f, lines.take(k)).0 <= cat_state(f, lines).0,
        cat_state(f, lines).0 >= 1,
    decreases lines.len(),
{
    if lines.len() > 0 {
        if k < lines.len() {
            assert(lines.drop_last().take(k) =~= lines.take(k));
            lemma_cat_state_grows(f, lines.drop_last(), k);
        } else {
            assert(lines.take(k) =~= lines);
            lemma_cat_state_grows(f, lines.drop_last(), 0);
        }
    }
}

/// `cat_lines`: what `cat` prints for the lines of one input, one entry per
/// printed line. No line may take the number `i32::MAX`, since counting past
/// it overflows.
pub fn cat_lines(lines: &[String], flags: CatFlags) -> (r: Vec<String>)
    requires
        cat_state(flags, crate::escape::string_views(lines@)).0 <= 0x7fff_ffff,
    ensures
        crate::escape::string_views(r@) == cat_out(flags, crate::escape::string_views(lines@)),
{
    let ghost all = crate::escape::string_views(lines@);
    let mut st = CatState::new(flags);
    let mut out: Vec<String> = Vec::new();
    let mut i: usize = 0;
    assert(all.take(0) =~= Seq::<Seq<char>>::empty());
    assert(crate::escape::string_views(out@) =~= Seq::<Seq<char>>::empty());
    while i < lines.len()
        invariant
            i <= lines@.len(),
            all == crate::escape::string_views(lines@),
            cat_state(flags, all).0 <= 0x7fff_ffff,
            st.flags == flags,
            (st.line_number as nat, st.prev_blank) == cat_state(flags, all.take(i as int)),
            crate::escape::string_views(out@) == cat_out(flags, all.take(i as int)),
        decreases lines@.len() - i,
    {
        let ghost pre = all.take(i as int);
        let ghost next = all.take(i + 1);
        assert(next.drop_last() =~= pre);
        assert(next.last() == lines@[i as int]@);
        proof {
            lemma_cat_state_grows(flags, all, i + 1);
        }
        let ghost old_out = out@;
        match st.step(lines[i].as_str()) {
            Some(s) => {
                out.push(s);
                assert(crate::escape::string_views(out@) =~= crate::escape::string_views(old_out).push(out@.last()@));
            },
            None => {},
        }
        i += 1;
    }
    assert(all.take(lines@.len() as int) =~= all);
    out
}

/// With `-s` and no numbering, a blank line is never printed right after
/// another blank line.
pub proof fn lemma_squeeze_no_adjacent_blanks(f: CatFlags, lines: Seq<Seq<char>>)
    requires
        f.squeeze_blank,
        !f.number,
        !f.number_nonblank,
    ensures
        forall|i: int| 0 <= i < cat_out(f, lines).len() - 1 ==>
            !(cat_out(f, lines)[i].len() == 0 && #[trigger] cat_out(f, lines)[i + 1].len() == 0),
        cat_state(f, lines).1 == (cat_out(f, lines).len() > 0 && cat_out(f, lines).last().len() == 0),
    decreases lines.len(),
{
    if lines.len() > 0 {
        lemma_squeeze_no_adjacent_blanks(f, lines.drop_last());
        let prev = cat_out(f, lines.drop_last());
        let out = cat_out(f, lines);
        assert forall|i: int| 0 <= i < out.len() - 1 implies
            !(out[i].len() == 0 && #[trigger] out[i + 1].len() == 0) by {
            if i + 1 < prev.len() {
                assert(out[i] == prev[i] && out[i + 1] == prev[i + 1]);
            }
        }
    }
}

/// `head_lines`: the first `n` lines.
pub fn head_lines(lines: &[String], n: usize) -> (r: Vec<String>)
    ensures
        r@ == (if n < lines@.len() { lines@.take(n as int) } else { lines@ }),
{
    let mut r: Vec<String> = Vec::new();
    let mut i: usize = 0;
    while i < lines.len() && i < n
        invariant
            i <= lines@.len(),
            i <= n,
            r@ == lines@.take(i as int),
        decreases lines@.len() - i,
    {
        r.push(lines[i].clone());
        assert(r@ =~= lines@.take(i + 1));
        i += 1;
    }
    if n >= lines.len() {
        assert(lines@.take(lines@.len() as int) =~= lines@);
    }
    r
}

/// Counts the lines `head` lets through.
pub struct HeadCounter {
    pub limit: usize,
    pub seen: usize,
}

impl HeadCounter {
    pub fn new(limit: usize) -> (c: Self)
        ensures
            c.limit == limit,
            c.seen == 0,
    {
        HeadCounter { limit, seen: 0 }
    }

    /// Called once per line read, in order: whether that line is printed
    /// (the lines before the `limit`-th are, the rest are not).
    pub fn admits(&mut self) -> (b: bool)
        ensures
            b == (old(self).seen < old(self).limit),
            final(self).limit == old(self).limit,
            final(self).seen == if b { old(self).seen + 1 } else { old(self).seen as int },
    {
        if self.seen < self.limit {
            self.seen = self.seen + 1;
            true
        } else {
            false
        }
    }
}

/// What `tail` keeps of `lines` with a window of `n`: the last `n` lines
/// (none for `n` = 0, all of them when there are fewer).
pub open spec fn tail_spec(lines: Seq<String>, n: nat) -> Seq<String> {
    if lines.len() <= n {
        lines
    } else {
        lines.skip(lines.len() - n)
    }
}

/// The sliding window of `tail`: the last lines seen.
pub struct TailBuffer {
    pub limit: usize,
    pub buf: VecDeque<String>,
}

impl TailBuffer {
    pub open spec fn contents(&self) -> Seq<String> {
        self.buf@
    }

    pub fn new(limit: usize) -> (t: Self)
        ensures
            t.limit == limit,
            t.contents() == Seq::<String>::empty(),
    {
        TailBuffer { limit, buf: VecDeque::with_capacity(limit) }
    }

    /// Adds a line: when the window is full the oldest line leaves first; a
    /// window of size 0 keeps nothing.
    pub fn push(&mut self, line: String)
        ensures
            final(self).limit == old(self).limit,
            final(self).contents() == if old(self).limit == 0 {
                old(self).contents()
            } else if old(self).contents().len() == old(self).limit as nat {
                old(self).contents().drop_first().push(line)
            } else {
                old(self).contents().push(line)
            },
    {
        if self.limit == 0 {
            return;
        }
        if self.buf.len() == self.limit {
            let _ = self.buf.pop_front();
        }
        self.buf.push_back(line);
    }

    /// The lines in the window, oldest first.
    pub fn lines(&self) -> (r: Vec<String>)
        ensures
            r@ == self.contents(),
    {
        let mut r: Vec<String> = Vec::new();
        let mut i: usize = 0;
        while i < self.buf.len()
            invariant
                i <= self.buf@.len(),
                r@ == self.buf@.take(i as int),
            decreases self.buf@.len() - i,
        {
            r.push(self.buf[i].clone());
            assert(r@ =~= self.buf@.take(i + 1));
            i += 1;
        }
        assert(self.buf@.take(self.buf@.len() as int) =~= self.buf@);
        r
    }
}

/// `tail_lines`: the lines `tail` prints for an input.
pub fn tail_lines(lines: &[String], n: usize) -> (r: Vec<String>)
    ensures
        r@ == tail_spec(lines@, n as nat),
{
    let mut t = TailBuffer::new(n);
    let mut i: usize = 0;
    assert(lines@.take(0) =~= Seq::<String>::empty());
    while i < lines.len()
        invariant
            i <= lines@.len(),
            t.limit == n,
            t.contents() == tail_spec(lines@.take(i as int), n as nat),
        decreases lines@.len() - i,
    {
        let ghost pre = lines@.take(i as int);
        let ghost next = lines@.take(i + 1);
        assert(next =~= pre.push(lines@[i as int]));
        t.push(lines[i].clone());
        proof {
            if n == 0 {
                assert(pre.skip(pre.len() - n) =~= Seq::<String>::empty());
                assert(next.skip(next.len() - n) =~= Seq::<String>::empty());
            } else if pre.len() < n {
                if next.len() <= n {
                } else {
                    assert(next.skip(next.len() - n) =~= next);
                }
            } else {
                assert(pre.skip(pre.len() - n).drop_first().push(lines@[i as int]) =~= next.skip(next.len() - n));
            }
        }
        i += 1;
    }
    assert(lines@.take(lines@.len() as int) =~= lines@);
    t.lines()
}

/// `tail -c`: where the last `n` bytes of a file of `file_size` bytes start.
pub fn tail_start(file_size: u64, n: usize) -> (r: u64)
    ensures
        r == (if file_size > n { file_size - n } else { 0 }),
{
    let m = n as u64;
    if file_size > m {
        file_size - m
    } else {
        0
    }
}

/// What `head` and `tail` print before the `index`-th (from 0) of `count`
/// files: nothing for a single file; otherwise the header `==> name <==`,
/// after an empty line for every file but the first.
pub open spec fn banner_spec(index: nat, count: nat, name: Seq<char>) -> Seq<Seq<char>> {
    let header = seq!['=', '=', '>', ' '] + name + seq![' ', '<', '=', '='];
    if count <= 1 {
        Seq::empty()
    } else if index > 0 {
        seq![Seq::empty(), header]
    } else {
        seq![header]
    }
}

pub fn file_banner(index: usize, count: usize, name: &str) -> (r: Vec<String>)
    ensures
        crate::escape::string_views(r@) == banner_spec(index as nat, count as nat, name@),
{
    let mut r: Vec<String> = Vec::new();
    if count <= 1 {
        assert(crate::escape::string_views(r@) =~= banner_spec(index as nat, count as nat, name@));
        return r;
    }
    if index > 0 {
        r.push(String::new());
    }
    proof {
        reveal_strlit("==> ");
        reveal_strlit(" <==");
    }
    let mut h = crate::text::owned("==> ");
    crate::text::push_str(&mut h, name);
    crate::text::push_str(&mut h, " <==");
    assert(h@ =~= seq!['=', '=', '>', ' '] + name@ + seq![' ', '<', '=', '=']);
    r.push(h);
    proof {
        let sv = crate::escape::string_views(r@);
        if index > 0 {
            assert(sv[0] == r@[0]@);
            assert(sv[1] == r@[1]@);
            assert(sv[0] =~= Seq::<char>::empty());
        } else {
            assert(sv[0] == r@[0]@);
        }
    }
    assert(crate::escape::string_views(r@) =~= banner_spec(index as nat, count as nat, name@));
    r
}

/// Without flags `cat` prints every line as it is.
pub proof fn lemma_cat_plain_is_identity(f: CatFlags, lines: Seq<Seq<char>>)
    requires
        !f.number,
        !f.number_nonblank,
        !f.squeeze_blank,
    ensures
        cat_out(f, lines) == lines,
    decreases lines.len(),
{
    if lines.len() > 0 {
        lemma_cat_plain_is_identity(f, lines.drop_last());
        assert(lines.drop_last().push(lines.last()) =~= lines);
    }
}

/// With `-n` alone every line is printed, the `i`-th (from 0) with the
/// number `i + 1`.
pub proof fn lemma_cat_numbers_consecutive(f: CatFlags, lines: Seq<Seq<char>>)
    requires
        f.number,
        !f.number_nonblank,
        !f.squeeze_blank,
    ensures
        cat_out(f, lines).len() == lines.len(),
        cat_state(f, lines).0 == lines.len() + 1,
        forall|i: int| 0 <= i < lines.len() ==> #[trigger] cat_out(f, lines)[i] == numbered((i + 1) as nat, lines[i]),
    decreases lines.len(),
{
    if lines.len() > 0 {
        let init = lines.drop_last();
        lemma_cat_numbers_consecutive(f, init);
        assert forall|i: int| 0 <= i < lines.len() implies #[trigger] cat_out(f, lines)[i] == numbered((i + 1) as nat, lines[i]) by {
            if i < init.len() {
                assert(init[i] == lines[i]);
            }
        }
    }
}

/// How many of the lines are not empty.
pub open spec fn nonempty_count(lines: Seq<Seq<char>>) -> nat
    decreases lines.len(),
{
    if lines.len() == 0 {
        0
    } else {
        nonempty_count(lines.drop_last()) + if lines.last().len() > 0 { 1nat } else { 0nat }
    }
}

/// With `-b` (and no `-s`) every line is printed; a line with any character
/// at all, whitespace included, carries the number of non-empty lines up to
/// and including it, and only an empty line is printed without a number.
pub proof fn lemma_cat_b_numbers_nonempty(f: CatFlags, lines: Seq<Seq<char>>)
    requires
        f.number_nonblank,
        !f.squeeze_blank,
    ensures
        cat_out(f, lines).len() == lines.len(),
        cat_state(f, lines).0 == nonempty_count(lines) + 1,
        forall|i: int| 0 <= i < lines.len() ==> #[trigger] cat_out(f, lines)[i] == (if lines[i].len() > 0 {
            numbered(nonempty_count(lines.take(i + 1)), lines[i])
        } else {
            lines[i]
        }),
    decreases lines.len(),
{
    if lines.len() > 0 {
        let init = lines.drop_last();
        lemma_cat_b_numbers_nonempty(f, init);
        assert(lines.take(lines.len() as int) =~= lines);
        assert forall|i: int| 0 <= i < lines.len() implies #[trigger] cat_out(f, lines)[i] == (if lines[i].len() > 0 {
            numbered(nonempty_count(lines.take(i + 1)), lines[i])
        } else {
            lines[i]
        }) by {
            if i < init.len() {
                assert(init[i] == lines[i]);
                assert(init.take(i + 1) =~= lines.take(i + 1));
            }
        }
    }
}

} // verus!
