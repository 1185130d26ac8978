//! `grep`: which lines match, how a matching line is labelled, the context
//! lines around a match, and the per-file count.
use vstd::prelude::*;
use crate::text::{decimal, decimal_string, push_str, push_char};
use crate::matcher::{Matcher, regex_matches, regex_spans};
use crate::highlight::{highlight_matches, highlight_ok};
use crate::escape::string_views;

verus! {

/// How a matching line is labelled when no context is asked for.
#[derive(Clone, Copy, PartialEq, Eq, Structural)]
pub enum LinePrefix {
    /// The highlighted line alone.
    Plain,
    /// `file:line`.
    FileName,
    /// `file:number:line`, numbers counted from 1.
    FileAndNumber,
}

/// The options of one search.
#[derive(Clone, Copy)]
pub struct GrepOptions {
    /// `-n`: label lines with their number.
    pub line_number: bool,
    /// `-r`: directories are searched, and lines carry the file name.
    pub recursive: bool,
    /// `-c`: print only how many lines matched.
    pub count: bool,
    /// `-B`: lines of leading context.
    pub before: Option<usize>,
    /// `-A`: lines of trailing context.
    pub after: Option<usize>,
}

/// The label of a matching line: `-n` wins over `-r`.
pub open spec fn prefix_of(line_number: bool, recursive: bool) -> LinePrefix {
    if line_number {
        LinePrefix::FileAndNumber
    } else if recursive {
        LinePrefix::FileName
    } else {
        LinePrefix::Plain
    }
}

pub fn line_prefix(line_number: bool, recursive: bool) -> (p: LinePrefix)
    ensures
        p == prefix_of(line_number, recursive),
{
    if line_number {
        LinePrefix::FileAndNumber
    } else if recursive {
        LinePrefix::FileName
    } else {
        LinePrefix::Plain
    }
}

/// `a`, the separator `sep`, then `b`.
pub open spec fn labelled(a: Seq<char>, sep: char, b: Seq<char>) -> Seq<char> {
    a + seq![sep] + b
}

/// The output line for the matching line at index `index` (counted from 0),
/// highlighted as `hl`.
pub open spec fn match_line_spec(file: Seq<char>, index: nat, hl: Seq<char>, prefix: LinePrefix) -> Seq<char> {
    match prefix {
        LinePrefix::Plain => hl,
        LinePrefix::FileName => labelled(file, ':', hl),
        LinePrefix::FileAndNumber => labelled(labelled(file, ':', decimal(index + 1)), ':', hl),
    }
}

/// The line `file:count`.
pub open spec fn count_line_spec(file: Seq<char>, count: nat) -> Seq<char> {
    labelled(file, ':', decimal(count))
}

fn join_with(a: &str, sep: char, b: &str) -> (r: String)
    ensures
        r@ == labelled(a@, sep, b@),
{
    let mut r = String::new();
    push_str(&mut r, a);
    push_char(&mut r, sep);
    push_str(&mut r, b);
    r
}

/// The output line for a matching line, from its index and its highlighted
/// text.
pub fn match_line(file: &str, index: usize, hl: &str, prefix: LinePrefix) -> (r: String)
    requires
        index < usize::MAX,
    ensures
        r@ == match_line_spec(file@, index as nat, hl@, prefix),
{
    match prefix {
        LinePrefix::Plain => {
            let mut r = String::new();
            push_str(&mut r, hl);
            r
        },
        LinePrefix::FileName => join_with(file, ':', hl),
        LinePrefix::FileAndNumber => {
            let n = decimal_string((index + 1) as u64);
            let head = join_with(file, ':', n.as_str());
            join_with(head.as_str(), ':', hl)
        },
    }
}

/// The line `file:count`.
pub fn count_line(file: &str, count: u64) -> (r: String)
    ensures
        r@ == count_line_spec(file@, count as nat),
{
    let n = decimal_string(count);
    join_with(file, ':', n.as_str())
}

/// How many entries of `m` are true.
pub open spec fn count_true(m: Seq<bool>) -> nat
    decreases m.len(),
{
    if m.len() == 0 {
        0
    } else {
        count_true(m.drop_last()) + if m.last() { 1nat } else { 0nat }
    }
}

/// The output lines of the first `n` lines without context: each matching
/// line labelled by `prefix`.
pub open spec fn plain_upto(file: Seq<char>, matched: Seq<bool>, hls: Seq<Seq<char>>, prefix: LinePrefix, n: nat) -> Seq<Seq<char>>
    decreases n,
{
    if n == 0 {
        Seq::empty()
    } else {
        let k = (n - 1) as nat;
        plain_upto(file, matched, hls, prefix, k)
            + if matched[k as int] { seq![match_line_spec(file, k, hls[k as int], prefix)] } else { Seq::empty() }
    }
}

/// The first index of the leading context of the match at `i`.
pub open spec fn context_start(i: nat, before: nat) -> nat {
    if i >= before { (i - before) as nat } else { 0 }
}

/// One past the last index of the trailing context of the match at `i`.
pub open spec fn context_end(i: nat, after: nat, len: nat) -> nat {
    if i + after + 1 <= len { i + after + 1 } else { len }
}

/// The context lines `lines[from..to]`, each as `file-line`.
pub open spec fn context_part(file: Seq<char>, lines: Seq<Seq<char>>, from: nat, to: nat) -> Seq<Seq<char>> {
    Seq::new((to - from) as nat, |j: int| labelled(file, '-', lines[from + j]))
}

/// What a match at `i` prints in context mode: its leading context, the line
/// as `file:highlighted`, and its trailing context.
pub open spec fn context_block(file: Seq<char>, lines: Seq<Seq<char>>, hls: Seq<Seq<char>>, i: nat, before: nat, after: nat) -> Seq<Seq<char>> {
    context_part(file, lines, context_start(i, before), i)
        + seq![labelled(file, ':', hls[i as int])]
        + context_part(file, lines, i + 1, context_end(i, after, lines.len()))
}

/// The output of the first `n` lines in context mode.
pub open spec fn context_upto(file: Seq<char>, lines: Seq<Seq<char>>, matched: Seq<bool>, hls: Seq<Seq<char>>, before: nat, after: nat, n: nat) -> Seq<Seq<char>>
    decreases n,
{
    if n == 0 {
        Seq::empty()
    } else {
        let k = (n - 1) as nat;
        context_upto(file, lines, matched, hls, before, after, k)
            + if matched[k as int] { context_block(file, lines, hls, k, before, after) } else { Seq::empty() }
    }
}

/// Whether leading or trailing context was asked for.
pub open spec fn has_context(o: GrepOptions) -> bool {
    o.before is Some || o.after is Some
}

pub open spec fn or_zero(v: Option<usize>) -> nat {
    match v {
        Some(n) => n as nat,
        None => 0,
    }
}

/// Everything `grep` prints for one file whose lines are `lines`, given which
/// lines match and their highlighted forms.
pub open spec fn grep_spec(file: Seq<char>, lines: Seq<Seq<char>>, matched: Seq<bool>, hls: Seq<Seq<char>>, o: GrepOptions) -> Seq<Seq<char>> {
    if o.count {
        seq![count_line_spec(file, count_true(matched))]
    } else if has_context(o) {
        context_upto(file, lines, matched, hls, or_zero(o.before), or_zero(o.after), lines.len())
    } else {
        plain_upto(file, matched, hls, prefix_of(o.line_number, o.recursive), lines.len())
    }
}

/// Which of the lines the matcher accepts.
pub open spec fn matches_of(m: Matcher, lines: Seq<Seq<char>>) -> Seq<bool> {
    Seq::new(lines.len(), |i: int| regex_matches(m.pattern(), m.ignore_case(), lines[i]))
}

proof fn lemma_count_step(m: Seq<bool>, i: int)
    requires
        0 <= i < m.len(),
    ensures
        count_true(m.take(i + 1)) == count_true(m.take(i)) + if m[i] { 1nat } else { 0nat },
{
    assert(m.take(i + 1).drop_last() =~= m.take(i));
}

proof fn lemma_count_le(m: Seq<bool>)
    ensures
        count_true(m) <= m.len(),
    decreases m.len(),
{
    if m.len() > 0 {
        lemma_count_le(m.drop_last());
    }
}

/// Everything printed for one file, from which lines match and their
/// highlighted forms (`hls[i]` is read only where line `i` matches).
pub fn grep_output(file: &str, lines: &[String], matched: &[bool], hls: &[String], o: GrepOptions) -> (r: Vec<String>)
    requires
        matched@.len() == lines@.len(),
        hls@.len() == lines@.len(),
    ensures
        string_views(r@) == grep_spec(file@, string_views(lines@), matched@, string_views(hls@), o),
{
    let ghost lv = string_views(lines@);
    let ghost hv = string_views(hls@);
    let mut out: Vec<String> = Vec::new();
    if o.count {
        let mut c: usize = 0;
        let mut i: usize = 0;
        while i < matched.len()
            invariant
                i <= matched@.len(),
                c == count_true(matched@.take(i as int)),
            decreases matched@.len() - i,
        {
            proof {
                lemma_count_step(matched@, i as int);
                lemma_count_le(matched@.take(i + 1));
            }
            if matched[i] {
                c = c + 1;
            }
            i = i + 1;
        }
        assert(matched@.take(i as int) =~= matched@);
        out.push(count_line(file, c as u64));
        assert(string_views(out@) =~= grep_spec(file@, lv, matched@, hv, o));
        return out;
    }
    if o.before.is_some() || o.after.is_some() {
        let before: usize = match o.before {
            Some(b) => b,
            None => 0,
        };
        let after: usize = match o.after {
            Some(a) => a,
            None => 0,
        };
        out = context_output(file, lines, matched, hls, before, after);
    } else {
        let prefix = line_prefix(o.line_number, o.recursive);
        let mut i: usize = 0;
        while i < lines.len()
            invariant
                i <= lines@.len(),
                matched@.len() == lines@.len(),
                hls@.len() == lines@.len(),
                hv == string_views(hls@),
                prefix == prefix_of(o.line_number, o.recursive),
                string_views(out@) == plain_upto(file@, matched@, hv, prefix, i as nat),
            decreases lines@.len() - i,
        {
            if matched[i] {
                let s = match_line(file, i, hls[i].as_str(), prefix);
                out.push(s);
            }
            assert(string_views(out@) =~= plain_upto(file@, matched@, hv, prefix, (i + 1) as nat));
            i = i + 1;
        }
    }
    out
}

fn push_context(out: &mut Vec<String>, file: &str, lines: &[String], from: usize, to: usize)
    requires
        from <= to <= lines@.len(),
    ensures
        string_views(final(out)@) == string_views(old(out)@) + context_part(file@, string_views(lines@), from as nat, to as nat),
{
    let ghost start = string_views(out@);
    let mut j: usize = from;
    while j < to
        invariant
            from <= j <= to <= lines@.len(),
            string_views(out@) == start + context_part(file@, string_views(lines@), from as nat, j as nat),
        decreases to - j,
    {
        let s = join_with(file, '-', lines[j].as_str());
        let ghost before_push = out@;
        out.push(s);
        proof {
            let lv = string_views(lines@);
            assert(lv[j as int] == lines@[j as int]@);
            let want = start + context_part(file@, lv, from as nat, (j + 1) as nat);
            assert(string_views(before_push) == start + context_part(file@, lv, from as nat, j as nat));
            assert(string_views(before_push).len() == before_push.len());
            assert(context_part(file@, lv, from as nat, j as nat).len() == j - from);
            assert(context_part(file@, lv, from as nat, (j + 1) as nat).len() == j + 1 - from);
            assert(out@.len() == before_push.len() + 1);
            assert(string_views(out@).len() == want.len());
            assert forall|k: int| 0 <= k < want.len() implies #[trigger] string_views(out@)[k] == want[k] by {
                if k < before_push.len() {
                    assert(string_views(out@)[k] == out@[k]@);
                    assert(out@[k] == before_push[k]);
                    assert(string_views(before_push)[k] == before_push[k]@);
                    if k < start.len() {
                    } else {
                        assert(want[k] == context_part(file@, lv, from as nat, (j + 1) as nat)[k - start.len()]);
                        assert(string_views(before_push)[k] == context_part(file@, lv, from as nat, j as nat)[k - start.len()]);
                    }
                } else {
                    assert(out@[k] == s);
                }
            }
            assert(string_views(out@) =~= want);
        }
        j = j + 1;
    }
}

/// Context mode: every matching line with up to `before` lines ahead of it
/// and up to `after` lines behind it, each run printed anew for each match.
pub fn context_output(file: &str, lines: &[String], matched: &[bool], hls: &[String], before: usize, after: usize) -> (r: Vec<String>)
    requires
        matched@.len() == lines@.len(),
        hls@.len() == lines@.len(),
    ensures
        string_views(r@) == context_upto(file@, string_views(lines@), matched@, string_views(hls@),
            before as nat, after as nat, lines@.len()),
{
    let ghost lv = string_views(lines@);
    let ghost hv = string_views(hls@);
    let mut out: Vec<String> = Vec::new();
    let len = lines.len();
    let mut i: usize = 0;
    while i < len
        invariant
            len == lines@.len(),
            i <= len,
            matched@.len() == len,
            hls@.len() == len,
            lv == string_views(lines@),
            hv == string_views(hls@),
            string_views(out@) == context_upto(file@, lv, matched@, hv, before as nat, after as nat, i as nat),
        decreases len - i,
    {
        let ghost prev = string_views(out@);
        if matched[i] {
            let start = if i >= before { i - before } else { 0 };
            push_context(&mut out, file, lines, start, i);
            let ghost first = string_views(out@);
            let s = join_with(file, ':', hls[i].as_str());
            let ghost before_push = out@;
            out.push(s);
            let ghost mid = string_views(out@);
            proof {
                assert(hv[i as int] == hls@[i as int]@);
                assert(string_views(before_push) == first);
                assert(mid =~= first.push(labelled(file@, ':', hv[i as int]))) by {
                    assert forall|k: int| 0 <= k < mid.len() implies #[trigger] mid[k] == first.push(labelled(file@, ':', hv[i as int]))[k] by {
                        if k < before_push.len() {
                            assert(out@[k] == before_push[k]);
                        }
                    }
                }
            }
            let end = if after >= len - i - 1 { len } else { i + after + 1 };
            push_context(&mut out, file, lines, i + 1, end);
            proof {
                assert(start == context_start(i as nat, before as nat));
                assert(end == context_end(i as nat, after as nat, len as nat));
                assert(string_views(out@) =~= prev + context_block(file@, lv, hv, i as nat, before as nat, after as nat));
            }
        }
        assert(string_views(out@) =~= context_upto(file@, lv, matched@, hv, before as nat, after as nat, (i + 1) as nat));
        i = i + 1;
    }
    out
}

/// `grep` on the lines of one file: the matcher decides which lines match,
/// each matching line is highlighted (unless only counting), and the output
/// is as `grep_spec` says for those results.
pub fn grep_lines(m: &Matcher, file: &str, lines: &[String], o: GrepOptions) -> (r: Vec<String>)
    ensures
        exists|hls: Seq<Seq<char>>| {
            &&& hls.len() == lines@.len()
            &&& forall|i: int| 0 <= i < lines@.len() && !o.count && matches_of(*m, string_views(lines@))[i]
                ==> highlight_ok(lines@[i]@, regex_spans(m.pattern(), m.ignore_case(), lines@[i]@), #[trigger] hls[i])
            &&& string_views(r@) == grep_spec(file@, string_views(lines@), matches_of(*m, string_views(lines@)), hls, o)
        },
{
    let ghost lv = string_views(lines@);
    let mut matched: Vec<bool> = Vec::new();
    let mut hls: Vec<String> = Vec::new();
    let mut i: usize = 0;
    while i < lines.len()
        invariant
            i <= lines@.len(),
            lv == string_views(lines@),
            matched@.len() == i,
            hls@.len() == i,
            forall|j: int| 0 <= j < i ==> #[trigger] matched@[j] == matches_of(*m, lv)[j],
            forall|j: int| 0 <= j < i && !o.count && matched@[j]
                ==> highlight_ok(lv[j], regex_spans(m.pattern(), m.ignore_case(), lv[j]), #[trigger] hls@[j]@),
        decreases lines@.len() - i,
    {
        let b = m.is_match(lines[i].as_str());
        matched.push(b);
        if b && !o.count {
            let h = highlight_matches(lines[i].as_str(), m);
            hls.push(h);
        } else {
            hls.push(String::new());
        }
        i = i + 1;
    }
    assert(matched@ =~= matches_of(*m, lv));
    let r = grep_output(file, lines, matched.as_slice(), hls.as_slice(), o);
    proof {
        let hv = string_views(hls@);
        assert forall|j: int| 0 <= j < lines@.len() && !o.count && matches_of(*m, string_views(lines@))[j]
            implies highlight_ok(lines@[j]@, regex_spans(m.pattern(), m.ignore_case(), lines@[j]@), #[trigger] hv[j]) by {
            assert(matched@[j]);
            assert(hls@[j]@ == hv[j]);
        }
    }
    r
}

/// In context mode a match at line `i` prints the lines just above it, as
/// many as `before` asks for but never past the first line, each as
/// `file-line`; then itself as `file:highlighted`; then the lines just below
/// it, as many as `after` asks for but never past the last line.
pub proof fn lemma_context_block_lines(file: Seq<char>, lines: Seq<Seq<char>>, hls: Seq<Seq<char>>, i: nat, before: nat, after: nat)
    requires
        i < lines.len(),
    ensures
        ({
            let lead: int = if i < before { i as int } else { before as int };
            let trail: int = if after < lines.len() - 1 - i { after as int } else { lines.len() - 1 - i };
            let b = context_block(file, lines, hls, i, before, after);
            &&& b.len() == lead + 1 + trail
            &&& forall|j: int| 0 <= j < lead ==> #[trigger] b[j] == file + seq!['-'] + lines[i - lead + j]
            &&& b[lead] == file + seq![':'] + hls[i as int]
            &&& forall|j: int| 0 <= j < trail ==> #[trigger] b[lead + 1 + j] == file + seq!['-'] + lines[i + 1 + j]
        }),
{
    let lead: int = if i < before { i as int } else { before as int };
    let b = context_block(file, lines, hls, i, before, after);
    let p1 = context_part(file, lines, context_start(i, before), i);
    assert(p1.len() == lead);
    assert forall|j: int| 0 <= j < lead implies #[trigger] b[j] == file + seq!['-'] + lines[i - lead + j] by {
        assert(b[j] == p1[j]);
    }
}

/// The context blocks with no leading or trailing lines are the matching
/// lines labelled with the file name: `-A 0 -B 0` prints what `-r` prints.
pub proof fn lemma_zero_context_is_file_prefix(file: Seq<char>, lines: Seq<Seq<char>>, matched: Seq<bool>, hls: Seq<Seq<char>>, n: nat)
    requires
        n <= lines.len(),
        matched.len() == lines.len(),
    ensures
        context_upto(file, lines, matched, hls, 0, 0, n) == plain_upto(file, matched, hls, LinePrefix::FileName, n),
    decreases n,
{
    if n > 0 {
        let k = (n - 1) as nat;
        lemma_zero_context_is_file_prefix(file, lines, matched, hls, k);
        assert(context_part(file, lines, context_start(k, 0), k) =~= Seq::<Seq<char>>::empty());
        assert(context_part(file, lines, k + 1, context_end(k, 0, lines.len())) =~= Seq::<Seq<char>>::empty());
        assert(context_block(file, lines, hls, k, 0, 0) =~= seq![match_line_spec(file, k, hls[k as int], LinePrefix::FileName)]);
    }
}

/// With `-c` exactly one line is printed, and it carries the number of
/// matching lines, which is never more than the number of lines.
pub proof fn lemma_count_only_one_line(file: Seq<char>, lines: Seq<Seq<char>>, matched: Seq<bool>, hls: Seq<Seq<char>>, o: GrepOptions)
    requires
        o.count,
    ensures
        grep_spec(file, lines, matched, hls, o) == seq![count_line_spec(file, count_true(matched))],
        count_true(matched) <= matched.len(),
{
    lemma_count_le(matched);
}

/// `grep` without context, one line at a time: it counts the matching lines
/// and hands back the output line of each match (none under `-c`).
pub struct GrepScan {
    pub count: usize,
    pub count_only: bool,
    pub prefix: LinePrefix,
}

impl GrepScan {
    /// A scan of one file, with nothing counted yet.
    pub fn new(o: GrepOptions) -> (g: GrepScan)
        ensures
            g.count == 0,
            g.count_only == o.count,
            g.prefix == prefix_of(o.line_number, o.recursive),
    {
        GrepScan { count: 0, count_only: o.count, prefix: line_prefix(o.line_number, o.recursive) }
    }

    /// The line at `index` (from 0): whether it matches is counted, and a
    /// matching line's output is returned unless only counting.
    pub fn step(&mut self, m: &Matcher, file: &str, index: usize, line: &str) -> (r: Option<String>)
        requires
            old(self).count < usize::MAX,
            index < usize::MAX,
        ensures
            final(self).count_only == old(self).count_only,
            final(self).prefix == old(self).prefix,
            final(self).count == old(self).count
                + if regex_matches(m.pattern(), m.ignore_case(), line@) { 1int } else { 0int },
            r is Some <==> regex_matches(m.pattern(), m.ignore_case(), line@) && !old(self).count_only,
            r matches Some(s) ==> exists|hl: Seq<char>|
                highlight_ok(line@, regex_spans(m.pattern(), m.ignore_case(), line@), hl)
                && #[trigger] match_line_spec(file@, index as nat, hl, old(self).prefix) == s@,
    {
        if !m.is_match(line) {
            return None;
        }
        self.count = self.count + 1;
        if self.count_only {
            return None;
        }
        let hl = highlight_matches(line, m);
        let out = match_line(file, index, hl.as_str(), self.prefix);
        assert(match_line_spec(file@, index as nat, hl@, self.prefix) == out@);
        Some(out)
    }

    /// What closes the file: the line `file:count` under `-c`.
    pub fn finish(&self, file: &str) -> (r: Option<String>)
        ensures
            self.count_only ==> (r matches Some(s) && s@ == count_line_spec(file@, self.count as nat)),
            !self.count_only ==> r is None,
    {
        if self.count_only {
            Some(count_line(file, self.count as u64))
        } else {
            None
        }
    }
}

} // verus!
