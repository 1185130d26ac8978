//! Highlighting of regex matches in a line: byte offsets are turned into
//! character positions, and each matched piece is painted bold red by the
//! `colored` crate (or left plain when that crate decides not to colour).
use vstd::prelude::*;
use crate::text::{chars_of, string_of, push_str};
use crate::paint::{painted_ok, paint_bold_red};
use crate::matcher::{Matcher, byte_len, on_boundary, spans_well_formed, regex_spans};

verus! {

/// The byte length of the UTF-8 encoding of one character.
pub open spec fn char_width(c: char) -> int {
    vstd::utf8::encode_scalar(c as u32).len() as int
}

proof fn lemma_encode_concat(a: Seq<char>, b: Seq<char>)
    ensures
        vstd::utf8::encode_utf8(a + b) == vstd::utf8::encode_utf8(a) + vstd::utf8::encode_utf8(b),
    decreases a.len(),
{
    if a.len() == 0 {
        assert(a + b =~= b);
        assert(vstd::utf8::encode_utf8(a) =~= Seq::<u8>::empty());
        assert(Seq::<u8>::empty() + vstd::utf8::encode_utf8(b) =~= vstd::utf8::encode_utf8(b));
    } else {
        lemma_encode_concat(a.drop_first(), b);
        assert((a + b).drop_first() =~= a.drop_first() + b);
        assert((a + b)[0] == a[0]);
    }
}

proof fn lemma_char_width(c: char)
    ensures
        1 <= char_width(c) <= 4,
        char_width(c) == (if (c as u32) < 0x80 { 1int } else if (c as u32) < 0x800 { 2int }
            else if (c as u32) < 0x10000 { 3int } else { 4int }),
{
    vstd::utf8::char_is_scalar(c);
}

/// The byte length of a prefix grows by the width of the next character.
proof fn lemma_byte_len_step(t: Seq<char>, k: int)
    requires
        0 <= k < t.len(),
    ensures
        byte_len(t.take(k + 1)) == byte_len(t.take(k)) + char_width(t[k]),
{
    assert(t.take(k + 1) =~= t.take(k) + seq![t[k]]);
    lemma_encode_concat(t.take(k), seq![t[k]]);
    assert(seq![t[k]].drop_first() =~= Seq::<char>::empty());
    assert(vstd::utf8::encode_utf8(seq![t[k]]) =~= vstd::utf8::encode_scalar(t[k] as u32) + vstd::utf8::encode_utf8(Seq::<char>::empty()));
    assert(vstd::utf8::encode_utf8(Seq::<char>::empty()) =~= Seq::<u8>::empty());
}

/// Byte lengths of prefixes strictly grow with the prefix.
proof fn lemma_byte_len_mono(t: Seq<char>, i: int, j: int)
    requires
        0 <= i < j <= t.len(),
    ensures
        byte_len(t.take(i)) < byte_len(t.take(j)),
    decreases j - i,
{
    lemma_byte_len_step(t, j - 1);
    lemma_char_width(t[j - 1]);
    if i < j - 1 {
        lemma_byte_len_mono(t, i, j - 1);
    }
}

/// The character position at byte offset `o` of `text` (meaningful when `o`
/// is a character boundary).
pub open spec fn char_index(text: Seq<char>, o: int) -> int {
    choose|k: int| 0 <= k <= text.len() && #[trigger] byte_len(text.take(k)) == o
}

proof fn lemma_char_index(text: Seq<char>, o: int, k: int)
    requires
        0 <= k <= text.len(),
        byte_len(text.take(k)) == o,
    ensures
        char_index(text, o) == k,
{
    let c = char_index(text, o);
    assert(0 <= c <= text.len() && byte_len(text.take(c)) == o);
    if c < k {
        lemma_byte_len_mono(text, c, k);
    } else if k < c {
        lemma_byte_len_mono(text, k, c);
    }
}

/// The matches as character positions.
pub open spec fn char_spans(text: Seq<char>, spans: Seq<(usize, usize)>) -> Seq<(int, int)> {
    Seq::new(spans.len(), |k: int| (char_index(text, spans[k].0 as int), char_index(text, spans[k].1 as int)))
}

fn width_of(c: char) -> (w: usize)
    ensures
        w == char_width(c),
{
    proof { lemma_char_width(c); }
    let u = c as u32;
    if u < 0x80 {
        1
    } else if u < 0x800 {
        2
    } else if u < 0x10000 {
        3
    } else {
        4
    }
}

/// Advances the character position `ci` (at byte position `pos`) to the byte
/// offset `o`, a boundary at or after `pos`.
fn advance_to(text: &[char], ci: usize, pos: usize, o: usize) -> (r: (usize, usize))
    requires
        ci <= text@.len(),
        pos == byte_len(text@.take(ci as int)),
        on_boundary(text@, o as int),
        pos <= o,
    ensures
        r.0 <= text@.len(),
        ci <= r.0,
        r.1 == o,
        byte_len(text@.take(r.0 as int)) == o,
{
    let ghost k = choose|k: int| 0 <= k <= text@.len() && #[trigger] byte_len(text@.take(k)) == o;
    proof {
        if k < ci {
            lemma_byte_len_mono(text@, k, ci as int);
        }
    }
    let mut c = ci;
    let mut p = pos;
    while p < o
        invariant
            ci <= c <= text@.len(),
            p == byte_len(text@.take(c as int)),
            0 <= k <= text@.len(),
            byte_len(text@.take(k)) == o,
            c <= k,
        decreases k - c,
    {
        proof {
            if c == k {
                assert(false);
            }
        }
        let w = width_of(text[c]);
        proof {
            lemma_byte_len_step(text@, c as int);
            if c + 1 < k {
                lemma_byte_len_mono(text@, c + 1, k);
            }
        }
        p = p + w;
        c = c + 1;
    }
    proof {
        if c < k {
            lemma_byte_len_mono(text@, c as int, k);
        }
    }
    (c, p)
}

/// Turns byte offsets of matches into character positions.
fn to_char_spans(text: &[char], spans: &Vec<(usize, usize)>) -> (r: Vec<(usize, usize)>)
    requires
        spans_well_formed(text@, spans@),
    ensures
        r@.len() == spans@.len(),
        forall|k: int| 0 <= k < r@.len() ==> (#[trigger] r@[k]).0 as int == char_spans(text@, spans@)[k].0
            && r@[k].1 as int == char_spans(text@, spans@)[k].1,
        forall|k: int| 0 <= k < r@.len() ==> (#[trigger] r@[k]).0 <= r@[k].1 <= text@.len(),
        forall|k: int| 0 <= k < r@.len() - 1 ==> (#[trigger] r@[k]).1 <= r@[k + 1].0,
{
    let mut r: Vec<(usize, usize)> = Vec::new();
    let mut ci: usize = 0;
    let mut pos: usize = 0;
    let mut k: usize = 0;
    assert(text@.take(0) =~= Seq::<char>::empty());
    assert(byte_len(text@.take(0)) == 0);
    while k < spans.len()
        invariant
            spans_well_formed(text@, spans@),
            k <= spans@.len(),
            r@.len() == k,
            ci <= text@.len(),
            pos == byte_len(text@.take(ci as int)),
            k > 0 ==> pos == spans@[k - 1].1 && ci == r@[k - 1].1,
            k == 0 ==> pos == 0,
            forall|j: int| 0 <= j < k ==> (#[trigger] r@[j]).0 as int == char_spans(text@, spans@)[j].0
                && r@[j].1 as int == char_spans(text@, spans@)[j].1,
            forall|j: int| 0 <= j < k ==> (#[trigger] r@[j]).0 <= r@[j].1 <= text@.len(),
            forall|j: int| 0 <= j < k - 1 ==> (#[trigger] r@[j]).1 <= r@[j + 1].0,
        decreases spans@.len() - k,
    {
        let (s, e) = spans[k];
        assert(spans@[k as int] == (s, e));
        assert(on_boundary(text@, s as int));
        assert(on_boundary(text@, e as int));
        proof {
            if k > 0 {
                assert(spans@[k - 1].1 <= spans@[k as int].0);
            }
            if k == 0 {
                let w = choose|w: int| 0 <= w <= text@.len() && #[trigger] byte_len(text@.take(w)) == s;
                if w > 0 {
                    lemma_byte_len_mono(text@, 0, w);
                }
            }
        }
        let (c0, p0) = advance_to(text, ci, pos, s);
        let (c1, p1) = advance_to(text, c0, p0, e);
        proof {
            lemma_char_index(text@, s as int, c0 as int);
            lemma_char_index(text@, e as int, c1 as int);
        }
        r.push((c0, c1));
        ci = c1;
        pos = p1;
        k += 1;
    }
    r
}

/// The line with the matches at character positions `cs` replaced by
/// `painted`, from match `k` on, the previous match having ended at `last`.
pub open spec fn assemble_from(line: Seq<char>, cs: Seq<(int, int)>, painted: Seq<Seq<char>>, k: int, last: int) -> Seq<char>
    decreases cs.len() - k,
{
    if k >= cs.len() {
        line.subrange(last, line.len() as int)
    } else {
        line.subrange(last, cs[k].0) + painted[k] + assemble_from(line, cs, painted, k + 1, cs[k].1)
    }
}

/// The text of match `k`.
pub open spec fn piece(line: Seq<char>, cs: Seq<(int, int)>, k: int) -> Seq<char> {
    line.subrange(cs[k].0, cs[k].1)
}

/// What `highlight_matches` may give for a line and the byte offsets of its
/// matches: the line with each match painted (see `painted_ok`).
pub open spec fn highlight_ok(line: Seq<char>, spans: Seq<(usize, usize)>, r: Seq<char>) -> bool {
    let cs = char_spans(line, spans);
    exists|painted: Seq<Seq<char>>| {
        &&& painted.len() == cs.len()
        &&& (forall|k: int| 0 <= k < cs.len() ==> painted_ok(piece(line, cs, k), #[trigger] painted[k]))
        &&& r == assemble_from(line, cs, painted, 0, 0)
    }
}

fn append_range(out: &mut String, v: &[char], from: usize, to: usize)
    requires
        from <= to <= v@.len(),
    ensures
        final(out)@ == old(out)@ + v@.subrange(from as int, to as int),
{
    let mut part: Vec<char> = Vec::new();
    let mut i: usize = from;
    while i < to
        invariant
            from <= i <= to <= v@.len(),
            part@ == v@.subrange(from as int, i as int),
        decreases to - i,
    {
        part.push(v[i]);
        assert(part@ =~= v@.subrange(from as int, i + 1));
        i += 1;
    }
    let s = string_of(part.as_slice());
    push_str(out, s.as_str());
}

/// `highlight_matches`: every match of the pattern in the line painted bold
/// red, the rest of the line unchanged.
pub fn highlight_matches(line: &str, m: &Matcher) -> (r: String)
    ensures
        highlight_ok(line@, regex_spans(m.pattern(), m.ignore_case(), line@), r@),
{
    let spans = m.find_spans(line);
    let lc = chars_of(line);
    let cs = to_char_spans(lc.as_slice(), &spans);
    let ghost csv = char_spans(line@, spans@);
    let ghost mut painted: Seq<Seq<char>> = Seq::empty();
    let mut out = String::new();
    let mut last: usize = 0;
    let mut k: usize = 0;
    while k < cs.len()
        invariant
            lc@ == line@,
            csv == char_spans(line@, spans@),
            cs@.len() == csv.len(),
            forall|j: int| 0 <= j < cs@.len() ==> (#[trigger] cs@[j]).0 as int == csv[j].0 && cs@[j].1 as int == csv[j].1,
            forall|j: int| 0 <= j < cs@.len() ==> (#[trigger] cs@[j]).0 <= cs@[j].1 <= line@.len(),
            forall|j: int| 0 <= j < cs@.len() - 1 ==> (#[trigger] cs@[j]).1 <= cs@[j + 1].0,
            k <= cs@.len(),
            last <= line@.len(),
            k > 0 ==> last == cs@[k - 1].1,
            k < cs@.len() ==> last <= cs@[k as int].0,
            painted.len() == k,
            forall|j: int| 0 <= j < k ==> painted_ok(piece(line@, csv, j), #[trigger] painted[j]),
            forall|p: Seq<Seq<char>>| p.len() == csv.len() && p.take(k as int) == painted ==>
                #[trigger] assemble_from(line@, csv, p, 0, 0) == out@ + assemble_from(line@, csv, p, k as int, last as int),
        decreases cs@.len() - k,
    {
        let (s, e) = cs[k];
        assert(cs@[k as int] == (s, e));
        append_range(&mut out, lc.as_slice(), last, s);
        let mut part = String::new();
        append_range(&mut part, lc.as_slice(), s, e);
        let p = paint_bold_red(part.as_str());
        push_str(&mut out, p.as_str());
        let ghost old_painted = painted;
        proof {
            painted = painted.push(p@);
            assert forall|q: Seq<Seq<char>>| q.len() == csv.len() && q.take(k + 1) == painted implies
                #[trigger] assemble_from(line@, csv, q, 0, 0) == out@ + assemble_from(line@, csv, q, k + 1, e as int) by {
                assert(q.take(k as int) =~= old_painted);
                assert(q[k as int] == painted[k as int]);
            }
            assert(part@ =~= piece(line@, csv, k as int));
            if k + 1 < cs@.len() {
                assert(cs@[k as int].1 <= cs@[k + 1].0);
            }
        }
        last = e;
        k += 1;
    }
    append_range(&mut out, lc.as_slice(), last, lc.len());
    proof {
        assert(painted.take(k as int) =~= painted);
        assert(highlight_ok(line@, spans@, out@));
    }
    out
}

/// With colouring off every match stays as it is, and the highlighted line is
/// the line itself.
pub proof fn lemma_plain_highlight_is_line(line: Seq<char>, cs: Seq<(int, int)>, k: int, last: int)
    requires
        0 <= k <= cs.len(),
        0 <= last <= line.len(),
        k < cs.len() ==> last <= cs[k].0,
        forall|j: int| 0 <= j < cs.len() ==> 0 <= (#[trigger] cs[j]).0 <= cs[j].1 <= line.len(),
        forall|j: int| 0 <= j < cs.len() - 1 ==> (#[trigger] cs[j]).1 <= cs[j + 1].0,
    ensures
        assemble_from(line, cs, Seq::new(cs.len(), |j: int| piece(line, cs, j)), k, last)
            == line.subrange(last, line.len() as int),
    decreases cs.len() - k,
{
    let pieces = Seq::new(cs.len(), |j: int| piece(line, cs, j));
    if k < cs.len() {
        if k + 1 < cs.len() {
            assert(cs[k].1 <= cs[k + 1].0);
        }
        lemma_plain_highlight_is_line(line, cs, k + 1, cs[k].1);
        assert(line.subrange(last, cs[k].0) + pieces[k] + line.subrange(cs[k].1, line.len() as int)
            =~= line.subrange(last, line.len() as int));
    }
}

} // verus!
