//! Field and character selection for `cut`: splitting, joining and the parsing
//! of `1,3`/`1-3` position lists.
use vstd::prelude::*;
use crate::text::{chars_of, string_of, parse_usize, parse_usize_spec};

verus! {

/// The character sequences held by a vector of character vectors.
pub open spec fn views(v: Seq<Vec<char>>) -> Seq<Seq<char>> {
    Seq::new(v.len(), |i: int| v[i]@)
}

/// The pieces of `s` between occurrences of the character `d`
/// (`str::split` with a character pattern).
pub open spec fn split_char(s: Seq<char>, d: char) -> Seq<Seq<char>>
    decreases s.len(),
{
    if s.len() == 0 {
        seq![Seq::empty()]
    } else {
        let r = split_char(s.drop_last(), d);
        if s.last() == d {
            r.push(Seq::empty())
        } else {
            r.update(r.len() - 1, r.last().push(s.last()))
        }
    }
}

proof fn lemma_split_char_nonempty(s: Seq<char>, d: char)
    ensures
        split_char(s, d).len() >= 1,
    decreases s.len(),
{
    if s.len() > 0 {
        lemma_split_char_nonempty(s.drop_last(), d);
    }
}

/// Splits the characters of `s` at every `d`.
pub fn split_at_char(s: &[char], d: char) -> (r: Vec<Vec<char>>)
    ensures
        views(r@) == split_char(s@, d),
{
    let mut pieces: Vec<Vec<char>> = Vec::new();
    let mut cur: Vec<char> = Vec::new();
    let mut i: usize = 0;
    assert(s@.take(0) =~= Seq::<char>::empty());
    assert(views(pieces@).push(cur@) =~= split_char(s@.take(0), d));
    while i < s.len()
        invariant
            i <= s@.len(),
            views(pieces@).push(cur@) == split_char(s@.take(i as int), d),
        decreases s@.len() - i,
    {
        let c = s[i];
        let ghost before = split_char(s@.take(i as int), d);
        assert(s@.take(i + 1).drop_last() =~= s@.take(i as int));
        assert(s@.take(i + 1).last() == c);
        if c == d {
            pieces.push(cur);
            cur = Vec::new();
            assert(views(pieces@).push(cur@) =~= before.push(Seq::empty()));
        } else {
            cur.push(c);
            assert(views(pieces@).push(cur@) =~= before.update(before.len() - 1, before.last().push(c)));
        }
        i += 1;
    }
    assert(s@.take(s@.len() as int) =~= s@);
    pieces.push(cur);
    pieces
}

/// `d` occurs in `s` at position `i`.
pub open spec fn occurs_at(s: Seq<char>, d: Seq<char>, i: int) -> bool {
    s.subrange(i, i + d.len()) == d
}

/// The pieces of `s` from `start` on, scanning for the leftmost occurrence of the
/// non-empty `d` from position `i`; occurrences do not overlap.
pub open spec fn split_scan(s: Seq<char>, d: Seq<char>, start: int, i: int) -> Seq<Seq<char>>
    decreases s.len() - i
    when 0 <= start <= i && d.len() > 0
{
    if i + d.len() > s.len() {
        seq![s.subrange(start, s.len() as int)]
    } else if occurs_at(s, d, i) {
        seq![s.subrange(start, i)] + split_scan(s, d, i + d.len(), i + d.len())
    } else {
        split_scan(s, d, start, i + 1)
    }
}

/// `str::split` with a string pattern: for a non-empty `d`, the pieces between
/// leftmost non-overlapping occurrences; for an empty `d`, an empty piece, each
/// character as a piece of its own, and another empty piece.
pub open spec fn split_str(s: Seq<char>, d: Seq<char>) -> Seq<Seq<char>> {
    if d.len() == 0 {
        seq![Seq::<char>::empty()] + Seq::new(s.len(), |i: int| seq![s[i]]) + seq![Seq::<char>::empty()]
    } else {
        split_scan(s, d, 0, 0)
    }
}

fn occurs_here(s: &[char], d: &[char], i: usize) -> (b: bool)
    requires
        i + d@.len() <= s@.len(),
    ensures
        b == occurs_at(s@, d@, i as int),
{
    let mut k: usize = 0;
    let n = s.len();
    while k < d.len()
        invariant
            n == s@.len(),
            i + d@.len() <= n,
            k <= d@.len(),
            forall|j: int| 0 <= j < k ==> s@[i + j] == d@[j],
        decreases d@.len() - k,
    {
        assert(i + k < s@.len());
        if s[i + k] != d[k] {
            assert(s@.subrange(i as int, i + d@.len())[k as int] != d@[k as int]);
            return false;
        }
        k += 1;
    }
    assert(s@.subrange(i as int, i + d@.len()) =~= d@);
    true
}

fn copy_range(s: &[char], from: usize, to: usize) -> (r: Vec<char>)
    requires
        from <= to <= s@.len(),
    ensures
        r@ == s@.subrange(from as int, to as int),
{
    let mut r: Vec<char> = Vec::new();
    let mut i: usize = from;
    while i < to
        invariant
            from <= i <= to <= s@.len(),
            r@ == s@.subrange(from as int, i as int),
        decreases to - i,
    {
        r.push(s[i]);
        assert(s@.subrange(from as int, i + 1) =~= s@.subrange(from as int, i as int).push(s@[i as int]));
        i += 1;
    }
    r
}

/// Splits the characters of `s` at the string `d`.
pub fn split_at_str(s: &[char], d: &[char]) -> (r: Vec<Vec<char>>)
    ensures
        views(r@) == split_str(s@, d@),
{
    let mut pieces: Vec<Vec<char>> = Vec::new();
    if d.len() == 0 {
        pieces.push(Vec::new());
        let mut i: usize = 0;
        while i < s.len()
            invariant
                i <= s@.len(),
                views(pieces@) =~= seq![Seq::<char>::empty()] + Seq::new(i as nat, |k: int| seq![s@[k]]),
            decreases s@.len() - i,
        {
            let mut one: Vec<char> = Vec::new();
            one.push(s[i]);
            assert(one@ =~= seq![s@[i as int]]);
            let ghost before = views(pieces@);
            pieces.push(one);
            assert(views(pieces@) =~= before.push(seq![s@[i as int]]));
            i += 1;
        }
        pieces.push(Vec::new());
        return pieces;
    }
    let mut start: usize = 0;
    let mut i: usize = 0;
    while d.len() <= s.len() && i <= s.len() - d.len()
        invariant
            d@.len() > 0,
            start <= i,
            i <= s@.len(),
            views(pieces@) + split_scan(s@, d@, start as int, i as int) == split_str(s@, d@),
        decreases s@.len() - i,
    {
        if occurs_here(s, d, i) {
            let piece = copy_range(s, start, i);
            let ghost rest = split_scan(s@, d@, (i + d@.len()) as int, (i + d@.len()) as int);
            assert(split_scan(s@, d@, start as int, i as int) == seq![piece@] + rest);
            pieces.push(piece);
            assert(views(pieces@) + rest =~= views(pieces@).drop_last() + (seq![piece@] + rest));
            start = i + d.len();
            i = start;
        } else {
            i += 1;
        }
    }
    let last = copy_range(s, start, s.len());
    pieces.push(last);
    assert(views(pieces@) =~= views(pieces@).drop_last() + split_scan(s@, d@, start as int, i as int));
    pieces
}

/// The pieces joined with `d` between neighbours (`[T]::join`).
pub open spec fn join(parts: Seq<Seq<char>>, d: Seq<char>) -> Seq<char>
    decreases parts.len(),
{
    if parts.len() == 0 {
        Seq::empty()
    } else if parts.len() == 1 {
        parts[0]
    } else {
        join(parts.drop_last(), d) + d + parts.last()
    }
}

fn append_chars(acc: &mut Vec<char>, s: &[char])
    ensures
        final(acc)@ == old(acc)@ + s@,
{
    let mut i: usize = 0;
    while i < s.len()
        invariant
            i <= s@.len(),
            acc@ == old(acc)@ + s@.take(i as int),
        decreases s@.len() - i,
    {
        acc.push(s[i]);
        assert(s@.take(i + 1) =~= s@.take(i as int).push(s@[i as int]));
        i += 1;
    }
    assert(s@.take(s@.len() as int) =~= s@);
}

/// Joins pieces with a separator.
pub fn join_chars(parts: &Vec<Vec<char>>, d: &[char]) -> (r: Vec<char>)
    ensures
        r@ == join(views(parts@), d@),
{
    let mut r: Vec<char> = Vec::new();
    let mut i: usize = 0;
    assert(views(parts@).take(0) =~= Seq::<Seq<char>>::empty());
    while i < parts.len()
        invariant
            i <= parts@.len(),
            r@ == join(views(parts@).take(i as int), d@),
        decreases parts@.len() - i,
    {
        let ghost pre = views(parts@).take(i as int);
        let ghost next = views(parts@).take(i + 1);
        assert(next.drop_last() =~= pre);
        assert(next.last() == parts@[i as int]@);
        if i > 0 {
            append_chars(&mut r, d);
        } else {
            assert(pre.len() == 0);
        }
        append_chars(&mut r, parts[i].as_slice());
        if i == 0 {
            assert(r@ =~= next[0]);
        }
        i += 1;
    }
    assert(views(parts@).take(parts@.len() as int) =~= views(parts@));
    r
}

/// The pieces selected by 1-based positions, in the order of the positions;
/// positions past the end select nothing.
pub open spec fn select(parts: Seq<Seq<char>>, positions: Seq<usize>) -> Seq<Seq<char>>
    decreases positions.len(),
{
    if positions.len() == 0 {
        Seq::empty()
    } else {
        let r = select(parts, positions.drop_last());
        let k = positions.last() - 1;
        if k < parts.len() { r.push(parts[k]) } else { r }
    }
}

/// The characters selected by 1-based positions, in the order of the positions.
pub open spec fn select_chars(chars: Seq<char>, positions: Seq<usize>) -> Seq<char>
    decreases positions.len(),
{
    if positions.len() == 0 {
        Seq::empty()
    } else {
        let r = select_chars(chars, positions.drop_last());
        let k = positions.last() - 1;
        if k < chars.len() { r.push(chars[k]) } else { r }
    }
}

/// Every position is at least 1.
pub open spec fn one_based(positions: Seq<usize>) -> bool {
    forall|i: int| 0 <= i < positions.len() ==> #[trigger] positions[i] >= 1
}

/// `cut_fields`: the line split at the delimiter, the fields at the given
/// positions joined again with the delimiter. Position 0 has no field (the
/// subtraction that finds its index would underflow), so positions start at 1.
pub fn cut_fields(line: &str, delimiter: &str, fields: &[usize]) -> (r: String)
    requires
        one_based(fields@),
    ensures
        r@ == join(select(split_str(line@, delimiter@), fields@), delimiter@),
{
    let lc = chars_of(line);
    let dc = chars_of(delimiter);
    let parts = split_at_str(lc.as_slice(), dc.as_slice());
    let mut chosen: Vec<Vec<char>> = Vec::new();
    let mut i: usize = 0;
    assert(fields@.take(0) =~= Seq::<usize>::empty());
    while i < fields.len()
        invariant
            i <= fields@.len(),
            one_based(fields@),
            views(parts@) == split_str(line@, delimiter@),
            views(chosen@) == select(views(parts@), fields@.take(i as int)),
        decreases fields@.len() - i,
    {
        let f = fields[i];
        assert(fields@[i as int] >= 1);
        assert(fields@.take(i + 1).drop_last() =~= fields@.take(i as int));
        if f - 1 < parts.len() {
            let piece = parts[f - 1].clone();
            chosen.push(piece);
            assert(views(chosen@) =~= select(views(parts@), fields@.take(i as int)).push(views(parts@)[f - 1]));
        }
        i += 1;
    }
    assert(fields@.take(fields@.len() as int) =~= fields@);
    let joined = join_chars(&chosen, dc.as_slice());
    string_of(joined.as_slice())
}

/// `cut_characters`: the characters at the given 1-based positions, in the
/// order of the positions.
pub fn cut_characters(line: &str, positions: &[usize]) -> (r: String)
    requires
        one_based(positions@),
    ensures
        r@ == select_chars(line@, positions@),
{
    let lc = chars_of(line);
    let mut out: Vec<char> = Vec::new();
    let mut i: usize = 0;
    assert(positions@.take(0) =~= Seq::<usize>::empty());
    while i < positions.len()
        invariant
            lc@ == line@,
            i <= positions@.len(),
            one_based(positions@),
            out@ == select_chars(line@, positions@.take(i as int)),
        decreases positions@.len() - i,
    {
        let p = positions[i];
        assert(positions@[i as int] >= 1);
        assert(positions@.take(i + 1).drop_last() =~= positions@.take(i as int));
        if p - 1 < lc.len() {
            out.push(lc[p - 1]);
        }
        i += 1;
    }
    assert(positions@.take(positions@.len() as int) =~= positions@);
    string_of(out.as_slice())
}

/// What `cut` prints for a line: the selected fields when a field list is
/// given, else the selected characters when a character list is given, else
/// the line itself.
pub open spec fn cut_line_spec(line: Seq<char>, delimiter: Seq<char>, fields: Seq<usize>, chars: Seq<usize>) -> Seq<char> {
    if fields.len() > 0 {
        join(select(split_str(line, delimiter), fields), delimiter)
    } else if chars.len() > 0 {
        select_chars(line, chars)
    } else {
        line
    }
}

/// `cut`'s per-line step (the choice made in `process_lines`).
pub fn cut_line(line: &str, delimiter: &str, fields: &[usize], chars: &[usize]) -> (r: String)
    requires
        fields@.len() > 0 ==> one_based(fields@),
        fields@.len() == 0 && chars@.len() > 0 ==> one_based(chars@),
    ensures
        r@ == cut_line_spec(line@, delimiter@, fields@, chars@),
{
    if fields.len() > 0 {
        cut_fields(line, delimiter, fields)
    } else if chars.len() > 0 {
        cut_characters(line, chars)
    } else {
        crate::text::owned(line)
    }
}

/// Whether a position list can be used (none of its positions is 0).
pub fn all_one_based(positions: &[usize]) -> (r: bool)
    ensures
        r == one_based(positions@),
{
    let mut i: usize = 0;
    while i < positions.len()
        invariant
            i <= positions@.len(),
            forall|k: int| 0 <= k < i ==> #[trigger] positions@[k] >= 1,
        decreases positions@.len() - i,
    {
        if positions[i] == 0 {
            return false;
        }
        i += 1;
    }
    true
}

/// A bound of an `a-b` range: its number, or 1 when it does not parse.
pub open spec fn bound_or_one(s: Seq<char>) -> int {
    match parse_usize_spec(s) {
        Some(v) => v as int,
        None => 1,
    }
}

/// Whether one comma-separated part of a position list covers the 1-based
/// position `n` (0 is no position): a part with a `-` covers the inclusive
/// range of its two bounds (when it has exactly two), any other part covers the
/// number it parses to.
pub open spec fn part_covers(part: Seq<char>, n: int) -> bool {
    n >= 1 && if part.contains('-') {
        let b = split_char(part, '-');
        b.len() == 2 && bound_or_one(b[0]) <= n <= bound_or_one(b[1])
    } else {
        parse_usize_spec(part) matches Some(v) && v as int == n
    }
}

/// Whether the position list `s` covers `n`.
pub open spec fn list_covers(s: Seq<char>, n: int) -> bool {
    exists|k: int| 0 <= k < split_char(s, ',').len() && part_covers(#[trigger] split_char(s, ',')[k], n)
}

pub open spec fn strictly_increasing(v: Seq<usize>) -> bool {
    forall|i: int, j: int| 0 <= i < j < v.len() ==> v[i] < v[j]
}

/// Inserts `x` into a strictly increasing vector unless it is already there.
fn insert_sorted(v: &mut Vec<usize>, x: usize)
    requires
        strictly_increasing(old(v)@),
    ensures
        strictly_increasing(final(v)@),
        forall|n: usize| final(v)@.contains(n) <==> (old(v)@.contains(n) || n == x),
{
    let mut p: usize = 0;
    while p < v.len() && v[p] < x
        invariant
            p <= v@.len(),
            v@ == old(v)@,
            forall|k: int| 0 <= k < p ==> v@[k] < x,
        decreases v@.len() - p,
    {
        p += 1;
    }
    if p < v.len() && v[p] == x {
        assert(v@[p as int] == x);
        return;
    }
    let ghost old_v = v@;
    assert(old_v == old(v)@);
    v.insert(p, x);
    assert(v@ =~= old_v.insert(p as int, x));
    assert forall|i: int, j: int| 0 <= i < j < v@.len() implies v@[i] < v@[j] by {
        if j < p {
        } else if j == p {
        } else if i < p {
            assert(v@[j] == old_v[j - 1]);
            assert(old_v[j - 1] >= x) by {
                if old_v[j - 1] < x {
                    assert(old_v[p as int] <= old_v[j - 1]);
                }
            }
        } else if i == p {
            assert(v@[j] == old_v[j - 1]);
            assert(old_v[p as int] > x);
        } else {
            assert(v@[i] == old_v[i - 1]);
            assert(v@[j] == old_v[j - 1]);
        }
    }
    assert forall|n: usize| #[trigger] v@.contains(n) <==> (old_v.contains(n) || n == x) by {
        if v@.contains(n) {
            let k = choose|k: int| 0 <= k < v@.len() && v@[k] == n;
            if k < p {
                assert(old_v[k] == n);
            } else if k > p {
                assert(old_v[k - 1] == n);
            }
        }
        if old_v.contains(n) {
            let k = choose|k: int| 0 <= k < old_v.len() && old_v[k] == n;
            if k < p {
                assert(v@[k] == n);
            } else {
                assert(v@[k + 1] == n);
            }
        }
        if n == x {
            assert(v@[p as int] == n);
        }
    }
}

fn bound_value(s: &[char]) -> (v: usize)
    ensures
        v as int == bound_or_one(s@),
{
    match parse_usize(s) {
        Some(v) => v,
        None => 1,
    }
}

fn has_char(s: &[char], c: char) -> (b: bool)
    ensures
        b == s@.contains(c),
{
    let mut i: usize = 0;
    while i < s.len()
        invariant
            i <= s@.len(),
            forall|k: int| 0 <= k < i ==> s@[k] != c,
        decreases s@.len() - i,
    {
        if s[i] == c {
            return true;
        }
        i += 1;
    }
    false
}

proof fn lemma_cover_step(
    ps: Seq<Seq<char>>,
    k: int,
    before: Seq<usize>,
    after: Seq<usize>,
    extra: spec_fn(usize) -> bool,
)
    requires
        0 <= k < ps.len(),
        forall|n: usize| before.contains(n) <==>
            exists|j: int| 0 <= j < k && part_covers(#[trigger] ps[j], n as int),
        forall|n: usize| after.contains(n) <==> (before.contains(n) || extra(n)),
        forall|n: usize| extra(n) <==> part_covers(ps[k], n as int),
    ensures
        forall|n: usize| after.contains(n) <==>
            exists|j: int| 0 <= j < k + 1 && part_covers(#[trigger] ps[j], n as int),
{
    assert forall|n: usize| after.contains(n) <==>
        exists|j: int| 0 <= j < k + 1 && part_covers(#[trigger] ps[j], n as int) by {
        if after.contains(n) {
            if before.contains(n) {
                let j = choose|j: int| 0 <= j < k && part_covers(#[trigger] ps[j], n as int);
                assert(0 <= j < k + 1 && part_covers(ps[j], n as int));
            } else {
                assert(extra(n));
                assert(part_covers(ps[k], n as int));
            }
        }
        if exists|j: int| 0 <= j < k + 1 && part_covers(#[trigger] ps[j], n as int) {
            let j = choose|j: int| 0 <= j < k + 1 && part_covers(#[trigger] ps[j], n as int);
            if j < k {
                assert(before.contains(n));
            } else {
                assert(extra(n));
            }
        }
    }
}

/// `parse_ranges`: the 1-based positions a list such as `1,3` or `1-3` stands
/// for, each once, in increasing order. Ranges include both ends; a bound that
/// is not a number counts as 1; a part with more than one `-` and a part that
/// is not a number stand for nothing, and 0 is no position.
pub fn parse_ranges(input: &str) -> (r: Vec<usize>)
    ensures
        strictly_increasing(r@),
        one_based(r@),
        forall|n: usize| r@.contains(n) <==> list_covers(input@, n as int),
{
    let ic = chars_of(input);
    let parts = split_at_char(ic.as_slice(), ',');
    let ghost ps = split_char(input@, ',');
    let mut ranges: Vec<usize> = Vec::new();
    let mut k: usize = 0;
    while k < parts.len()
        invariant
            views(parts@) == ps,
            ps == split_char(input@, ','),
            k <= parts@.len(),
            strictly_increasing(ranges@),
            forall|n: usize| ranges@.contains(n) <==>
                exists|j: int| 0 <= j < k && part_covers(#[trigger] ps[j], n as int),
        decreases parts@.len() - k,
    {
        let part = &parts[k];
        let ghost before = ranges@;
        assert(forall|n: usize| before.contains(n) <==>
            exists|j: int| 0 <= j < k && part_covers(#[trigger] ps[j], n as int));
        assert(ps[k as int] == part@);
        if has_char(part.as_slice(), '-') {
            let bounds = split_at_char(part.as_slice(), '-');
            if bounds.len() == 2 {
                let start = bound_value(bounds[0].as_slice());
                let end = bound_value(bounds[1].as_slice());
                assert(split_char(part@, '-') == views(bounds@));
                assert(views(bounds@)[0] == bounds@[0]@);
                assert(views(bounds@)[1] == bounds@[1]@);
                if start <= end {
                    let mut i: usize = start;
                    loop
                        invariant_except_break
                            start <= i <= end,
                            strictly_increasing(ranges@),
                            forall|n: usize| ranges@.contains(n) <==> (before.contains(n) || (start <= n < i && n >= 1)),
                        ensures
                            strictly_increasing(ranges@),
                            forall|n: usize| ranges@.contains(n) <==> (before.contains(n) || (start <= n <= end && n >= 1)),
                        decreases end - i,
                    {
                        if i >= 1 {
                            insert_sorted(&mut ranges, i);
                        }
                        if i == end {
                            break;
                        }
                        i += 1;
                    }
                }
                assert(forall|n: usize| ranges@.contains(n) <==> (before.contains(n) || (start <= n <= end && n >= 1)));
                proof {
                    let extra = |n: usize| start <= n <= end && n >= 1;
                    assert forall|n: usize| extra(n) <==> part_covers(ps[k as int], n as int) by {}
                    assert forall|n: usize| ranges@.contains(n) <==> (before.contains(n) || extra(n)) by {}
                    lemma_cover_step(ps, k as int, before, ranges@, extra);
                }
            } else {
                proof {
                    let extra = |n: usize| false;
                    assert forall|n: usize| extra(n) <==> part_covers(ps[k as int], n as int) by {}
                    assert forall|n: usize| ranges@.contains(n) <==> (before.contains(n) || extra(n)) by {}
                    lemma_cover_step(ps, k as int, before, ranges@, extra);
                }
            }
        } else {
            let parsed = parse_usize(part.as_slice());
            if let Some(n0) = parsed {
                if n0 >= 1 {
                    insert_sorted(&mut ranges, n0);
                }
            }
            proof {
                let extra = |n: usize| parsed == Some(n) && n >= 1;
                assert forall|n: usize| extra(n) <==> part_covers(ps[k as int], n as int) by {}
                assert forall|n: usize| ranges@.contains(n) <==> (before.contains(n) || extra(n)) by {}
                lemma_cover_step(ps, k as int, before, ranges@, extra);
            }
        }
        k += 1;
    }
    assert forall|i: int| 0 <= i < ranges@.len() implies #[trigger] ranges@[i] >= 1 by {
        assert(ranges@.contains(ranges@[i]));
    }
    ranges
}

proof fn lemma_join_cons(x: Seq<char>, rest: Seq<Seq<char>>, d: Seq<char>)
    requires
        rest.len() >= 1,
    ensures
        join(seq![x] + rest, d) == x + d + join(rest, d),
    decreases rest.len(),
{
    let all = seq![x] + rest;
    assert(all.drop_last() =~= seq![x] + rest.drop_last());
    assert(all.last() == rest.last());
    if rest.len() == 1 {
        assert(seq![x].len() == 1);
        assert(join(seq![x], d) == x);
        assert(join(rest, d) == rest[0]);
    } else {
        lemma_join_cons(x, rest.drop_last(), d);
        assert(x + d + join(rest.drop_last(), d) + d + rest.last() =~= x + d + (join(rest.drop_last(), d) + d + rest.last()));
    }
}

proof fn lemma_split_scan_nonempty(s: Seq<char>, d: Seq<char>, start: int, i: int)
    requires
        0 <= start <= i,
        d.len() > 0,
    ensures
        split_scan(s, d, start, i).len() >= 1,
    decreases s.len() - i,
{
    if i + d.len() > s.len() {
    } else if occurs_at(s, d, i) {
    } else {
        lemma_split_scan_nonempty(s, d, start, i + 1);
    }
}

proof fn lemma_join_split_scan(s: Seq<char>, d: Seq<char>, start: int, i: int)
    requires
        0 <= start <= i,
        start <= s.len(),
        d.len() > 0,
    ensures
        join(split_scan(s, d, start, i), d) == s.subrange(start, s.len() as int),
    decreases s.len() - i,
{
    if i + d.len() > s.len() {
    } else if occurs_at(s, d, i) {
        let rest = split_scan(s, d, i + d.len(), i + d.len());
        lemma_split_scan_nonempty(s, d, i + d.len(), i + d.len());
        lemma_join_split_scan(s, d, i + d.len(), i + d.len());
        lemma_join_cons(s.subrange(start, i), rest, d);
        assert(s.subrange(i, i + d.len()) == d);
        assert(s.subrange(start, i) + d + s.subrange(i + d.len(), s.len() as int) =~= s.subrange(start, s.len() as int));
    } else {
        lemma_join_split_scan(s, d, start, i + 1);
    }
}

proof fn lemma_join_singles(s: Seq<char>, k: int)
    requires
        0 <= k <= s.len(),
    ensures
        join(seq![Seq::<char>::empty()] + Seq::new(k as nat, |j: int| seq![s[j]]), Seq::empty()) == s.take(k),
    decreases k,
{
    let parts = seq![Seq::<char>::empty()] + Seq::new(k as nat, |j: int| seq![s[j]]);
    if k == 0 {
        assert(parts =~= seq![Seq::<char>::empty()]);
        assert(s.take(0) =~= Seq::<char>::empty());
    } else {
        lemma_join_singles(s, k - 1);
        assert(parts.drop_last() =~= seq![Seq::<char>::empty()] + Seq::new((k - 1) as nat, |j: int| seq![s[j]]));
        assert(parts.last() == seq![s[k - 1]]);
        assert(s.take(k - 1) + Seq::<char>::empty() + seq![s[k - 1]] =~= s.take(k));
    }
}

/// Splitting at a delimiter and joining the pieces again with it gives the
/// text back, for every delimiter (the empty one included).
pub proof fn lemma_join_split(s: Seq<char>, d: Seq<char>)
    ensures
        join(split_str(s, d), d) == s,
{
    if d.len() == 0 {
        let singles = Seq::new(s.len(), |j: int| seq![s[j]]);
        let parts = seq![Seq::<char>::empty()] + singles + seq![Seq::<char>::empty()];
        assert(parts.drop_last() =~= seq![Seq::<char>::empty()] + singles);
        lemma_join_singles(s, s.len() as int);
        assert(d =~= Seq::<char>::empty());
        assert(seq![Seq::<char>::empty()] + Seq::new((s.len() as int) as nat, |j: int| seq![s[j]]) =~= parts.drop_last());
        assert(s.take(s.len() as int) =~= s);
        assert(join(parts.drop_last(), d) == s);
        assert(parts.last() =~= Seq::<char>::empty());
        assert(join(parts, d) == join(parts.drop_last(), d) + d + parts.last());
        assert(join(parts.drop_last(), d) + d + parts.last() =~= s);
    } else {
        lemma_join_split_scan(s, d, 0, 0);
        assert(s.subrange(0, s.len() as int) =~= s);
    }
}

/// The positions `1..=n`.
pub open spec fn first_positions(n: nat) -> Seq<usize> {
    Seq::new(n, |i: int| (i + 1) as usize)
}

proof fn lemma_select_first(parts: Seq<Seq<char>>, n: nat)
    requires
        n <= usize::MAX,
    ensures
        select(parts, first_positions(n)) == parts.take(if n <= parts.len() { n as int } else { parts.len() as int }),
    decreases n,
{
    if n == 0 {
        assert(parts.take(0) =~= Seq::<Seq<char>>::empty());
    } else {
        let ps = first_positions(n);
        assert(ps.drop_last() =~= first_positions((n - 1) as nat));
        lemma_select_first(parts, (n - 1) as nat);
        if n <= parts.len() {
            assert(parts.take(n - 1).push(parts[n - 1]) =~= parts.take(n as int));
        }
    }
}

/// Asking `cut` for every field, `-f 1-n` with `n` at least the number of
/// fields, prints the line as it is.
pub proof fn lemma_all_fields_give_line(line: Seq<char>, delimiter: Seq<char>, n: nat, chars: Seq<usize>)
    requires
        split_str(line, delimiter).len() <= n <= usize::MAX,
    ensures
        cut_line_spec(line, delimiter, first_positions(n), chars) == line,
{
    let parts = split_str(line, delimiter);
    lemma_select_first(parts, n);
    assert(parts.take(parts.len() as int) =~= parts);
    lemma_join_split(line, delimiter);
    if n == 0 {
        if delimiter.len() == 0 {
        } else {
            lemma_split_scan_nonempty(line, delimiter, 0, 0);
        }
    }
}

} // verus!
