//! Character sets and per-line translation for `tr`.
use vstd::prelude::*;
use crate::text::{chars_of, string_of};

verus! {

/// A Unicode scalar value: a code point outside the surrogate block.
pub open spec fn is_scalar_code(n: int) -> bool {
    (0 <= n < 0xD800) || (0xE000 <= n <= 0x10FFFF)
}

/// The character with a given scalar value (`char::from_u32`).
#[verifier::external_body]
fn char_from_code(n: u32) -> (c: char)
    requires
        is_scalar_code(n as int),
    ensures
        c as u32 == n,
{
    char::from_u32(n).unwrap()
}

/// The characters whose code points lie in `lo..=hi`, in increasing order
/// (surrogate code points have no character and are passed over).
pub open spec fn code_range(lo: int, hi: int) -> Seq<char>
    decreases hi - lo + 1,
{
    if lo > hi {
        Seq::empty()
    } else if is_scalar_code(lo) {
        seq![(lo as u32) as char] + code_range(lo + 1, hi)
    } else {
        code_range(lo + 1, hi)
    }
}

/// The characters a set description stands for, before duplicates are dropped:
/// `x-y` stands for every character from `x` to `y` (none when `x > y`), any
/// other character for itself.
pub open spec fn expand_set(s: Seq<char>) -> Seq<char>
    decreases s.len(),
{
    if s.len() == 0 {
        Seq::empty()
    } else if 2 < s.len() && s[1] == '-' {
        code_range(s[0] as u32 as int, s[2] as u32 as int) + expand_set(s.skip(3))
    } else {
        seq![s[0]] + expand_set(s.skip(1))
    }
}

/// `acc` extended by the characters of `s` not seen before, in order.
pub open spec fn add_new(acc: Seq<char>, s: Seq<char>) -> Seq<char>
    decreases s.len(),
{
    if s.len() == 0 {
        acc
    } else if acc.contains(s[0]) {
        add_new(acc, s.drop_first())
    } else {
        add_new(acc.push(s[0]), s.drop_first())
    }
}

/// `parse_char_set`: the characters of the description, ranges expanded, each
/// kept at its first occurrence.
pub open spec fn char_set(s: Seq<char>) -> Seq<char> {
    add_new(Seq::empty(), expand_set(s))
}

pub open spec fn no_dups(s: Seq<char>) -> bool {
    forall|i: int, j: int| 0 <= i < j < s.len() ==> s[i] != s[j]
}

proof fn lemma_add_new_props(acc: Seq<char>, s: Seq<char>)
    requires
        no_dups(acc),
    ensures
        no_dups(add_new(acc, s)),
        forall|c: char| add_new(acc, s).contains(c) <==> (acc.contains(c) || s.contains(c)),
    decreases s.len(),
{
    if s.len() > 0 {
        let x = s[0];
        let rest = s.drop_first();
        let next = if acc.contains(x) { acc } else { acc.push(x) };
        assert(add_new(acc, s) == add_new(next, rest));
        if !acc.contains(x) {
            assert forall|i: int, j: int| 0 <= i < j < next.len() implies next[i] != next[j] by {
                if j == acc.len() {
                    assert(acc[i] == next[i]);
                }
            }
            assert(next[acc.len() as int] == x);
        }
        assert(next.contains(x));
        assert forall|c: char| next.contains(c) <==> (acc.contains(c) || c == x) by {
            if acc.contains(c) {
                let k = choose|k: int| 0 <= k < acc.len() && acc[k] == c;
                assert(next[k] == c);
            }
            if next.contains(c) && !acc.contains(x) {
                let k = choose|k: int| 0 <= k < next.len() && next[k] == c;
                if k < acc.len() {
                    assert(acc[k] == c);
                }
            }
        }
        assert forall|c: char| s.contains(c) <==> (c == x || rest.contains(c)) by {
            if s.contains(c) && c != x {
                let k = choose|k: int| 0 <= k < s.len() && s[k] == c;
                assert(rest[k - 1] == c);
            }
            if rest.contains(c) {
                let k = choose|k: int| 0 <= k < rest.len() && rest[k] == c;
                assert(s[k + 1] == c);
            }
            if c == x {
                assert(s[0] == c);
            }
        }
        lemma_add_new_props(next, rest);
    }
}

/// The set has no repeated character and holds exactly the described ones.
pub proof fn lemma_char_set_props(s: Seq<char>)
    ensures
        no_dups(char_set(s)),
        forall|c: char| char_set(s).contains(c) <==> expand_set(s).contains(c),
{
    lemma_add_new_props(Seq::empty(), expand_set(s));
}

fn contains_char(v: &[char], c: char) -> (b: bool)
    ensures
        b == v@.contains(c),
{
    let mut i: usize = 0;
    while i < v.len()
        invariant
            i <= v@.len(),
            forall|k: int| 0 <= k < i ==> v@[k] != c,
        decreases v@.len() - i,
    {
        if v[i] == c {
            return true;
        }
        i += 1;
    }
    false
}

/// `parse_char_set`: `a-z`-style ranges are expanded, single characters are
/// collected in order, and each character is kept once.
pub fn parse_char_set(input: &str) -> (r: Vec<char>)
    ensures
        r@ == char_set(input@),
        no_dups(r@),
        forall|c: char| r@.contains(c) <==> expand_set(input@).contains(c),
{
    let ic = chars_of(input);
    let ghost s = input@;
    let mut chars: Vec<char> = Vec::new();
    let mut i: usize = 0;
    assert(s.skip(0) =~= s);
    while i < ic.len()
        invariant
            ic@ == s,
            i <= s.len(),
            add_new(chars@, expand_set(s.skip(i as int))) == char_set(s),
        decreases s.len() - i,
    {
        let ghost rest = s.skip(i as int);
        if ic.len() >= 3 && i < ic.len() - 2 && ic[i + 1] == '-' {
            let start = ic[i];
            let end = ic[i + 2];
            assert(rest[0] == start && rest[1] == '-' && rest[2] == end);
            assert(rest.skip(3) =~= s.skip(i + 3));
            let ghost tail = expand_set(s.skip(i + 3));
            let lo = start as u32;
            let hi = end as u32;
            proof {
                vstd::utf8::char_is_scalar(start);
                vstd::utf8::char_is_scalar(end);
            }
            assert(expand_set(rest) == code_range(lo as int, hi as int) + tail);
            if lo <= hi {
                let mut code: u32 = lo;
                loop
                    invariant_except_break
                        lo <= code <= hi,
                        hi <= 0x10FFFF,
                        add_new(chars@, code_range(code as int, hi as int) + tail) == char_set(s),
                    ensures
                        add_new(chars@, tail) == char_set(s),
                    decreases hi - code,
                {
                    if code < 0xD800 || 0xE000 <= code {
                        let c = char_from_code(code);
                        proof { vstd::utf8::char_u32_cast(c, code); }
                        assert(c == (code as int as u32) as char);
                        let ghost whole = code_range(code as int, hi as int) + tail;
                        assert(whole =~= seq![c] + (code_range(code + 1, hi as int) + tail));
                        assert(whole[0] == c);
                        assert(whole.drop_first() =~= code_range(code + 1, hi as int) + tail);
                        if !contains_char(chars.as_slice(), c) {
                            chars.push(c);
                        }
                    } else {
                        assert(code_range(code as int, hi as int) =~= code_range(code + 1, hi as int));
                    }
                    if code == hi {
                        assert(code_range(hi + 1, hi as int) =~= Seq::<char>::empty());
                        assert(Seq::<char>::empty() + tail =~= tail);
                        break;
                    }
                    code += 1;
                }
            } else {
                assert(code_range(lo as int, hi as int) =~= Seq::<char>::empty());
                assert(Seq::<char>::empty() + tail =~= tail);
            }
            i += 3;
        } else {
            let c = ic[i];
            assert(rest.skip(1) =~= s.skip(i + 1));
            assert(expand_set(rest) =~= seq![c] + expand_set(s.skip(i + 1)));
            assert(expand_set(rest)[0] == c);
            assert(expand_set(rest).drop_first() =~= expand_set(s.skip(i + 1)));
            if !contains_char(chars.as_slice(), c) {
                chars.push(c);
            }
            i += 1;
        }
    }
    proof {
        assert(s.skip(i as int).len() == 0);
        lemma_char_set_props(s);
    }
    chars
}

/// The position of the first occurrence of `c` in `s`, if any.
pub open spec fn first_index(s: Seq<char>, c: char) -> Option<int>
    decreases s.len(),
{
    if s.len() == 0 {
        None
    } else if s[0] == c {
        Some(0)
    } else {
        match first_index(s.drop_first(), c) {
            Some(k) => Some(k + 1),
            None => None,
        }
    }
}

/// How `translate` maps one character: a character of `from` at position `k`
/// becomes `to[k]`, or the last character of `to` when `to` is shorter; any
/// other character stays.
pub open spec fn translated_char(c: char, from: Seq<char>, to: Seq<char>) -> char {
    match first_index(from, c) {
        Some(k) => if k < to.len() { to[k] } else { to.last() },
        None => c,
    }
}

proof fn lemma_first_index_props(s: Seq<char>, c: char)
    ensures
        first_index(s, c) is None <==> !s.contains(c),
        first_index(s, c) matches Some(k) ==> 0 <= k < s.len() && s[k] == c
            && forall|j: int| 0 <= j < k ==> s[j] != c,
    decreases s.len(),
{
    if s.len() > 0 {
        lemma_first_index_props(s.drop_first(), c);
        if s[0] != c {
            if s.contains(c) {
                let k = choose|k: int| 0 <= k < s.len() && s[k] == c;
                assert(s.drop_first()[k - 1] == c);
            }
            if s.drop_first().contains(c) {
                let k = choose|k: int| 0 <= k < s.drop_first().len() && s.drop_first()[k] == c;
                assert(s[k + 1] == c);
            }
            if first_index(s, c) is Some {
                let k = first_index(s, c)->0;
                assert forall|j: int| 0 <= j < k implies s[j] != c by {
                    if j > 0 {
                        assert(s[j] == s.drop_first()[j - 1]);
                    }
                }
            }
        }
    }
}

fn position_of(from: &[char], c: char) -> (r: Option<usize>)
    ensures
        match r {
            Some(k) => first_index(from@, c) == Some(k as int),
            None => first_index(from@, c) is None,
        },
{
    proof { lemma_first_index_props(from@, c); }
    let mut i: usize = 0;
    while i < from.len()
        invariant
            i <= from@.len(),
            forall|k: int| 0 <= k < i ==> from@[k] != c,
            first_index(from@, c) is None <==> !from@.contains(c),
            first_index(from@, c) matches Some(k) ==> 0 <= k < from@.len() && from@[k] == c
                && forall|j: int| 0 <= j < k ==> from@[j] != c,
        decreases from@.len() - i,
    {
        if from[i] == c {
            proof {
                let k = first_index(from@, c)->0;
                assert(k == i);
            }
            return Some(i);
        }
        i += 1;
    }
    None
}

/// How `tr` maps one character: where `c` first occurs in `from` at position
/// `k`, it becomes `to[k]`, or the last character of `to` when `to` has no
/// position `k`; a character that is not in `from` stays as it is.
pub proof fn lemma_translated_char(c: char, from: Seq<char>, to: Seq<char>)
    ensures
        forall|k: int| 0 <= k < from.len() && from[k] == c && (forall|j: int| 0 <= j < k ==> from[j] != c)
            && to.len() > 0 ==> translated_char(c, from, to) == (if k < to.len() { to[k] } else { to[to.len() - 1] }),
        !from.contains(c) ==> translated_char(c, from, to) == c,
{
    lemma_first_index_props(from, c);
    assert forall|k: int| 0 <= k < from.len() && from[k] == c && (forall|j: int| 0 <= j < k ==> from[j] != c)
        && to.len() > 0 implies translated_char(c, from, to) == (if k < to.len() { to[k] } else { to[to.len() - 1] }) by {
        assert(from.contains(c));
        let f = first_index(from, c)->0;
        if f < k {
            assert(from[f] == c);
        } else if f > k {
            assert(from[k] != c);
        }
    }
}

/// Whether some character of `line` occurs in `set`.
pub open spec fn meets(line: Seq<char>, set: Seq<char>) -> bool {
    exists|i: int| 0 <= i < line.len() && set.contains(#[trigger] line[i])
}

/// `translate`: each character of `line` mapped by `translated_char`. An empty
/// `to` is only allowed when no character of `line` is in `from` (otherwise the
/// mapping would index past the end of `to`).
pub fn translate(line: &str, from: &[char], to: &[char]) -> (r: String)
    requires
        to@.len() > 0 || !meets(line@, from@),
    ensures
        r@.len() == line@.len(),
        forall|i: int| 0 <= i < line@.len() ==> #[trigger] r@[i] == translated_char(line@[i], from@, to@),
        forall|i: int, k: int| #![trigger r@[i], from@[k]]
            0 <= i < line@.len() && 0 <= k < from@.len() && from@[k] == line@[i]
            && (forall|j: int| 0 <= j < k ==> from@[j] != line@[i])
            ==> r@[i] == (if k < to@.len() { to@[k] } else { to@[to@.len() - 1] }),
        forall|i: int| 0 <= i < line@.len() && !from@.contains(line@[i]) ==> #[trigger] r@[i] == line@[i],
{
    let lc = chars_of(line);
    let mut out: Vec<char> = Vec::new();
    let mut i: usize = 0;
    while i < lc.len()
        invariant
            lc@ == line@,
            i <= lc@.len(),
            out@.len() == i,
            to@.len() > 0 || !meets(line@, from@),
            forall|k: int| 0 <= k < i ==> #[trigger] out@[k] == translated_char(line@[k], from@, to@),
        decreases lc@.len() - i,
    {
        let c = lc[i];
        let mapped = match position_of(from, c) {
            Some(idx) => {
                proof {
                    lemma_first_index_props(from@, c);
                    assert(from@.contains(c));
                    if to@.len() == 0 {
                        assert(meets(line@, from@));
                    }
                }
                if idx < to.len() {
                    to[idx]
                } else {
                    to[to.len() - 1]
                }
            },
            None => c,
        };
        out.push(mapped);
        i += 1;
    }
    let r = string_of(out.as_slice());
    proof {
        assert forall|i: int| 0 <= i < line@.len() implies
            (forall|k: int| 0 <= k < from@.len() && from@[k] == line@[i]
                && (forall|j: int| 0 <= j < k ==> from@[j] != line@[i])
                ==> r@[i] == (if k < to@.len() { to@[k] } else { to@[to@.len() - 1] }))
            && (!from@.contains(line@[i]) ==> r@[i] == line@[i]) by {
            lemma_translated_char(line@[i], from@, to@);
            if to@.len() == 0 && from@.contains(line@[i]) {
                assert(meets(line@, from@));
            }
        }
    }
    r
}

/// The characters of `line` that are not in `set`, in order.
pub open spec fn without(line: Seq<char>, set: Seq<char>) -> Seq<char>
    decreases line.len(),
{
    if line.len() == 0 {
        line
    } else if set.contains(line.last()) {
        without(line.drop_last(), set)
    } else {
        without(line.drop_last(), set).push(line.last())
    }
}

/// `delete_chars`: the line with every character of `chars` removed.
pub fn delete_chars(line: &str, chars: &[char]) -> (r: String)
    ensures
        r@ == without(line@, chars@),
{
    let lc = chars_of(line);
    let mut out: Vec<char> = Vec::new();
    let mut i: usize = 0;
    assert(line@.take(0) =~= Seq::<char>::empty());
    while i < lc.len()
        invariant
            lc@ == line@,
            i <= lc@.len(),
            out@ == without(line@.take(i as int), chars@),
        decreases lc@.len() - i,
    {
        let c = lc[i];
        assert(line@.take(i + 1).drop_last() =~= line@.take(i as int));
        if !contains_char(chars, c) {
            out.push(c);
        }
        i += 1;
    }
    assert(line@.take(lc@.len() as int) =~= line@);
    string_of(out.as_slice())
}

/// What `tr` prints for one input line: with `-d` the line without the
/// characters of `set1`; with a second set, the line with each character of
/// `set1` replaced by its counterpart there; otherwise the line itself.
pub open spec fn tr_line_spec(line: Seq<char>, delete: bool, set1: Seq<char>, set2: Option<Seq<char>>) -> Seq<char> {
    if delete {
        without(line, set1)
    } else {
        match set2 {
            Some(s2) => Seq::new(line.len(), |i: int| translated_char(line[i], set1, s2)),
            None => line,
        }
    }
}

/// `tr`'s per-line step. Translation into an empty second set is only allowed
/// when the line holds no character of the first.
pub fn tr_line(line: &str, delete: bool, set1: &[char], set2: Option<&[char]>) -> (r: String)
    requires
        !delete && set2 is Some ==> (set2->0@.len() > 0 || !meets(line@, set1@)),
    ensures
        r@ == tr_line_spec(line@, delete, set1@, match set2 { Some(s) => Some(s@), None => None }),
{
    if delete {
        delete_chars(line, set1)
    } else {
        match set2 {
            Some(s2) => {
                let r = translate(line, set1, s2);
                assert(r@ =~= Seq::new(line@.len(), |i: int| translated_char(line@[i], set1@, s2@)));
                r
            },
            None => crate::text::owned(line),
        }
    }
}

/// Whether translating `line` from `from` into `to` is possible (it is not
/// when `to` is empty and `line` holds a character of `from`).
pub fn can_translate(line: &str, from: &[char], to: &[char]) -> (r: bool)
    ensures
        r == (to@.len() > 0 || !meets(line@, from@)),
{
    if to.len() > 0 {
        return true;
    }
    let lc = chars_of(line);
    let mut i: usize = 0;
    while i < lc.len()
        invariant
            lc@ == line@,
            to@.len() == 0,
            i <= lc@.len(),
            forall|k: int| 0 <= k < i ==> !from@.contains(#[trigger] line@[k]),
        decreases lc@.len() - i,
    {
        if contains_char(from, lc[i]) {
            assert(from@.contains(line@[i as int]));
            assert(meets(line@, from@));
            return false;
        }
        i += 1;
    }
    true
}

/// `tr -d` leaves no character of the set in the line, and keeps every other
/// character.
pub proof fn lemma_delete_leaves_none(line: Seq<char>, set: Seq<char>)
    ensures
        forall|i: int| 0 <= i < without(line, set).len() ==> !set.contains(#[trigger] without(line, set)[i]),
        forall|c: char| line.contains(c) && !set.contains(c) ==> #[trigger] without(line, set).contains(c),
    decreases line.len(),
{
    if line.len() > 0 {
        let init = line.drop_last();
        lemma_delete_leaves_none(init, set);
        let w = without(init, set);
        if set.contains(line.last()) {
            assert(without(line, set) == w);
        } else {
            assert(without(line, set) == w.push(line.last()));
            assert forall|i: int| 0 <= i < without(line, set).len() implies
                !set.contains(#[trigger] without(line, set)[i]) by {
                if i < w.len() {
                    assert(without(line, set)[i] == w[i]);
                }
            }
        }
        assert forall|c: char| line.contains(c) && !set.contains(c) implies #[trigger] without(line, set).contains(c) by {
            let k = choose|k: int| 0 <= k < line.len() && line[k] == c;
            if k < init.len() {
                assert(init[k] == c);
                assert(init.contains(c));
                let w = without(init, set);
                assert(w.contains(c));
                if set.contains(line.last()) {
                    assert(without(line, set) == w);
                } else {
                    assert(without(line, set) == w.push(line.last()));
                    let j = choose|j: int| 0 <= j < w.len() && w[j] == c;
                    assert(without(line, set)[j] == c);
                }
            } else {
                assert(line.last() == c);
                assert(without(line, set).last() == c);
            }
        }
    }
}

} // verus!
