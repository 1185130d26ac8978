//! Orders used by `sort`: code-point order of strings and the numeric order
//! with its fallbacks.
use vstd::prelude::*;
use std::cmp::Ordering;
use crate::text::{chars_of, suffix, suffix_after};

verus! {

/// The code-point order of two character sequences (how `str`'s `Ord` compares,
/// since UTF-8 preserves code-point order).
pub open spec fn seq_cmp(a: Seq<char>, b: Seq<char>) -> Ordering
    decreases a.len(),
{
    if a.len() == 0 {
        if b.len() == 0 { Ordering::Equal } else { Ordering::Less }
    } else if b.len() == 0 {
        Ordering::Greater
    } else if a[0] < b[0] {
        Ordering::Less
    } else if a[0] > b[0] {
        Ordering::Greater
    } else {
        seq_cmp(a.drop_first(), b.drop_first())
    }
}

/// Compares two character sequences in code-point order.
pub fn chars_cmp(a: &[char], b: &[char]) -> (r: Ordering)
    ensures
        r == seq_cmp(a@, b@),
{
    let mut i: usize = 0;
    assert(suffix(a@, 0) =~= a@);
    assert(suffix(b@, 0) =~= b@);
    while i < a.len() && i < b.len()
        invariant
            i <= a@.len(),
            i <= b@.len(),
            seq_cmp(a@, b@) == seq_cmp(suffix(a@, i), suffix(b@, i)),
        decreases a@.len() - i,
    {
        if a[i] < b[i] {
            return Ordering::Less;
        }
        if a[i] > b[i] {
            return Ordering::Greater;
        }
        assert(suffix(a@, i).drop_first() =~= suffix_after(a@, i));
        assert(suffix(b@, i).drop_first() =~= suffix_after(b@, i));
        i += 1;
    }
    if i < a.len() {
        Ordering::Greater
    } else if i < b.len() {
        Ordering::Less
    } else {
        Ordering::Equal
    }
}

/// Code-point order is reflexive.
pub proof fn lemma_seq_cmp_refl(a: Seq<char>)
    ensures
        seq_cmp(a, a) == Ordering::Equal,
    decreases a.len(),
{
    if a.len() > 0 {
        lemma_seq_cmp_refl(a.drop_first());
    }
}

/// Code-point order flips when the arguments are swapped, and is `Equal` only
/// for equal sequences.
pub proof fn lemma_seq_cmp_flip(a: Seq<char>, b: Seq<char>)
    ensures
        (seq_cmp(a, b) == Ordering::Greater) <==> (seq_cmp(b, a) == Ordering::Less),
        (seq_cmp(a, b) == Ordering::Equal) <==> (a == b),
    decreases a.len(),
{
    if a.len() > 0 && b.len() > 0 {
        lemma_seq_cmp_flip(a.drop_first(), b.drop_first());
        if a[0] == b[0] && a.drop_first() == b.drop_first() {
            assert(a =~= seq![a[0]] + a.drop_first());
            assert(b =~= seq![b[0]] + b.drop_first());
        }
        if a == b {
            assert(a.drop_first() =~= b.drop_first());
        }
    } else if a.len() == 0 && b.len() == 0 {
        assert(a =~= b);
    }
}

/// Code-point order is transitive.
pub proof fn lemma_seq_cmp_trans(a: Seq<char>, b: Seq<char>, c: Seq<char>)
    requires
        seq_cmp(a, b) != Ordering::Greater,
        seq_cmp(b, c) != Ordering::Greater,
    ensures
        seq_cmp(a, c) != Ordering::Greater,
        (seq_cmp(a, b) == Ordering::Less || seq_cmp(b, c) == Ordering::Less) ==> seq_cmp(a, c) == Ordering::Less,
    decreases a.len(),
{
    if a.len() > 0 && b.len() > 0 && c.len() > 0 {
        if a[0] == b[0] && b[0] == c[0] {
            lemma_seq_cmp_trans(a.drop_first(), b.drop_first(), c.drop_first());
        }
    }
}

/// What a line's sort key parsed to as a number, as the numeric order reads it:
/// no number at all, NaN, or a number given by a key whose integer order is the
/// order of the numbers (equal numbers, `0` and `-0` among them, have equal keys).
#[derive(Clone, Copy, PartialEq, Eq, Debug)]
pub enum NumKey {
    Invalid,
    NaN,
    Number(u64),
}

/// `numeric_compare`: numbers compare by value (NaN compares equal to every
/// number), a number comes before a non-number, and two non-numbers compare in
/// code-point order.
pub open spec fn num_order(a: Seq<char>, b: Seq<char>, x: NumKey, y: NumKey) -> Ordering {
    match (x, y) {
        (NumKey::Invalid, NumKey::Invalid) => seq_cmp(a, b),
        (NumKey::Invalid, _) => Ordering::Greater,
        (_, NumKey::Invalid) => Ordering::Less,
        (NumKey::Number(p), NumKey::Number(q)) =>
            if p < q { Ordering::Less } else if p > q { Ordering::Greater } else { Ordering::Equal },
        _ => Ordering::Equal,
    }
}

/// `numeric_compare`, with what parsing `a` and `b` as numbers gave.
pub fn numeric_compare(a: &str, b: &str, x: NumKey, y: NumKey) -> (r: Ordering)
    ensures
        r == num_order(a@, b@, x, y),
{
    match (x, y) {
        (NumKey::Invalid, NumKey::Invalid) => str_cmp(a, b),
        (NumKey::Invalid, _) => Ordering::Greater,
        (_, NumKey::Invalid) => Ordering::Less,
        (NumKey::Number(p), NumKey::Number(q)) => {
            if p < q {
                Ordering::Less
            } else if p > q {
                Ordering::Greater
            } else {
                Ordering::Equal
            }
        },
        _ => Ordering::Equal,
    }
}

/// The order `sort` compares two keys with: numeric with `-n`, code-point
/// otherwise.
pub open spec fn key_order(numeric: bool, a: Seq<char>, b: Seq<char>, x: NumKey, y: NumKey) -> Ordering {
    if numeric { num_order(a, b, x, y) } else { seq_cmp(a, b) }
}

pub open spec fn key_lt(numeric: bool, a: Seq<char>, b: Seq<char>, x: NumKey, y: NumKey) -> bool {
    key_order(numeric, a, b, x, y) == Ordering::Less
}

pub open spec fn key_gt(numeric: bool, a: Seq<char>, b: Seq<char>, x: NumKey, y: NumKey) -> bool {
    key_order(numeric, a, b, x, y) == Ordering::Greater
}

/// Compares two keys: whether the first is below, and whether it is above.
pub fn key_relation(numeric: bool, a: &[char], b: &[char], x: NumKey, y: NumKey) -> (r: (bool, bool))
    ensures
        r.0 == key_lt(numeric, a@, b@, x, y),
        r.1 == key_gt(numeric, a@, b@, x, y),
{
    let o = if numeric {
        match (x, y) {
            (NumKey::Invalid, NumKey::Invalid) => chars_cmp(a, b),
            (NumKey::Invalid, _) => Ordering::Greater,
            (_, NumKey::Invalid) => Ordering::Less,
            (NumKey::Number(p), NumKey::Number(q)) => {
                if p < q {
                    Ordering::Less
                } else if p > q {
                    Ordering::Greater
                } else {
                    Ordering::Equal
                }
            },
            _ => Ordering::Equal,
        }
    } else {
        chars_cmp(a, b)
    };
    match o {
        Ordering::Less => (true, false),
        Ordering::Greater => (false, true),
        Ordering::Equal => (false, false),
    }
}

/// Without NaN the key order is a total preorder: reflexive, flipping with
/// its arguments, and transitive.
pub proof fn lemma_key_order_preorder(
    numeric: bool,
    a: Seq<char>, b: Seq<char>, c: Seq<char>,
    x: NumKey, y: NumKey, z: NumKey,
)
    requires
        numeric ==> (x != NumKey::NaN && y != NumKey::NaN && z != NumKey::NaN),
    ensures
        !key_lt(numeric, a, a, x, x) && !key_gt(numeric, a, a, x, x),
        key_gt(numeric, a, b, x, y) <==> key_lt(numeric, b, a, y, x),
        !key_gt(numeric, a, b, x, y) && !key_gt(numeric, b, c, y, z) ==> !key_gt(numeric, a, c, x, z),
        !key_gt(numeric, a, b, x, y) && !key_gt(numeric, b, c, y, z)
            && (key_lt(numeric, a, b, x, y) || key_lt(numeric, b, c, y, z)) ==> key_lt(numeric, a, c, x, z),
{
    lemma_seq_cmp_refl(a);
    lemma_seq_cmp_flip(a, b);
    if seq_cmp(a, b) != Ordering::Greater && seq_cmp(b, c) != Ordering::Greater {
        lemma_seq_cmp_trans(a, b, c);
    }
}

/// Compares two strings in code-point order (`str::cmp`).
pub fn str_cmp(a: &str, b: &str) -> (r: Ordering)
    ensures
        r == seq_cmp(a@, b@),
{
    let av = chars_of(a);
    let bv = chars_of(b);
    chars_cmp(av.as_slice(), bv.as_slice())
}


} // verus!
