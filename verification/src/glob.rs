//! Wildcard matching of file names (`*` for any run of characters, `?` for one
//! character), as `find -name` uses it.
use vstd::prelude::*;
use crate::text::{chars_of, str_eq};

verus! {

/// Wildcard matching: `*` matches any run of characters (possibly empty), `?`
/// matches exactly one character, any other pattern character matches itself.
pub open spec fn glob(t: Seq<char>, p: Seq<char>) -> bool
    decreases p.len(), t.len(),
{
    if p.len() == 0 {
        t.len() == 0
    } else if p[0] == '*' {
        glob(t, p.drop_first()) || (t.len() > 0 && glob(t.drop_first(), p))
    } else {
        t.len() > 0 && (p[0] == '?' || p[0] == t[0]) && glob(t.drop_first(), p.drop_first())
    }
}

/// Every character of `q` is `*`.
pub open spec fn stars_only(q: Seq<char>) -> bool {
    forall|k: int| 0 <= k < q.len() ==> q[k] == '*'
}

/// The matcher's scan with one backtracking point. `ti`/`pi` are the positions
/// in text and pattern, `star` the position of the last `*` of the pattern
/// (negative before the first), and `mi` the text position where the current
/// attempt after that `*` began. A `*` in the pattern is always a wildcard,
/// whatever text character it faces.
spec fn glob_run(t: Seq<char>, p: Seq<char>, ti: int, pi: int, star: int, mi: int) -> bool
    decreases t.len() + 1 - mi, t.len() - ti, p.len() - pi
    when 0 <= mi <= ti <= t.len() && 0 <= pi <= p.len() && star < pi
{
    if ti < t.len() {
        if pi < p.len() && p[pi] == '*' {
            glob_run(t, p, ti, pi + 1, pi, ti)
        } else if pi < p.len() && (p[pi] == t[ti] || p[pi] == '?') {
            glob_run(t, p, ti + 1, pi + 1, star, mi)
        } else if star >= 0 {
            glob_run(t, p, mi + 1, star + 1, star, mi + 1)
        } else {
            false
        }
    } else {
        stars_only(p.skip(pi))
    }
}

/// What the scan of `glob_match` computes for `text` and `pattern`.
spec fn glob_result(t: Seq<char>, p: Seq<char>) -> bool {
    glob_run(t, p, 0, 0, -1, 0)
}

/// `glob_match`: wildcard match of `text` against `pattern`.
pub fn glob_match(text: &str, pattern: &str) -> (r: bool)
    ensures
        r == glob(text@, pattern@),
{
    let tc = chars_of(text);
    let pc = chars_of(pattern);
    let mut ti: usize = 0;
    let mut pi: usize = 0;
    let mut star_idx: usize = usize::MAX;
    let mut match_idx: usize = 0;
    let ghost t = text@;
    let ghost p = pattern@;

    while ti < tc.len()
        invariant
            tc@ == t,
            pc@ == p,
            t == text@,
            p == pattern@,
            0 <= match_idx <= ti <= t.len(),
            pi <= p.len(),
            star_idx != usize::MAX ==> star_idx < pi,
            glob_run(t, p, ti as int, pi as int,
                if star_idx == usize::MAX { -1 } else { star_idx as int }, match_idx as int)
                == glob_result(t, p),
        decreases t.len() + 1 - match_idx, t.len() - ti, p.len() - pi,
    {
        if pi < pc.len() && pc[pi] == '*' {
            star_idx = pi;
            match_idx = ti;
            pi += 1;
        } else if pi < pc.len() && (pc[pi] == tc[ti] || pc[pi] == '?') {
            ti += 1;
            pi += 1;
        } else if star_idx != usize::MAX {
            pi = star_idx + 1;
            match_idx += 1;
            ti = match_idx;
        } else {
            proof {
                lemma_glob_result_correct(t, p);
            }
            return false;
        }
    }

    let ghost pi0 = pi;
    while pi < pc.len() && pc[pi] == '*'
        invariant
            pc@ == p,
            pi0 <= pi <= p.len(),
            forall|k: int| pi0 <= k < pi ==> p[k] == '*',
        decreases p.len() - pi,
    {
        pi += 1;
    }
    proof {
        if pi == p.len() {
            assert(stars_only(p.skip(pi0 as int)));
        } else {
            assert(p.skip(pi0 as int)[pi - pi0] != '*');
        }
        lemma_glob_result_correct(t, p);
    }
    pi == pc.len()
}

/// `match_name`: wildcard match when the pattern holds `*` or `?`, exact
/// comparison otherwise.
pub fn match_name(file_name: &str, pattern: &str) -> (r: bool)
    ensures
        r == (if pattern@.contains('*') || pattern@.contains('?') {
            glob(file_name@, pattern@)
        } else {
            file_name@ == pattern@
        }),
        r == glob(file_name@, pattern@),
{
    let pc = chars_of(pattern);
    let mut has_wild = false;
    let mut i: usize = 0;
    while i < pc.len()
        invariant
            pc@ == pattern@,
            i <= pc@.len(),
            has_wild == exists|k: int| 0 <= k < i && (pc@[k] == '*' || pc@[k] == '?'),
        decreases pc@.len() - i,
    {
        if pc[i] == '*' || pc[i] == '?' {
            has_wild = true;
        }
        i += 1;
    }
    proof {
        if has_wild {
            let k = choose|k: int| 0 <= k < i && (pc@[k] == '*' || pc@[k] == '?');
            assert(pattern@[k] == '*' || pattern@[k] == '?');
        } else {
            assert(!pattern@.contains('*'));
            assert(!pattern@.contains('?'));
            lemma_glob_plain(file_name@, pattern@);
        }
    }
    if has_wild {
        glob_match(file_name, pattern)
    } else {
        str_eq(file_name, pattern)
    }
}

// ---------------------------------------------------------------------------
// Proof that the scan decides `glob`.
// ---------------------------------------------------------------------------

/// A pattern without wildcards matches exactly itself.
pub proof fn lemma_glob_plain(t: Seq<char>, p: Seq<char>)
    requires
        !p.contains('*'),
        !p.contains('?'),
    ensures
        glob(t, p) == (t == p),
    decreases p.len(),
{
    if p.len() == 0 {
        if t.len() == 0 {
            assert(t =~= p);
        }
    } else {
        assert(p[0] != '*' && p[0] != '?');
        assert(!p.drop_first().contains('*')) by {
            if p.drop_first().contains('*') {
                let k = choose|k: int| 0 <= k < p.drop_first().len() && p.drop_first()[k] == '*';
                assert(p[k + 1] == '*');
            }
        }
        assert(!p.drop_first().contains('?')) by {
            if p.drop_first().contains('?') {
                let k = choose|k: int| 0 <= k < p.drop_first().len() && p.drop_first()[k] == '?';
                assert(p[k + 1] == '?');
            }
        }
        if t.len() > 0 {
            lemma_glob_plain(t.drop_first(), p.drop_first());
            if t == p {
                assert(t.drop_first() =~= p.drop_first());
            }
            if t.drop_first() == p.drop_first() && t[0] == p[0] {
                assert(t.len() == p.len());
                assert forall|i: int| 0 <= i < t.len() implies t[i] == p[i] by {
                    if i > 0 {
                        assert(t[i] == t.drop_first()[i - 1]);
                        assert(p[i] == p.drop_first()[i - 1]);
                    }
                }
                assert(t =~= p);
            }
        }
    }
}

/// The empty text matches exactly the patterns made of `*` alone.
proof fn lemma_glob_empty(q: Seq<char>)
    ensures
        glob(Seq::<char>::empty(), q) == stars_only(q),
    decreases q.len(),
{
    let e = Seq::<char>::empty();
    if q.len() > 0 {
        lemma_glob_empty(q.drop_first());
        if q[0] == '*' {
            if stars_only(q.drop_first()) {
                assert forall|k: int| 0 <= k < q.len() implies q[k] == '*' by {
                    if k > 0 {
                        assert(q.drop_first()[k - 1] == '*');
                    }
                }
            }
            if stars_only(q) {
                assert forall|k: int| 0 <= k < q.drop_first().len() implies q.drop_first()[k] == '*' by {
                    assert(q[k + 1] == '*');
                }
            }
        } else {
            assert(!stars_only(q));
        }
    }
}

/// A `*` can absorb any prefix of the text.
proof fn lemma_star_intro(u: Seq<char>, q: Seq<char>, k: int)
    requires
        q.len() > 0,
        q[0] == '*',
        0 <= k <= u.len(),
        glob(u.skip(k), q.drop_first()),
    ensures
        glob(u, q),
    decreases k,
{
    if k == 0 {
        assert(u.skip(0) =~= u);
    } else {
        assert(u.drop_first().skip(k - 1) =~= u.skip(k));
        lemma_star_intro(u.drop_first(), q, k - 1);
    }
}

/// A match of a pattern starting with `*` lets the `*` absorb some prefix.
proof fn lemma_star_elim(u: Seq<char>, q: Seq<char>) -> (k: int)
    requires
        q.len() > 0,
        q[0] == '*',
        glob(u, q),
    ensures
        0 <= k <= u.len(),
        glob(u.skip(k), q.drop_first()),
    decreases u.len(),
{
    if glob(u, q.drop_first()) {
        assert(u.skip(0) =~= u);
        0
    } else {
        let k1 = lemma_star_elim(u.drop_first(), q);
        assert(u.drop_first().skip(k1) =~= u.skip(k1 + 1));
        k1 + 1
    }
}

/// A wildcard-free stretch of the pattern consumes exactly as many characters.
proof fn lemma_seg_forward(u: Seq<char>, q: Seq<char>, l: int)
    requires
        0 <= l <= q.len(),
        forall|i: int| 0 <= i < l ==> q[i] != '*',
        glob(u, q),
    ensures
        l <= u.len(),
        glob(u.skip(l), q.skip(l)),
    decreases l,
{
    if l == 0 {
        assert(u.skip(0) =~= u);
        assert(q.skip(0) =~= q);
    } else {
        assert(q[0] != '*');
        assert forall|i: int| 0 <= i < l - 1 implies q.drop_first()[i] != '*' by {
            assert(q[i + 1] != '*');
        }
        lemma_seg_forward(u.drop_first(), q.drop_first(), l - 1);
        assert(u.drop_first().skip(l - 1) =~= u.skip(l));
        assert(q.drop_first().skip(l - 1) =~= q.skip(l));
    }
}

/// One literal step of the scan keeps the remaining question unchanged.
proof fn lemma_literal_step(t: Seq<char>, p: Seq<char>, ti: int, pi: int)
    requires
        0 <= ti < t.len(),
        0 <= pi < p.len(),
        p[pi] != '*',
        p[pi] == t[ti] || p[pi] == '?',
    ensures
        glob(t.skip(ti), p.skip(pi)) == glob(t.skip(ti + 1), p.skip(pi + 1)),
{
    assert(t.skip(ti).drop_first() =~= t.skip(ti + 1));
    assert(p.skip(pi).drop_first() =~= p.skip(pi + 1));
    assert(p.skip(pi)[0] == p[pi]);
    assert(t.skip(ti)[0] == t[ti]);
}

/// A failed literal step, or an exhausted pattern, cannot match.
proof fn lemma_mismatch(t: Seq<char>, p: Seq<char>, ti: int, pi: int)
    requires
        0 <= ti < t.len(),
        0 <= pi <= p.len(),
        pi == p.len() || (p[pi] != '*' && p[pi] != t[ti] && p[pi] != '?'),
    ensures
        !glob(t.skip(ti), p.skip(pi)),
{
    if pi < p.len() {
        assert(p.skip(pi)[0] == p[pi]);
        assert(t.skip(ti)[0] == t[ti]);
    }
}

/// What holds of the scan state with respect to `glob(t, p)`.
pub open spec fn run_inv(t: Seq<char>, p: Seq<char>, ti: int, pi: int, star: int, mi: int) -> bool {
    &&& 0 <= mi <= ti <= t.len()
    &&& 0 <= pi <= p.len()
    &&& star < pi
    &&& if star < 0 {
        glob(t, p) == glob(t.skip(ti), p.skip(pi))
    } else {
        &&& p[star] == '*'
        &&& (forall|k: int| star < k < pi ==> p[k] != '*')
        &&& pi - star - 1 == ti - mi
        &&& (glob(t, p) <==> exists|j: int|
            mi <= j <= t.len() && #[trigger] glob(t.skip(j), p.skip(star + 1)))
        &&& glob(t.skip(mi), p.skip(star + 1)) == glob(t.skip(ti), p.skip(pi))
    }
}

proof fn lemma_run_correct(t: Seq<char>, p: Seq<char>, ti: int, pi: int, star: int, mi: int)
    requires
        run_inv(t, p, ti, pi, star, mi),
    ensures
        glob_run(t, p, ti, pi, star, mi) == glob(t, p),
    decreases t.len() + 1 - mi, t.len() - ti, p.len() - pi,
{
    if ti < t.len() {
        if pi < p.len() && p[pi] == '*' {
            let u = t.skip(ti);
            let q = p.skip(pi);
            assert(q[0] == '*');
            assert(q.drop_first() =~= p.skip(pi + 1));
            assert(t.skip(ti) =~= t.skip(ti));
            if star < 0 {
                if glob(t, p) {
                    let k = lemma_star_elim(u, q);
                    assert(u.skip(k) =~= t.skip(ti + k));
                    assert(glob(t.skip(ti + k), p.skip(pi + 1)));
                }
                if exists|j: int| ti <= j <= t.len() && #[trigger] glob(t.skip(j), p.skip(pi + 1)) {
                    let j = choose|j: int| ti <= j <= t.len() && #[trigger] glob(t.skip(j), p.skip(pi + 1));
                    assert(u.skip(j - ti) =~= t.skip(j));
                    lemma_star_intro(u, q, j - ti);
                }
            } else {
                let l = pi - star - 1;
                if glob(t, p) {
                    let j0 = choose|j: int| mi <= j <= t.len() && #[trigger] glob(t.skip(j), p.skip(star + 1));
                    let q0 = p.skip(star + 1);
                    assert forall|i: int| 0 <= i < l implies q0[i] != '*' by {
                        assert(q0[i] == p[star + 1 + i]);
                    }
                    lemma_seg_forward(t.skip(j0), q0, l);
                    assert(t.skip(j0).skip(l) =~= t.skip(j0 + l));
                    assert(q0.skip(l) =~= q);
                    let u2 = t.skip(j0 + l);
                    let k = lemma_star_elim(u2, q);
                    assert(u2.skip(k) =~= t.skip(j0 + l + k));
                    assert(glob(t.skip(j0 + l + k), p.skip(pi + 1)));
                }
                if exists|j: int| ti <= j <= t.len() && #[trigger] glob(t.skip(j), p.skip(pi + 1)) {
                    let j = choose|j: int| ti <= j <= t.len() && #[trigger] glob(t.skip(j), p.skip(pi + 1));
                    assert(u.skip(j - ti) =~= t.skip(j));
                    lemma_star_intro(u, q, j - ti);
                    assert(glob(t.skip(mi), p.skip(star + 1)));
                }
            }
            lemma_run_correct(t, p, ti, pi + 1, pi, ti);
        } else if pi < p.len() && (p[pi] == t[ti] || p[pi] == '?') {
            lemma_literal_step(t, p, ti, pi);
            if star >= 0 {
                assert forall|k: int| star < k < pi + 1 implies p[k] != '*' by {}
            }
            lemma_run_correct(t, p, ti + 1, pi + 1, star, mi);
        } else if star >= 0 {
            lemma_mismatch(t, p, ti, pi);
            if glob(t, p) {
                let j = choose|j: int| mi <= j <= t.len() && #[trigger] glob(t.skip(j), p.skip(star + 1));
                assert(j != mi);
            }
            lemma_run_correct(t, p, mi + 1, star + 1, star, mi + 1);
        } else {
            lemma_mismatch(t, p, ti, pi);
        }
    } else {
        assert(t.skip(ti) =~= Seq::<char>::empty());
        lemma_glob_empty(p.skip(pi));
        if star >= 0 && glob(t, p) {
            let j = choose|j: int| mi <= j <= t.len() && #[trigger] glob(t.skip(j), p.skip(star + 1));
            if j != mi {
                let l = pi - star - 1;
                let q0 = p.skip(star + 1);
                assert forall|i: int| 0 <= i < l implies q0[i] != '*' by {
                    assert(q0[i] == p[star + 1 + i]);
                }
                lemma_seg_forward(t.skip(j), q0, l);
            }
        }
    }
}

/// The scan decides wildcard matching.
proof fn lemma_glob_result_correct(t: Seq<char>, p: Seq<char>)
    ensures
        glob_result(t, p) == glob(t, p),
{
    assert(t.skip(0) =~= t);
    assert(p.skip(0) =~= p);
    lemma_run_correct(t, p, 0, 0, -1, 0);
}

} // verus!
