//! `sort`: key extraction, a stable merge sort over line indices, and removal
//! of adjacent duplicates.
use vstd::prelude::*;
use vstd::multiset::Multiset;
use crate::text::{chars_of, string_of, is_ws, is_whitespace, to_lowercase, lowercase, owned};
use crate::order::{NumKey, key_lt, key_gt, key_relation, lemma_key_order_preorder};
use crate::cut::views;
use crate::escape::string_views;

verus! {

broadcast use vstd::seq_lib::group_to_multiset_ensures;

/// The whitespace-separated words of `s` (`str::split_whitespace`), where
/// whitespace is Unicode `White_Space`.
pub open spec fn words(s: Seq<char>) -> Seq<Seq<char>>
    decreases s.len(),
{
    if s.len() == 0 {
        Seq::empty()
    } else {
        let w = words(s.drop_last());
        let c = s.last();
        if is_ws(c) {
            w
        } else if s.len() >= 2 && !is_ws(s[s.len() - 2]) {
            w.update(w.len() - 1, w.last().push(c))
        } else {
            w.push(seq![c])
        }
    }
}

/// The whitespace-separated words of a string.
pub fn split_words(s: &str) -> (r: Vec<Vec<char>>)
    ensures
        views(r@) == words(s@),
{
    let cs = chars_of(s);
    let mut r: Vec<Vec<char>> = Vec::new();
    let mut i: usize = 0;
    assert(s@.take(0) =~= Seq::<char>::empty());
    assert(views(r@) =~= Seq::<Seq<char>>::empty());
    while i < cs.len()
        invariant
            cs@ == s@,
            i <= s@.len(),
            views(r@) == words(s@.take(i as int)),
            i > 0 && !is_ws(s@[i - 1]) ==> r@.len() > 0,
        decreases s@.len() - i,
    {
        let c = cs[i];
        let ghost pre = s@.take(i as int);
        let ghost next = s@.take(i + 1);
        assert(next.drop_last() =~= pre);
        assert(next.last() == c);
        if !is_whitespace(c) {
            if i > 0 && !is_whitespace(cs[i - 1]) {
                assert(next[next.len() - 2] == s@[i - 1]);
                let last = r.len() - 1;
                let ghost before = views(r@);
                let mut w = r.pop().unwrap();
                w.push(c);
                r.push(w);
                assert(views(r@) =~= before.update(before.len() - 1, before.last().push(c)));
            } else {
                proof {
                    if i > 0 {
                        assert(next[next.len() - 2] == s@[i - 1]);
                    }
                }
                let mut w: Vec<char> = Vec::new();
                w.push(c);
                let ghost before = views(r@);
                r.push(w);
                assert(views(r@) =~= before.push(seq![c]));
            }
        }
        i += 1;
    }
    assert(s@.take(s@.len() as int) =~= s@);
    r
}

/// `get_field`: the `field_num`-th word of the line (counting from 1), or the
/// empty string when there are fewer words. Field 0 does not exist (its index
/// would underflow).
pub fn get_field(line: &str, field_num: usize) -> (r: String)
    requires
        field_num >= 1,
    ensures
        r@ == (if field_num - 1 < words(line@).len() { words(line@)[field_num - 1] } else { Seq::empty() }),
{
    let w = split_words(line);
    if field_num - 1 < w.len() {
        assert(views(w@)[field_num - 1] == w@[field_num - 1]@);
        string_of(w[field_num - 1].as_slice())
    } else {
        String::new()
    }
}

/// The options of `sort` that decide the order.
#[derive(Clone, Copy)]
pub struct SortOptions {
    pub reverse: bool,
    pub numeric: bool,
    pub ignore_case: bool,
    pub unique: bool,
    pub key: Option<usize>,
}

/// The string a line is compared by: its `-k` field, or with `-f` (and neither
/// `-k` nor `-n`) the line in lower case, or else the line itself.
pub open spec fn sort_key_spec(line: Seq<char>, o: SortOptions) -> Seq<char> {
    match o.key {
        Some(k) => if k - 1 < words(line).len() { words(line)[k - 1] } else { Seq::empty() },
        None => if !o.numeric && o.ignore_case { lowercase(line) } else { line },
    }
}

/// The string `sort` compares a line by. Key field 0 does not exist.
pub fn sort_key(line: &str, o: SortOptions) -> (r: String)
    requires
        o.key matches Some(k) ==> k >= 1,
    ensures
        r@ == sort_key_spec(line@, o),
{
    match o.key {
        Some(k) => get_field(line, k),
        None => {
            if !o.numeric && o.ignore_case {
                to_lowercase(line)
            } else {
                owned(line)
            }
        },
    }
}

/// Line `i` comes strictly before line `j` by their keys (reversed with `-r`).
pub open spec fn lt_at(keys: Seq<Seq<char>>, nums: Seq<NumKey>, numeric: bool, reverse: bool, i: int, j: int) -> bool {
    if reverse {
        key_gt(numeric, keys[i], keys[j], nums[i], nums[j])
    } else {
        key_lt(numeric, keys[i], keys[j], nums[i], nums[j])
    }
}

/// The keys of lines `i` and `j` compare equal.
pub open spec fn eq_at(keys: Seq<Seq<char>>, nums: Seq<NumKey>, numeric: bool, i: int, j: int) -> bool {
    !key_lt(numeric, keys[i], keys[j], nums[i], nums[j]) && !key_gt(numeric, keys[i], keys[j], nums[i], nums[j])
}

/// Where line `i` goes relative to line `j` in a stable sort: before it when its
/// key is smaller, or equal and it came first.
pub open spec fn before(keys: Seq<Seq<char>>, nums: Seq<NumKey>, numeric: bool, reverse: bool, i: int, j: int) -> bool {
    lt_at(keys, nums, numeric, reverse, i, j) || (eq_at(keys, nums, numeric, i, j) && i < j)
}

/// No key is NaN when the order is numeric (NaN compares equal to every number,
/// so the comparison is not an order).
pub open spec fn no_nan(nums: Seq<NumKey>, numeric: bool) -> bool {
    numeric ==> forall|i: int| 0 <= i < nums.len() ==> nums[i] != NumKey::NaN
}

/// `order` lists the line indices in stable sorted order.
pub open spec fn sorted_by(keys: Seq<Seq<char>>, nums: Seq<NumKey>, numeric: bool, reverse: bool, order: Seq<usize>) -> bool {
    forall|a: int, b: int| 0 <= a < b < order.len() ==>
        before(keys, nums, numeric, reverse, #[trigger] order[a] as int, #[trigger] order[b] as int)
}

/// The indices `0..n`.
pub open spec fn all_indices(n: nat) -> Seq<usize> {
    Seq::new(n, |i: int| i as usize)
}

pub open spec fn in_range(v: Seq<usize>, n: nat) -> bool {
    forall|i: int| 0 <= i < v.len() ==> #[trigger] v[i] < n
}

proof fn lemma_before_trans(keys: Seq<Seq<char>>, nums: Seq<NumKey>, numeric: bool, reverse: bool, i: int, j: int, k: int)
    requires
        no_nan(nums, numeric),
        0 <= i < keys.len(),
        0 <= j < keys.len(),
        0 <= k < keys.len(),
        keys.len() == nums.len(),
        before(keys, nums, numeric, reverse, i, j),
        before(keys, nums, numeric, reverse, j, k),
    ensures
        before(keys, nums, numeric, reverse, i, k),
{
    lemma_key_order_preorder(numeric, keys[i], keys[j], keys[k], nums[i], nums[j], nums[k]);
    lemma_key_order_preorder(numeric, keys[k], keys[j], keys[i], nums[k], nums[j], nums[i]);
    lemma_key_order_preorder(numeric, keys[j], keys[k], keys[i], nums[j], nums[k], nums[i]);
    lemma_key_order_preorder(numeric, keys[i], keys[k], keys[j], nums[i], nums[k], nums[j]);
    lemma_key_order_preorder(numeric, keys[k], keys[i], keys[j], nums[k], nums[i], nums[j]);
    lemma_key_order_preorder(numeric, keys[j], keys[i], keys[k], nums[j], nums[i], nums[k]);
}

proof fn lemma_before_total(keys: Seq<Seq<char>>, nums: Seq<NumKey>, numeric: bool, reverse: bool, i: int, j: int)
    requires
        no_nan(nums, numeric),
        0 <= i < keys.len(),
        0 <= j < keys.len(),
        keys.len() == nums.len(),
        i != j,
    ensures
        before(keys, nums, numeric, reverse, i, j) != before(keys, nums, numeric, reverse, j, i),
{
    lemma_key_order_preorder(numeric, keys[i], keys[j], keys[i], nums[i], nums[j], nums[i]);
    lemma_key_order_preorder(numeric, keys[j], keys[i], keys[j], nums[j], nums[i], nums[j]);
}

/// What `sort` reads of the lines: their keys, what the keys parse to as
/// numbers, and the direction.
pub struct SortKeys {
    pub keys: Vec<Vec<char>>,
    pub nums: Vec<NumKey>,
    pub numeric: bool,
    pub reverse: bool,
}

impl SortKeys {
    pub open spec fn wf(&self) -> bool {
        self.keys@.len() == self.nums@.len()
    }

    pub open spec fn kv(&self) -> Seq<Seq<char>> {
        views(self.keys@)
    }

    pub open spec fn goes_before(&self, i: int, j: int) -> bool {
        before(self.kv(), self.nums@, self.numeric, self.reverse, i, j)
    }

    pub open spec fn ordered(&self) -> bool {
        no_nan(self.nums@, self.numeric)
    }

    pub open spec fn sorted(&self, v: Seq<usize>) -> bool {
        sorted_by(self.kv(), self.nums@, self.numeric, self.reverse, v)
    }

    fn before_exec(&self, i: usize, j: usize) -> (b: bool)
        requires
            self.wf(),
            i < self.keys@.len(),
            j < self.keys@.len(),
        ensures
            b == self.goes_before(i as int, j as int),
    {
        let (lt, gt) = key_relation(self.numeric, self.keys[i].as_slice(), self.keys[j].as_slice(), self.nums[i], self.nums[j]);
        assert(self.kv()[i as int] == self.keys@[i as int]@);
        assert(self.kv()[j as int] == self.keys@[j as int]@);
        let first = if self.reverse { gt } else { lt };
        first || (!lt && !gt && i < j)
    }
}

fn merge(ctx: &SortKeys, l: Vec<usize>, r: Vec<usize>) -> (out: Vec<usize>)
    requires
        ctx.wf(),
        in_range(l@, ctx.keys@.len()),
        in_range(r@, ctx.keys@.len()),
        ctx.ordered() ==> ctx.sorted(l@),
        ctx.ordered() ==> ctx.sorted(r@),
        forall|a: int, b: int| 0 <= a < l@.len() && 0 <= b < r@.len() ==> l@[a] != r@[b],
    ensures
        out@.to_multiset() == l@.to_multiset().add(r@.to_multiset()),
        in_range(out@, ctx.keys@.len()),
        ctx.ordered() ==> ctx.sorted(out@),
{
    let ghost n = ctx.keys@.len();
    let mut out: Vec<usize> = Vec::new();
    let mut i: usize = 0;
    let mut j: usize = 0;
    assert(l@.skip(0) =~= l@);
    assert(r@.skip(0) =~= r@);
    while i < l.len() || j < r.len()
        invariant
            ctx.wf(),
            n == ctx.keys@.len(),
            i <= l@.len(),
            j <= r@.len(),
            in_range(l@, n),
            in_range(r@, n),
            in_range(out@, n),
            ctx.ordered() ==> ctx.sorted(l@),
            ctx.ordered() ==> ctx.sorted(r@),
            forall|a: int, b: int| 0 <= a < l@.len() && 0 <= b < r@.len() ==> l@[a] != r@[b],
            out@.to_multiset().add(l@.skip(i as int).to_multiset()).add(r@.skip(j as int).to_multiset())
                == l@.to_multiset().add(r@.to_multiset()),
            ctx.ordered() ==> ctx.sorted(out@),
            ctx.ordered() && out@.len() > 0 && i < l@.len() ==> ctx.goes_before(out@.last() as int, l@[i as int] as int),
            ctx.ordered() && out@.len() > 0 && j < r@.len() ==> ctx.goes_before(out@.last() as int, r@[j as int] as int),
        decreases l@.len() + r@.len() - i - j,
    {
        let take_left = if j >= r.len() {
            true
        } else if i >= l.len() {
            false
        } else {
            !ctx.before_exec(r[j], l[i])
        };
        let x = if take_left { l[i] } else { r[j] };
        let ghost old_out = out@;
        proof {
            if take_left {
                assert(l@.skip(i as int) =~= seq![x] + l@.skip(i + 1));
                vstd::seq_lib::lemma_multiset_commutative(seq![x], l@.skip(i + 1));
            } else {
                assert(r@.skip(j as int) =~= seq![x] + r@.skip(j + 1));
                vstd::seq_lib::lemma_multiset_commutative(seq![x], r@.skip(j + 1));
            }
            assert(seq![x].to_multiset() =~= Multiset::singleton(x)) by {
                assert(seq![x] =~= Seq::<usize>::empty().push(x));
            }
            if ctx.ordered() {
                // x goes after everything already taken
                if old_out.len() > 0 {
                    assert(ctx.goes_before(old_out.last() as int, x as int));
                }
                // x goes before what remains on both sides
                if take_left {
                    if j < r@.len() && i < l@.len() {
                        assert(l@[i as int] != r@[j as int]);
                        lemma_before_total(ctx.kv(), ctx.nums@, ctx.numeric, ctx.reverse, r@[j as int] as int, l@[i as int] as int);
                    }
                    if i + 1 < l@.len() {
                        assert(ctx.goes_before(l@[i as int] as int, l@[i + 1] as int));
                    }
                } else {
                    if i + 1 <= l@.len() && i < l@.len() {
                        assert(ctx.goes_before(r@[j as int] as int, l@[i as int] as int));
                    }
                    if j + 1 < r@.len() {
                        assert(ctx.goes_before(r@[j as int] as int, r@[j + 1] as int));
                    }
                }
                assert forall|a: int, b: int| 0 <= a < b < old_out.len() + 1 implies
                    ctx.goes_before(#[trigger] old_out.push(x)[a] as int, #[trigger] old_out.push(x)[b] as int) by {
                    if b == old_out.len() {
                        if a < old_out.len() - 1 {
                            lemma_before_trans(ctx.kv(), ctx.nums@, ctx.numeric, ctx.reverse,
                                old_out[a] as int, old_out.last() as int, x as int);
                        }
                    } else {
                        assert(old_out.push(x)[a] == old_out[a] && old_out.push(x)[b] == old_out[b]);
                    }
                }
            }
        }
        out.push(x);
        if take_left {
            i += 1;
        } else {
            j += 1;
        }
        proof {
            if ctx.ordered() {
                if take_left && i < l@.len() {
                    if old_out.len() > 0 || true {
                        assert(ctx.goes_before(l@[i - 1] as int, l@[i as int] as int));
                    }
                }
                if !take_left && j < r@.len() {
                    assert(ctx.goes_before(r@[j - 1] as int, r@[j as int] as int));
                }
            }
        }
    }
    assert(l@.skip(i as int) =~= Seq::<usize>::empty());
    assert(r@.skip(j as int) =~= Seq::<usize>::empty());
    out
}

fn copy_part(v: &Vec<usize>, from: usize, to: usize) -> (r: Vec<usize>)
    requires
        from <= to <= v@.len(),
    ensures
        r@ == v@.subrange(from as int, to as int),
{
    let mut r: Vec<usize> = Vec::new();
    let mut i: usize = from;
    while i < to
        invariant
            from <= i <= to <= v@.len(),
            r@ == v@.subrange(from as int, i as int),
        decreases to - i,
    {
        r.push(v[i]);
        assert(r@ =~= v@.subrange(from as int, i + 1));
        i += 1;
    }
    r
}

/// No element occurs twice.
pub open spec fn distinct(v: Seq<usize>) -> bool {
    forall|a: int, b: int| 0 <= a < b < v.len() ==> v[a] != v[b]
}

fn merge_sort(ctx: &SortKeys, v: Vec<usize>) -> (out: Vec<usize>)
    requires
        ctx.wf(),
        in_range(v@, ctx.keys@.len()),
        distinct(v@),
    ensures
        out@.to_multiset() == v@.to_multiset(),
        in_range(out@, ctx.keys@.len()),
        ctx.ordered() ==> ctx.sorted(out@),
    decreases v@.len(),
{
    if v.len() <= 1 {
        return v;
    }
    let mid = v.len() / 2;
    let left = copy_part(&v, 0, mid);
    let right = copy_part(&v, mid, v.len());
    assert(v@ =~= left@ + right@);
    proof { vstd::seq_lib::lemma_multiset_commutative(left@, right@); }
    let ghost lv = left@;
    let ghost rv = right@;
    let ls = merge_sort(ctx, left);
    let rs = merge_sort(ctx, right);
    proof {
        assert forall|a: int, b: int| 0 <= a < ls@.len() && 0 <= b < rs@.len() implies ls@[a] != rs@[b] by {
            assert(ls@.to_multiset().count(ls@[a]) > 0);
            assert(rs@.to_multiset().count(rs@[b]) > 0);
            assert(lv.contains(ls@[a]));
            assert(rv.contains(rs@[b]));
            let p = choose|p: int| 0 <= p < lv.len() && lv[p] == ls@[a];
            let q = choose|q: int| 0 <= q < rv.len() && rv[q] == rs@[b];
            assert(v@[p] == lv[p]);
            assert(v@[mid + q] == rv[q]);
        }
    }
    merge(ctx, ls, rs)
}

/// The indices of the lines in the order a stable sort by the keys puts them.
/// The result is always a rearrangement of `0..n`; when the order is an order
/// (no NaN under `-n`) it is sorted, which makes it unique
/// (`lemma_sorted_unique`).
pub fn sort_order(ctx: &SortKeys) -> (out: Vec<usize>)
    requires
        ctx.wf(),
    ensures
        out@.to_multiset() == all_indices(ctx.keys@.len()).to_multiset(),
        ctx.ordered() ==> ctx.sorted(out@),
{
    let n = ctx.keys.len();
    let mut v: Vec<usize> = Vec::new();
    let mut i: usize = 0;
    while i < n
        invariant
            n == ctx.keys@.len(),
            i <= n,
            v@ == all_indices(i as nat),
        decreases n - i,
    {
        v.push(i);
        assert(v@ =~= all_indices((i + 1) as nat));
        i += 1;
    }
    assert(distinct(v@));
    merge_sort(ctx, v)
}

/// `s` with each run of equal neighbours reduced to its first element
/// (`Vec::dedup`).
pub open spec fn dedup_spec(s: Seq<String>) -> Seq<String>
    decreases s.len(),
{
    if s.len() == 0 {
        s
    } else if s.len() >= 2 && s[s.len() - 2]@ == s.last()@ {
        dedup_spec(s.drop_last())
    } else {
        dedup_spec(s.drop_last()).push(s.last())
    }
}

/// `Vec::dedup` on lines: neighbours with equal text are reduced to one.
pub fn dedup_lines(v: &Vec<String>) -> (r: Vec<String>)
    ensures
        r@ == dedup_spec(v@),
{
    let mut r: Vec<String> = Vec::new();
    let mut i: usize = 0;
    assert(v@.take(0) =~= Seq::<String>::empty());
    while i < v.len()
        invariant
            i <= v@.len(),
            r@ == dedup_spec(v@.take(i as int)),
        decreases v@.len() - i,
    {
        let ghost next = v@.take(i + 1);
        assert(next.drop_last() =~= v@.take(i as int));
        assert(next.last() == v@[i as int]);
        let same = i > 0 && v[i - 1] == v[i];
        proof {
            if i > 0 {
                assert(next[next.len() - 2] == v@[i - 1]);
            }
        }
        if !same {
            r.push(v[i].clone());
        }
        i += 1;
    }
    assert(v@.take(v@.len() as int) =~= v@);
    r
}

/// The lines in the order given by `order`.
pub open spec fn arranged(lines: Seq<String>, order: Seq<usize>) -> Seq<String> {
    Seq::new(order.len(), |i: int| lines[order[i] as int])
}

/// The lines `sort` prints: the lines in stable sorted order by their keys,
/// then with `-u` neighbours with equal text reduced to one.
pub open spec fn sort_result(
    lines: Seq<String>, keys: Seq<Seq<char>>, nums: Seq<NumKey>, numeric: bool, reverse: bool,
    unique: bool, r: Seq<String>,
) -> bool {
    exists|order: Seq<usize>| {
        &&& #[trigger] order.to_multiset() == all_indices(lines.len()).to_multiset()
        &&& (no_nan(nums, numeric) ==> sorted_by(keys, nums, numeric, reverse, order))
        &&& r == (if unique { dedup_spec(arranged(lines, order)) } else { arranged(lines, order) })
    }
}

/// `sort`'s reordering of the lines, given their keys (see `sort_key`) and what
/// the keys parse to as numbers.
pub fn sort_lines(lines: &Vec<String>, ctx: &SortKeys, unique: bool) -> (r: Vec<String>)
    requires
        ctx.wf(),
        ctx.keys@.len() == lines@.len(),
    ensures
        sort_result(lines@, ctx.kv(), ctx.nums@, ctx.numeric, ctx.reverse, unique, r@),
{
    let order = sort_order(ctx);
    let ghost n = lines@.len();
    proof {
        assert forall|k: int| 0 <= k < order@.len() implies #[trigger] order@[k] < n by {
            assert(order@.to_multiset().count(order@[k]) > 0);
            assert(all_indices(n).contains(order@[k]));
        }
    }
    let mut out: Vec<String> = Vec::new();
    let mut i: usize = 0;
    while i < order.len()
        invariant
            i <= order@.len(),
            n == lines@.len(),
            forall|k: int| 0 <= k < order@.len() ==> #[trigger] order@[k] < n,
            out@ == arranged(lines@, order@.take(i as int)),
        decreases order@.len() - i,
    {
        out.push(lines[order[i]].clone());
        assert(out@ =~= arranged(lines@, order@.take(i + 1)));
        i += 1;
    }
    assert(order@.take(order@.len() as int) =~= order@);
    let r = if unique { dedup_lines(&out) } else { out };
    assert(sort_result(lines@, ctx.kv(), ctx.nums@, ctx.numeric, ctx.reverse, unique, r@));
    r
}

/// The key of every line.
pub open spec fn keys_for(lines: Seq<Seq<char>>, o: SortOptions) -> Seq<Seq<char>> {
    Seq::new(lines.len(), |i: int| sort_key_spec(lines[i], o))
}

/// `sort` on its lines: each line's key as `sort_key` gives it (`nums[i]` is
/// what the key of line `i` parses to as a number), the lines in stable order
/// by their keys (reversed with `-r`), then with `-u` equal neighbours reduced
/// to one. Key field 0 does not exist.
pub fn sort_all(lines: &Vec<String>, o: SortOptions, nums: Vec<NumKey>) -> (r: Vec<String>)
    requires
        nums@.len() == lines@.len(),
        o.key matches Some(k) ==> k >= 1,
    ensures
        sort_result(lines@, keys_for(string_views(lines@), o), nums@, o.numeric, o.reverse, o.unique, r@),
{
    let mut keys: Vec<Vec<char>> = Vec::new();
    let mut i: usize = 0;
    while i < lines.len()
        invariant
            i <= lines@.len(),
            o.key matches Some(k) ==> k >= 1,
            keys@.len() == i,
            forall|j: int| 0 <= j < i ==> #[trigger] keys@[j]@ == sort_key_spec(lines@[j]@, o),
        decreases lines@.len() - i,
    {
        let k = sort_key(lines[i].as_str(), o);
        keys.push(chars_of(k.as_str()));
        i += 1;
    }
    assert(views(keys@) =~= keys_for(string_views(lines@), o));
    let ctx = SortKeys { keys, nums, numeric: o.numeric, reverse: o.reverse };
    sort_lines(lines, &ctx, o.unique)
}

/// A sorted order is stable in both directions: two lines whose keys compare
/// equal keep their input order, with or without `-r`; otherwise a line never
/// follows one whose key is greater (smaller with `-r`).
pub proof fn lemma_sort_stable(
    keys: Seq<Seq<char>>, nums: Seq<NumKey>, numeric: bool, reverse: bool, order: Seq<usize>,
)
    requires
        sorted_by(keys, nums, numeric, reverse, order),
    ensures
        forall|a: int, b: int| #![trigger order[a], order[b]] 0 <= a < b < order.len()
            && !key_lt(numeric, keys[order[a] as int], keys[order[b] as int], nums[order[a] as int], nums[order[b] as int])
            && !key_gt(numeric, keys[order[a] as int], keys[order[b] as int], nums[order[a] as int], nums[order[b] as int])
            ==> order[a] < order[b],
        forall|a: int, b: int| #![trigger order[a], order[b]] 0 <= a < b < order.len() ==>
            if reverse {
                !key_lt(numeric, keys[order[a] as int], keys[order[b] as int], nums[order[a] as int], nums[order[b] as int])
            } else {
                !key_gt(numeric, keys[order[a] as int], keys[order[b] as int], nums[order[a] as int], nums[order[b] as int])
            },
{
    assert forall|a: int, b: int| #![trigger order[a], order[b]] 0 <= a < b < order.len() implies
        before(keys, nums, numeric, reverse, order[a] as int, order[b] as int) by {}
}

/// Two rearrangements of the same indices that are both sorted by the stable
/// order are the same: when the key order is an order, `sort` has exactly one
/// possible result.
pub proof fn lemma_sorted_unique(
    keys: Seq<Seq<char>>, nums: Seq<NumKey>, numeric: bool, reverse: bool,
    a: Seq<usize>, b: Seq<usize>,
)
    requires
        keys.len() == nums.len(),
        no_nan(nums, numeric),
        a.to_multiset() == b.to_multiset(),
        in_range(a, keys.len()),
        in_range(b, keys.len()),
        sorted_by(keys, nums, numeric, reverse, a),
        sorted_by(keys, nums, numeric, reverse, b),
    ensures
        a == b,
    decreases a.len(),
{
    assert(a.len() == b.len()) by {
        assert(a.to_multiset().len() == a.len());
        assert(b.to_multiset().len() == b.len());
    }
    if a.len() > 0 {
        let x = a[0];
        let y = b[0];
        assert(a.to_multiset().count(x) > 0);
        assert(b.to_multiset().count(y) > 0);
        assert(b.contains(x));
        assert(a.contains(y));
        if x != y {
            let k = choose|k: int| 0 <= k < b.len() && b[k] == x;
            let m = choose|m: int| 0 <= m < a.len() && a[m] == y;
            assert(k > 0 && m > 0);
            assert(before(keys, nums, numeric, reverse, b[0] as int, b[k] as int));
            assert(before(keys, nums, numeric, reverse, a[0] as int, a[m] as int));
            lemma_before_total(keys, nums, numeric, reverse, x as int, y as int);
        }
        let a1 = a.drop_first();
        let b1 = b.drop_first();
        assert(a.remove(0) =~= a1);
        assert(b.remove(0) =~= b1);
        assert(a1.to_multiset() == b1.to_multiset());
        assert forall|i: int, j: int| 0 <= i < j < a1.len() implies
            before(keys, nums, numeric, reverse, #[trigger] a1[i] as int, #[trigger] a1[j] as int) by {
            assert(a1[i] == a[i + 1] && a1[j] == a[j + 1]);
        }
        assert forall|i: int, j: int| 0 <= i < j < b1.len() implies
            before(keys, nums, numeric, reverse, #[trigger] b1[i] as int, #[trigger] b1[j] as int) by {
            assert(b1[i] == b[i + 1] && b1[j] == b[j + 1]);
        }
        assert forall|i: int| 0 <= i < a1.len() implies #[trigger] a1[i] < keys.len() by {
            assert(a1[i] == a[i + 1]);
        }
        assert forall|i: int| 0 <= i < b1.len() implies #[trigger] b1[i] < keys.len() by {
            assert(b1[i] == b[i + 1]);
        }
        lemma_sorted_unique(keys, nums, numeric, reverse, a1, b1);
        assert(a =~= b) by {
            assert forall|i: int| 0 <= i < a.len() implies a[i] == b[i] by {
                if i > 0 {
                    assert(a[i] == a1[i - 1] && b[i] == b1[i - 1]);
                }
            }
        }
    }
}

proof fn lemma_dedup_last(s: Seq<String>)
    requires
        s.len() > 0,
    ensures
        dedup_spec(s).len() > 0,
        dedup_spec(s).last()@ == s.last()@,
    decreases s.len(),
{
    if s.len() >= 2 && s[s.len() - 2]@ == s.last()@ {
        lemma_dedup_last(s.drop_last());
    }
}

/// After `-u` no two neighbouring lines are equal.
pub proof fn lemma_dedup_no_adjacent(s: Seq<String>)
    ensures
        forall|i: int| 0 <= i < dedup_spec(s).len() - 1 ==> (#[trigger] dedup_spec(s)[i])@ != dedup_spec(s)[i + 1]@,
    decreases s.len(),
{
    if s.len() > 0 {
        let init = s.drop_last();
        lemma_dedup_no_adjacent(init);
        if s.len() >= 2 && s[s.len() - 2]@ == s.last()@ {
            assert(dedup_spec(s) == dedup_spec(init));
        } else {
            let d = dedup_spec(s);
            let p = dedup_spec(init);
            assert(d == p.push(s.last()));
            assert forall|i: int| 0 <= i < d.len() - 1 implies (#[trigger] d[i])@ != d[i + 1]@ by {
                if i + 1 < p.len() {
                    assert(d[i] == p[i] && d[i + 1] == p[i + 1]);
                } else {
                    lemma_dedup_last(init);
                    assert(init.last() == s[s.len() - 2]);
                }
            }
        }
    }
}

} // verus!
