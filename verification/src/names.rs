//! Directory-entry names as the listing tools treat them: hidden names,
//! filtering, and a stable order by a key per name.
use vstd::prelude::*;
use vstd::multiset::Multiset;
use crate::text::chars_of;
use crate::order::NumKey;
use crate::sort::{SortKeys, sort_order, sorted_by, all_indices};
use crate::cut::views;
use crate::escape::string_views;

verus! {

broadcast use vstd::seq_lib::group_to_multiset_ensures;

/// A name that starts with a dot is hidden.
pub open spec fn is_hidden(name: Seq<char>) -> bool {
    name.len() > 0 && name[0] == '.'
}

pub fn hidden(name: &str) -> (b: bool)
    ensures
        b == is_hidden(name@),
{
    let v = chars_of(name);
    v.len() > 0 && v[0] == '.'
}

/// The names that are not hidden, in their order.
pub open spec fn unhidden(names: Seq<Seq<char>>) -> Seq<Seq<char>>
    decreases names.len(),
{
    if names.len() == 0 {
        names
    } else {
        let rest = unhidden(names.drop_last());
        if is_hidden(names.last()) { rest } else { rest.push(names.last()) }
    }
}

/// The names a listing shows: all of them with `-a`, else the unhidden ones.
pub open spec fn shown(names: Seq<Seq<char>>, all: bool) -> Seq<Seq<char>> {
    if all { names } else { unhidden(names) }
}

/// Drops the hidden names unless `all` is set.
pub fn shown_names(names: &[String], all: bool) -> (r: Vec<String>)
    ensures
        string_views(r@) == shown(string_views(names@), all),
{
    let ghost nv = string_views(names@);
    let mut r: Vec<String> = Vec::new();
    let mut i: usize = 0;
    assert(nv.take(0) =~= Seq::<Seq<char>>::empty());
    while i < names.len()
        invariant
            i <= names@.len(),
            nv == string_views(names@),
            string_views(r@) == shown(nv.take(i as int), all),
        decreases names@.len() - i,
    {
        let ghost pre = r@;
        assert(nv.take(i + 1).drop_last() =~= nv.take(i as int));
        assert(nv.take(i + 1).last() == names@[i as int]@);
        if all || !hidden(names[i].as_str()) {
            r.push(names[i].clone());
            assert(string_views(r@) =~= string_views(pre).push(names@[i as int]@));
        }
        assert(string_views(r@) =~= shown(nv.take(i + 1), all));
        i += 1;
    }
    assert(nv.take(names@.len() as int) =~= nv);
    r
}

/// Invalid numbers for every key: the order is then the code-point order of
/// the keys.
pub open spec fn no_numbers(n: nat) -> Seq<NumKey> {
    Seq::new(n, |i: int| NumKey::Invalid)
}

/// `order` rearranges the indices of `keys` so that the keys ascend in
/// code-point order, equal keys keeping their order of appearance (a stable sort,
/// such as `sort_by_key`).
pub open spec fn stable_by_key(keys: Seq<Seq<char>>, order: Seq<usize>) -> bool {
    &&& order.to_multiset() == all_indices(keys.len()).to_multiset()
    &&& sorted_by(keys, no_numbers(keys.len()), false, false, order)
}

/// `items` picked in the order of `order`.
pub open spec fn picked<T>(items: Seq<T>, order: Seq<usize>) -> Seq<T> {
    Seq::new(order.len(), |i: int| items[order[i] as int])
}

/// `r` is `items` stably sorted by `keys`.
pub open spec fn sorted_by_key<T>(items: Seq<T>, keys: Seq<Seq<char>>, r: Seq<T>) -> bool {
    exists|order: Seq<usize>| #[trigger] stable_by_key(keys, order) && r == picked(items, order)
}

/// The stable order of the indices by their keys.
pub fn stable_order(keys: Vec<Vec<char>>) -> (order: Vec<usize>)
    ensures
        stable_by_key(views(keys@), order@),
        order@.len() == keys@.len(),
        forall|i: int| 0 <= i < order@.len() ==> #[trigger] order@[i] < keys@.len(),
{
    let n = keys.len();
    let mut nums: Vec<NumKey> = Vec::new();
    let mut i: usize = 0;
    while i < n
        invariant
            i <= n,
            nums@ == no_numbers(i as nat),
        decreases n - i,
    {
        nums.push(NumKey::Invalid);
        assert(nums@ =~= no_numbers((i + 1) as nat));
        i += 1;
    }
    let ctx = SortKeys { keys, nums, numeric: false, reverse: false };
    let order = sort_order(&ctx);
    proof {
        assert forall|k: int| 0 <= k < order@.len() implies #[trigger] order@[k] < n by {
            assert(order@.to_multiset().count(order@[k]) > 0);
            assert(all_indices(n as nat).contains(order@[k]));
        }
        assert(order@.to_multiset().len() == order@.len());
        assert(all_indices(n as nat).to_multiset().len() == all_indices(n as nat).len());
    }
    order
}

/// The names rearranged stably by the given keys (one key per name).
pub fn arrange_by_keys(names: &[String], keys: Vec<Vec<char>>) -> (r: Vec<String>)
    requires
        keys@.len() == names@.len(),
    ensures
        sorted_by_key(string_views(names@), views(keys@), string_views(r@)),
{
    let ghost kv = views(keys@);
    let ghost n = keys@.len();
    let order = stable_order(keys);
    let mut r: Vec<String> = Vec::new();
    let mut i: usize = 0;
    while i < order.len()
        invariant
            i <= order@.len(),
            order@.len() == names@.len(),
            forall|k: int| 0 <= k < order@.len() ==> #[trigger] order@[k] < names@.len(),
            string_views(r@) == picked(string_views(names@), order@.take(i as int)),
        decreases order@.len() - i,
    {
        let ghost pre = r@;
        let x = order[i];
        let s = names[x].clone();
        r.push(s);
        proof {
            let want = picked(string_views(names@), order@.take(i + 1));
            assert(string_views(pre) =~= picked(string_views(names@), order@.take(i as int)));
            assert(string_views(pre).len() == pre.len());
            assert(pre.len() == i);
            assert(r@ == pre.push(s));
            assert forall|k: int| 0 <= k < want.len() implies #[trigger] string_views(r@)[k] == want[k] by {
                assert(order@.take(i + 1)[k] == order@[k]);
                if k < i {
                    assert(r@[k] == pre[k]);
                    assert(string_views(pre)[k] == pre[k]@);
                    assert(order@.take(i as int)[k] == order@[k]);
                } else {
                    assert(r@[k] == s);
                }
            }
            assert(string_views(r@) =~= want);
        }
        i += 1;
    }
    assert(order@.take(order@.len() as int) =~= order@);
    assert(stable_by_key(kv, order@));
    r
}

/// The keys of names that are the names themselves.
pub fn name_keys(names: &[String]) -> (keys: Vec<Vec<char>>)
    ensures
        views(keys@) == string_views(names@),
{
    let mut keys: Vec<Vec<char>> = Vec::new();
    let mut i: usize = 0;
    while i < names.len()
        invariant
            i <= names@.len(),
            keys@.len() == i,
            forall|k: int| 0 <= k < i ==> #[trigger] keys@[k]@ == names@[k]@,
        decreases names@.len() - i,
    {
        keys.push(chars_of(names[i].as_str()));
        i += 1;
    }
    assert(views(keys@) =~= string_views(names@));
    keys
}

} // verus!
