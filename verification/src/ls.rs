//! `ls`: which names are listed and in what order, and how a row is written.
use vstd::prelude::*;
use crate::text::{chars_of, to_lowercase, lowercase, push_str, push_char, owned};
use crate::names::{shown, shown_names, sorted_by_key, arrange_by_keys};
use crate::cut::views;
use crate::escape::string_views;
use crate::sizes::{format_permissions, permissions_spec, format_size, ls_size_spec, format_time, time_spec};

verus! {

/// The name `.`.
pub open spec fn dot() -> Seq<char> {
    seq!['.']
}

/// The name `..`.
pub open spec fn dotdot() -> Seq<char> {
    seq!['.', '.']
}

pub open spec fn is_dot_entry(name: Seq<char>) -> bool {
    name == dot() || name == dotdot()
}

/// The names other than `.` and `..`, in their order.
pub open spec fn without_dots(names: Seq<Seq<char>>) -> Seq<Seq<char>>
    decreases names.len(),
{
    if names.len() == 0 {
        names
    } else {
        let rest = without_dots(names.drop_last());
        if is_dot_entry(names.last()) { rest } else { rest.push(names.last()) }
    }
}

/// The lower-case form of each name: the key `ls` sorts by.
pub open spec fn lower_keys(names: Seq<Seq<char>>) -> Seq<Seq<char>> {
    Seq::new(names.len(), |i: int| lowercase(names[i]))
}

/// The rows `ls` lists for the given names: sorted stably by their lower-case
/// form, and with `-a` led by `.` and `..` (any `.` or `..` among the names
/// is not listed again).
pub open spec fn rows_ok(names: Seq<Seq<char>>, all: bool, r: Seq<Seq<char>>) -> bool {
    if all {
        let rest = without_dots(names);
        &&& r.len() >= 2
        &&& r[0] == dot()
        &&& r[1] == dotdot()
        &&& sorted_by_key(rest, lower_keys(rest), r.skip(2))
    } else {
        sorted_by_key(names, lower_keys(names), r)
    }
}

fn is_dot_name(name: &str) -> (b: bool)
    ensures
        b == is_dot_entry(name@),
{
    let v = chars_of(name);
    let b = (v.len() == 1 && v[0] == '.') || (v.len() == 2 && v[0] == '.' && v[1] == '.');
    proof {
        if v@.len() == 1 && v@[0] == '.' {
            assert(v@ =~= dot());
        }
        if v@.len() == 2 && v@[0] == '.' && v@[1] == '.' {
            assert(v@ =~= dotdot());
        }
    }
    b
}

fn drop_dots(names: &[String]) -> (r: Vec<String>)
    ensures
        string_views(r@) == without_dots(string_views(names@)),
{
    let ghost nv = string_views(names@);
    let mut r: Vec<String> = Vec::new();
    let mut i: usize = 0;
    assert(nv.take(0) =~= Seq::<Seq<char>>::empty());
    while i < names.len()
        invariant
            i <= names@.len(),
            nv == string_views(names@),
            string_views(r@) == without_dots(nv.take(i as int)),
        decreases names@.len() - i,
    {
        let ghost pre = r@;
        assert(nv.take(i + 1).drop_last() =~= nv.take(i as int));
        assert(nv.take(i + 1).last() == names@[i as int]@);
        if !is_dot_name(names[i].as_str()) {
            r.push(names[i].clone());
            assert(string_views(r@) =~= string_views(pre).push(names@[i as int]@));
        }
        i += 1;
    }
    assert(nv.take(names@.len() as int) =~= nv);
    r
}

fn lower_case_keys(names: &[String]) -> (keys: Vec<Vec<char>>)
    ensures
        views(keys@) == lower_keys(string_views(names@)),
{
    let mut keys: Vec<Vec<char>> = Vec::new();
    let mut i: usize = 0;
    while i < names.len()
        invariant
            i <= names@.len(),
            keys@.len() == i,
            forall|k: int| 0 <= k < i ==> #[trigger] keys@[k]@ == lowercase(names@[k]@),
        decreases names@.len() - i,
    {
        let l = to_lowercase(names[i].as_str());
        keys.push(chars_of(l.as_str()));
        i += 1;
    }
    assert(views(keys@) =~= lower_keys(string_views(names@)));
    keys
}

/// The names sorted stably by their lower-case form.
pub fn sort_by_lowercase(names: &[String]) -> (r: Vec<String>)
    ensures
        sorted_by_key(string_views(names@), lower_keys(string_views(names@)), string_views(r@)),
{
    let keys = lower_case_keys(names);
    arrange_by_keys(names, keys)
}

/// `prepare_rows`: the names in listing order, with `-a` led by `.` and `..`.
pub fn prepare_rows(names: &[String], all: bool) -> (r: Vec<String>)
    ensures
        rows_ok(string_views(names@), all, string_views(r@)),
{
    if all {
        let rest = drop_dots(names);
        let sorted = sort_by_lowercase(rest.as_slice());
        let mut r: Vec<String> = Vec::new();
        r.push(owned("."));
        r.push(owned(".."));
        let ghost head = r@;
        proof {
            reveal_strlit(".");
            reveal_strlit("..");
        }
        let mut i: usize = 0;
        while i < sorted.len()
            invariant
                i <= sorted@.len(),
                r@.len() == i + 2,
                r@[0]@ == dot(),
                r@[1]@ == dotdot(),
                forall|k: int| 0 <= k < i ==> #[trigger] r@[k + 2] == sorted@[k],
            decreases sorted@.len() - i,
        {
            r.push(sorted[i].clone());
            i += 1;
        }
        proof {
            assert(string_views(r@)[0] == r@[0]@);
            assert(string_views(r@)[1] == r@[1]@);
            assert(string_views(r@).skip(2) =~= string_views(sorted@)) by {
                assert forall|k: int| 0 <= k < sorted@.len() implies
                    #[trigger] string_views(r@).skip(2)[k] == string_views(sorted@)[k] by {
                    assert(r@[k + 2] == sorted@[k]);
                }
            }
        }
        r
    } else {
        sort_by_lowercase(names)
    }
}

/// The names `ls` lists from what the directory holds: hidden names dropped
/// unless `-a`, then in listing order.
pub fn list_names(names: &[String], all: bool) -> (r: Vec<String>)
    ensures
        rows_ok(shown(string_views(names@), all), all, string_views(r@)),
{
    let visible = shown_names(names, all);
    prepare_rows(visible.as_slice(), all)
}

/// A row of `ls -l`: permissions, size, time, the name, and `/` after two
/// spaces for a directory.
pub open spec fn long_row_spec(mode: u32, is_dir: bool, len: nat, human: bool, mtime: nat, name: Seq<char>) -> Seq<char> {
    permissions_spec(mode, is_dir) + seq![' '] + ls_size_spec(len, human) + seq![' '] + time_spec(mtime)
        + seq![' '] + name + seq![' ', ' '] + (if is_dir { seq!['/'] } else { Seq::empty() })
}

pub fn long_row(mode: u32, is_dir: bool, len: u64, human: bool, mtime: u64, name: &str) -> (r: String)
    ensures
        r@ == long_row_spec(mode, is_dir, len as nat, human, mtime as nat, name@),
{
    let mut r = format_permissions(mode, is_dir);
    push_char(&mut r, ' ');
    let size = format_size(len, human);
    push_str(&mut r, size.as_str());
    push_char(&mut r, ' ');
    let time = format_time(mtime);
    push_str(&mut r, time.as_str());
    push_char(&mut r, ' ');
    push_str(&mut r, name);
    push_char(&mut r, ' ');
    push_char(&mut r, ' ');
    if is_dir {
        push_char(&mut r, '/');
    }
    assert(r@ =~= long_row_spec(mode, is_dir, len as nat, human, mtime as nat, name@));
    r
}

/// The short listing: each name followed by two spaces, then a newline.
pub open spec fn short_listing_spec(names: Seq<Seq<char>>) -> Seq<char>
    decreases names.len(),
{
    if names.len() == 0 {
        seq!['\n']
    } else {
        names[0] + seq![' ', ' '] + short_listing_spec(names.drop_first())
    }
}

pub fn short_listing(names: &[String]) -> (r: String)
    ensures
        r@ == short_listing_spec(string_views(names@)),
{
    let ghost all = string_views(names@);
    let mut r = String::new();
    let mut i: usize = 0;
    assert(all.skip(0) =~= all);
    while i < names.len()
        invariant
            i <= names@.len(),
            all == string_views(names@),
            r@ + short_listing_spec(all.skip(i as int)) == short_listing_spec(all),
        decreases names@.len() - i,
    {
        let ghost rest = all.skip(i as int);
        let ghost old_r = r@;
        assert(rest.drop_first() =~= all.skip(i + 1));
        assert(rest[0] == names@[i as int]@);
        push_str(&mut r, names[i].as_str());
        push_char(&mut r, ' ');
        push_char(&mut r, ' ');
        assert(r@ == old_r + names@[i as int]@ + seq![' ', ' ']);
        assert(short_listing_spec(rest) == rest[0] + seq![' ', ' '] + short_listing_spec(rest.drop_first()));
        assert(r@ + short_listing_spec(all.skip(i + 1)) =~= old_r + short_listing_spec(rest));
        i += 1;
    }
    assert(all.skip(i as int) =~= Seq::<Seq<char>>::empty());
    push_char(&mut r, '\n');
    r
}

/// A row of the multi-tool's `ls -l`: `d` or `-`, the fixed permissions
/// `rwxr-xr-x`, a space, the size text, two spaces, and the name.
pub open spec fn box_long_row_spec(is_dir: bool, size: Seq<char>, name: Seq<char>) -> Seq<char> {
    seq![if is_dir { 'd' } else { '-' }] + seq!['r', 'w', 'x', 'r', '-', 'x', 'r', '-', 'x', ' '] + size
        + seq![' ', ' '] + name
}

pub fn box_long_row(is_dir: bool, size: &str, name: &str) -> (r: String)
    ensures
        r@ == box_long_row_spec(is_dir, size@, name@),
{
    let mut r = String::new();
    push_char(&mut r, if is_dir { 'd' } else { '-' });
    proof { reveal_strlit("rwxr-xr-x "); }
    push_str(&mut r, "rwxr-xr-x ");
    push_str(&mut r, size);
    push_char(&mut r, ' ');
    push_char(&mut r, ' ');
    push_str(&mut r, name);
    assert(r@ =~= box_long_row_spec(is_dir, size@, name@));
    r
}

} // verus!
