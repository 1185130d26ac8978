//! Entry selection for `find`: file-type, name and size filters, and the
//! rewriting of single-dash long options.
use vstd::prelude::*;
use crate::text::{chars_of, owned};
use crate::glob::{glob_match, glob, match_name};

verus! {

/// What `find` reads of a directory entry's type.
pub struct EntryKind {
    pub is_file: bool,
    pub is_dir: bool,
    pub is_symlink: bool,
}

/// A directory entry as the filters see it: its type, its file name (lossily
/// decoded) and, for a regular file whose metadata could be read, its size.
pub struct FindEntry {
    pub kind: EntryKind,
    pub file_name: String,
    pub size: Option<u64>,
}

/// `match_type`: `f` selects regular files, `d` directories, `l` symbolic links;
/// any other value selects everything.
pub open spec fn type_selects(kind: EntryKind, t: Seq<char>) -> bool {
    if t == seq!['f'] {
        kind.is_file
    } else if t == seq!['d'] {
        kind.is_dir
    } else if t == seq!['l'] {
        kind.is_symlink
    } else {
        true
    }
}

fn single_char(s: &str) -> (r: Option<char>)
    ensures
        r == (if s@.len() == 1 { Some(s@[0]) } else { None::<char> }),
{
    let v = chars_of(s);
    if v.len() == 1 {
        Some(v[0])
    } else {
        None
    }
}

/// `match_type`.
pub fn match_type(kind: &EntryKind, type_str: &str) -> (r: bool)
    ensures
        r == type_selects(*kind, type_str@),
{
    match single_char(type_str) {
        Some(c) => {
            if c == 'f' {
                assert(type_str@ =~= seq!['f']);
                kind.is_file
            } else if c == 'd' {
                assert(type_str@ =~= seq!['d']);
                kind.is_dir
            } else if c == 'l' {
                assert(type_str@ =~= seq!['l']);
                kind.is_symlink
            } else {
                true
            }
        },
        None => true,
    }
}

/// Whether `find` prints an entry: it passes the type filter, the name filter
/// (wildcards as in `match_name`) and the minimum-size filter (which only
/// regular files with a known size can pass).
pub open spec fn find_selects_spec(
    e: FindEntry,
    name: Option<Seq<char>>,
    file_type: Option<Seq<char>>,
    min_size: Option<u64>,
) -> bool {
    &&& (file_type matches Some(t) ==> type_selects(e.kind, t))
    &&& (name matches Some(p) ==> (if p.contains('*') || p.contains('?') {
        glob(e.file_name@, p)
    } else {
        e.file_name@ == p
    }))
    &&& (min_size matches Some(m) ==> (e.size matches Some(s) && s >= m))
}

pub open spec fn opt_view(o: Option<&str>) -> Option<Seq<char>> {
    match o {
        Some(s) => Some(s@),
        None => None,
    }
}

/// The filters of `find`'s main loop, applied to one entry.
pub fn find_selects(
    entry: &FindEntry,
    name: Option<&str>,
    file_type: Option<&str>,
    min_size: Option<u64>,
) -> (r: bool)
    ensures
        r == find_selects_spec(*entry, opt_view(name), opt_view(file_type), min_size),
{
    if let Some(t) = file_type {
        if !match_type(&entry.kind, t) {
            return false;
        }
    }
    if let Some(p) = name {
        if !match_name(entry.file_name.as_str(), p) {
            return false;
        }
    }
    if let Some(m) = min_size {
        match entry.size {
            Some(s) => {
                if s < m {
                    return false;
                }
            },
            None => {
                return false;
            },
        }
    }
    true
}

/// The multi-tool's `find` filters: type (`f`, `d`, `l` as in `match_type`),
/// name (always a wildcard match) and minimum size (entries whose size is
/// unknown never pass).
pub open spec fn basic_find_selects_spec(
    e: FindEntry,
    name: Option<Seq<char>>,
    file_type: Option<Seq<char>>,
    min_size: Option<u64>,
) -> bool {
    &&& (file_type matches Some(t) ==> type_selects(e.kind, t))
    &&& (name matches Some(p) ==> glob(e.file_name@, p))
    &&& (min_size matches Some(m) ==> (e.size matches Some(s) && s >= m))
}

/// The filters of the multi-tool's `find`, applied to one entry.
pub fn basic_find_selects(
    entry: &FindEntry,
    name: Option<&str>,
    file_type: Option<&str>,
    min_size: Option<u64>,
) -> (r: bool)
    ensures
        r == basic_find_selects_spec(*entry, opt_view(name), opt_view(file_type), min_size),
{
    if let Some(t) = file_type {
        if !match_type(&entry.kind, t) {
            return false;
        }
    }
    if let Some(p) = name {
        if !glob_match(entry.file_name.as_str(), p) {
            return false;
        }
    }
    if let Some(m) = min_size {
        match entry.size {
            Some(s) => {
                if s < m {
                    return false;
                }
            },
            None => {
                return false;
            },
        }
    }
    true
}

pub open spec fn dash_type() -> Seq<char> { seq!['-', 't', 'y', 'p', 'e'] }
pub open spec fn dash_name() -> Seq<char> { seq!['-', 'n', 'a', 'm', 'e'] }
pub open spec fn dash_size() -> Seq<char> { seq!['-', 's', 'i', 'z', 'e'] }

/// How one argument (not the program name) is rewritten: `-type`, `-name` and
/// `-size` get a second dash; anything else stays.
pub open spec fn normalized_arg(a: Seq<char>) -> Seq<char> {
    if a == dash_type() || a == dash_name() || a == dash_size() {
        seq!['-'] + a
    } else {
        a
    }
}

fn normalize_arg(a: &String) -> (r: String)
    ensures
        r@ == normalized_arg(a@),
{
    let v = chars_of(a.as_str());
    if v.len() == 5 && v[0] == '-' {
        let is_type = v[1] == 't' && v[2] == 'y' && v[3] == 'p' && v[4] == 'e';
        let is_name = v[1] == 'n' && v[2] == 'a' && v[3] == 'm' && v[4] == 'e';
        let is_size = v[1] == 's' && v[2] == 'i' && v[3] == 'z' && v[4] == 'e';
        if is_type || is_name || is_size {
            proof {
                if is_type { assert(a@ =~= dash_type()); }
                if is_name { assert(a@ =~= dash_name()); }
                if is_size { assert(a@ =~= dash_size()); }
            }
            let mut r = String::new();
            crate::text::push_char(&mut r, '-');
            crate::text::push_str(&mut r, a.as_str());
            assert(r@ =~= seq!['-'] + a@);
            return r;
        }
        assert(a@ != dash_type() && a@ != dash_name() && a@ != dash_size()) by {
            if a@ == dash_type() { assert(a@[1] == 't' && a@[2] == 'y' && a@[3] == 'p' && a@[4] == 'e'); }
            if a@ == dash_name() { assert(a@[1] == 'n' && a@[2] == 'a' && a@[3] == 'm' && a@[4] == 'e'); }
            if a@ == dash_size() { assert(a@[1] == 's' && a@[2] == 'i' && a@[3] == 'z' && a@[4] == 'e'); }
        }
    } else {
        assert(a@ != dash_type() && a@ != dash_name() && a@ != dash_size()) by {
            if a@ == dash_type() || a@ == dash_name() || a@ == dash_size() {
                assert(a@.len() == 5 && a@[0] == '-');
            }
        }
    }
    owned(a.as_str())
}

/// `normalize_find_style_argv`: every argument after the program name that is
/// `-type`, `-name` or `-size` gets a second dash, so that the argument parser
/// reads it as a long option.
pub fn normalize_find_style_argv(args: Vec<String>) -> (r: Vec<String>)
    ensures
        r@.len() == args@.len(),
        args@.len() > 0 ==> r@[0] == args@[0],
        forall|i: int| 1 <= i < args@.len() ==> #[trigger] r@[i]@ == normalized_arg(args@[i]@),
{
    let mut r: Vec<String> = Vec::new();
    let mut i: usize = 0;
    while i < args.len()
        invariant
            i <= args@.len(),
            r@.len() == i,
            i > 0 ==> r@[0] == args@[0],
            forall|k: int| 1 <= k < i ==> #[trigger] r@[k]@ == normalized_arg(args@[k]@),
        decreases args@.len() - i,
    {
        if i == 0 {
            r.push(args[0].clone());
        } else {
            r.push(normalize_arg(&args[i]));
        }
        i += 1;
    }
    r
}

} // verus!
