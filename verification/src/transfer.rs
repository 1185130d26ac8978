//! `cp` and `mv`: the overwrite confirmation, where each source goes, what is
//! done with a source, and the verbose report line.
use vstd::prelude::*;
use crate::text::{chars_of, string_of, trim_chars, trim_spec, to_lowercase, lowercase, push_str, owned, str_eq};
use crate::escape::string_views;

verus! {

/// An answer confirms an overwrite when, trimmed and in lower case, it is
/// `y` or `yes`.
pub open spec fn affirmative(answer: Seq<char>) -> bool {
    let a = lowercase(trim_spec(answer));
    a == seq!['y'] || a == seq!['y', 'e', 's']
}

pub fn is_affirmative(answer: &str) -> (b: bool)
    ensures
        b == affirmative(answer@),
{
    let a = chars_of(answer);
    let t = trim_chars(a.as_slice());
    let ts = string_of(t.as_slice());
    let l = to_lowercase(ts.as_str());
    proof {
        reveal_strlit("y");
        reveal_strlit("yes");
    }
    assert("y"@ =~= seq!['y']);
    assert("yes"@ =~= seq!['y', 'e', 's']);
    str_eq(l.as_str(), "y") || str_eq(l.as_str(), "yes")
}

/// The paths given: every one but the last is a source, the last is the
/// destination.
pub fn split_paths(paths: &[String]) -> (r: (Vec<String>, String))
    requires
        paths@.len() >= 1,
    ensures
        string_views(r.0@) == string_views(paths@).drop_last(),
        r.1@ == paths@.last()@,
{
    let n = paths.len();
    let mut sources: Vec<String> = Vec::new();
    let mut i: usize = 0;
    while i < n - 1
        invariant
            n == paths@.len(),
            n >= 1,
            i <= n - 1,
            sources@.len() == i,
            forall|k: int| 0 <= k < i ==> #[trigger] sources@[k]@ == paths@[k]@,
        decreases n - 1 - i,
    {
        sources.push(paths[i].clone());
        i += 1;
    }
    assert(string_views(sources@) =~= string_views(paths@).drop_last());
    (sources, paths[n - 1].clone())
}

/// Where a source goes.
#[derive(Clone, Copy, PartialEq, Eq, Structural)]
pub enum Target {
    /// Into the destination directory, under the source's own name.
    IntoDirectory,
    /// To the destination path itself.
    ToPath,
    /// Nowhere: several sources need a destination directory.
    NotADirectory,
}

/// Into a destination directory; else to the path, which takes one source
/// only.
pub open spec fn target_spec(dst_is_dir: bool, n_sources: nat) -> Target {
    if dst_is_dir {
        Target::IntoDirectory
    } else if n_sources > 1 {
        Target::NotADirectory
    } else {
        Target::ToPath
    }
}

pub fn target_for(dst_is_dir: bool, n_sources: usize) -> (t: Target)
    ensures
        t == target_spec(dst_is_dir, n_sources as nat),
{
    if dst_is_dir {
        Target::IntoDirectory
    } else if n_sources > 1 {
        Target::NotADirectory
    } else {
        Target::ToPath
    }
}

/// What `cp` does with one source.
#[derive(Clone, Copy, PartialEq, Eq, Structural)]
pub enum CopyAction {
    /// A directory without `-r`: reported and left alone.
    SkipDirectory,
    /// A directory with `-r`: the destination is made and each entry copied
    /// into it the same way.
    CopyDirectory,
    /// Anything else is copied as a file.
    CopyFile,
}

pub open spec fn copy_action_spec(src_is_dir: bool, recursive: bool) -> CopyAction {
    if src_is_dir {
        if recursive { CopyAction::CopyDirectory } else { CopyAction::SkipDirectory }
    } else {
        CopyAction::CopyFile
    }
}

pub fn copy_action(src_is_dir: bool, recursive: bool) -> (a: CopyAction)
    ensures
        a == copy_action_spec(src_is_dir, recursive),
{
    if src_is_dir {
        if recursive { CopyAction::CopyDirectory } else { CopyAction::SkipDirectory }
    } else {
        CopyAction::CopyFile
    }
}

/// Whether a write may go ahead: it may unless the destination exists under
/// `-i` and the answer to the question does not confirm. `answer` is only
/// read when the question was asked.
pub open spec fn may_write_spec(dst_exists: bool, interactive: bool, answer: Seq<char>) -> bool {
    !(dst_exists && interactive) || affirmative(answer)
}

/// Whether the overwrite question is asked.
pub open spec fn asks(dst_exists: bool, interactive: bool) -> bool {
    dst_exists && interactive
}

pub fn must_ask(dst_exists: bool, interactive: bool) -> (b: bool)
    ensures
        b == asks(dst_exists, interactive),
{
    dst_exists && interactive
}

pub fn may_write(dst_exists: bool, interactive: bool, answer: &str) -> (b: bool)
    ensures
        b == may_write_spec(dst_exists, interactive, answer@),
{
    if dst_exists && interactive {
        is_affirmative(answer)
    } else {
        true
    }
}

/// The line of `-v`: `source -> destination`.
pub open spec fn transfer_line_spec(src: Seq<char>, dst: Seq<char>) -> Seq<char> {
    src + seq![' ', '-', '>', ' '] + dst
}

pub fn transfer_line(src: &str, dst: &str) -> (r: String)
    ensures
        r@ == transfer_line_spec(src@, dst@),
{
    let mut r = owned(src);
    proof { reveal_strlit(" -> "); }
    push_str(&mut r, " -> ");
    push_str(&mut r, dst);
    assert(r@ =~= transfer_line_spec(src@, dst@));
    r
}

} // verus!
