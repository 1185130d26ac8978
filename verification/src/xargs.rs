//! `xargs`: turning input into arguments, cutting them into batches, the
//! confirmation prompt, and the exit code carried out of the runs.
use vstd::prelude::*;
use crate::text::{chars_of, string_of, trim_end_chars, trim_end_spec, trim_chars, trim_spec,
    to_lowercase, lowercase, push_str, push_char, owned, str_eq};
use crate::cut::{views, split_str, split_at_str, join};
use crate::escape::string_views;

verus! {

/// The pieces that are not empty, in their order.
pub open spec fn nonempty(v: Seq<Seq<char>>) -> Seq<Seq<char>>
    decreases v.len(),
{
    if v.len() == 0 {
        v
    } else {
        let rest = nonempty(v.drop_last());
        if v.last().len() == 0 { rest } else { rest.push(v.last()) }
    }
}

/// The lines that are not empty (the arguments read line by line).
pub fn nonempty_args(lines: &[String]) -> (r: Vec<String>)
    ensures
        string_views(r@) == nonempty(string_views(lines@)),
{
    let ghost lv = string_views(lines@);
    let mut r: Vec<String> = Vec::new();
    let mut i: usize = 0;
    assert(lv.take(0) =~= Seq::<Seq<char>>::empty());
    while i < lines.len()
        invariant
            i <= lines@.len(),
            lv == string_views(lines@),
            string_views(r@) == nonempty(lv.take(i as int)),
        decreases lines@.len() - i,
    {
        let ghost pre = r@;
        assert(lv.take(i + 1).drop_last() =~= lv.take(i as int));
        assert(lv.take(i + 1).last() == lines@[i as int]@);
        let v = chars_of(lines[i].as_str());
        if v.len() > 0 {
            r.push(lines[i].clone());
            assert(string_views(r@) =~= string_views(pre).push(lines@[i as int]@));
        }
        i += 1;
    }
    assert(lv.take(lines@.len() as int) =~= lv);
    r
}

/// The arguments `-d` makes of the whole input: the input without trailing
/// whitespace, split at each occurrence of the delimiter, empty pieces
/// dropped.
pub open spec fn delimited_args(input: Seq<char>, delim: Seq<char>) -> Seq<Seq<char>> {
    nonempty(split_str(trim_end_spec(input), delim))
}

pub fn split_input_args(input: &str, delim: &str) -> (r: Vec<String>)
    ensures
        string_views(r@) == delimited_args(input@, delim@),
{
    let chars = chars_of(input);
    let trimmed = trim_end_chars(chars.as_slice());
    let d = chars_of(delim);
    let pieces = split_at_str(trimmed.as_slice(), d.as_slice());
    let ghost pv = views(pieces@);
    let mut r: Vec<String> = Vec::new();
    let mut i: usize = 0;
    assert(pv.take(0) =~= Seq::<Seq<char>>::empty());
    while i < pieces.len()
        invariant
            i <= pieces@.len(),
            pv == views(pieces@),
            string_views(r@) == nonempty(pv.take(i as int)),
        decreases pieces@.len() - i,
    {
        let ghost pre = r@;
        assert(pv.take(i + 1).drop_last() =~= pv.take(i as int));
        assert(pv.take(i + 1).last() == pieces@[i as int]@);
        if pieces[i].len() > 0 {
            let s = string_of(pieces[i].as_slice());
            r.push(s);
            assert(string_views(r@) =~= string_views(pre).push(pieces@[i as int]@));
        }
        i += 1;
    }
    assert(pv.take(pieces@.len() as int) =~= pv);
    r
}

/// The command and its fixed arguments: the first word and the rest, or
/// `echo` with none when no command is given.
pub open spec fn command_spec(command: Seq<Seq<char>>) -> (Seq<char>, Seq<Seq<char>>) {
    if command.len() == 0 {
        (seq!['e', 'c', 'h', 'o'], Seq::empty())
    } else {
        (command[0], command.drop_first())
    }
}

pub fn split_command(command: &[String]) -> (r: (String, Vec<String>))
    ensures
        r.0@ == command_spec(string_views(command@)).0,
        string_views(r.1@) == command_spec(string_views(command@)).1,
{
    if command.len() == 0 {
        proof { reveal_strlit("echo"); }
        let e = owned("echo");
        assert(e@ =~= seq!['e', 'c', 'h', 'o']);
        return (e, Vec::new());
    }
    let mut rest: Vec<String> = Vec::new();
    let mut i: usize = 1;
    while i < command.len()
        invariant
            1 <= i <= command@.len(),
            rest@.len() == i - 1,
            forall|k: int| 0 <= k < i - 1 ==> #[trigger] rest@[k]@ == command@[k + 1]@,
        decreases command@.len() - i,
    {
        rest.push(command[i].clone());
        i += 1;
    }
    assert(string_views(rest@) =~= string_views(command@).drop_first());
    (command[0].clone(), rest)
}

/// `s` cut into pieces of `size` items, the last one possibly shorter
/// (`slice::chunks`).
pub open spec fn chunks_of<T>(s: Seq<T>, size: nat) -> Seq<Seq<T>>
    decreases s.len(),
{
    if s.len() == 0 || size == 0 {
        Seq::empty()
    } else if s.len() <= size {
        seq![s]
    } else {
        seq![s.take(size as int)] + chunks_of(s.skip(size as int), size)
    }
}

/// The batch size: `-n`, or no limit.
pub open spec fn batch_size(max_args: Option<usize>) -> nat {
    match max_args {
        Some(n) => n as nat,
        None => usize::MAX as nat,
    }
}

/// The argument lists of the runs: the fixed arguments followed by each
/// chunk of the input arguments in turn; without input, one run with the fixed
/// arguments alone (`-r` is what skips it).
pub open spec fn batches_spec(initial: Seq<Seq<char>>, input: Seq<Seq<char>>, max_args: Option<usize>) -> Seq<Seq<Seq<char>>> {
    if input.len() == 0 {
        seq![initial]
    } else {
        let cs = chunks_of(input, batch_size(max_args));
        Seq::new(cs.len(), |k: int| initial + cs[k])
    }
}

proof fn lemma_chunks_step<T>(s: Seq<T>, size: nat, from: nat)
    requires
        size > 0,
        from < s.len(),
    ensures
        chunks_of(s.skip(from as int), size) == (
            if s.len() - from <= size { seq![s.skip(from as int)] }
            else { seq![s.skip(from as int).take(size as int)] + chunks_of(s.skip((from + size) as int), size) }),
{
    if s.len() - from > size {
        assert(s.skip(from as int).skip(size as int) =~= s.skip((from + size) as int));
    }
}

/// The argument lists of the runs. A limit of 0 arguments per run is refused
/// (`chunks` panics on it).
pub fn batches(initial: &[String], input: &[String], max_args: Option<usize>) -> (r: Vec<Vec<String>>)
    requires
        max_args != Some(0usize),
    ensures
        r@.len() == batches_spec(string_views(initial@), string_views(input@), max_args).len(),
        forall|k: int| 0 <= k < r@.len() ==> string_views(#[trigger] r@[k]@)
            == batches_spec(string_views(initial@), string_views(input@), max_args)[k],
{
    let size: usize = match max_args {
        Some(n) => n,
        None => usize::MAX,
    };
    let ghost iv = string_views(initial@);
    let ghost all = string_views(input@);
    let ghost spec_all = batches_spec(iv, all, max_args);
    let mut r: Vec<Vec<String>> = Vec::new();
    let n = input.len();
    if n == 0 {
        let mut only: Vec<String> = Vec::new();
        let mut i: usize = 0;
        while i < initial.len()
            invariant
                i <= initial@.len(),
                only@.len() == i,
                forall|k: int| 0 <= k < i ==> #[trigger] only@[k]@ == initial@[k]@,
            decreases initial@.len() - i,
        {
            only.push(initial[i].clone());
            i += 1;
        }
        assert(string_views(only@) =~= iv);
        r.push(only);
        assert(r@[0] == only);
        return r;
    }
    let mut from: usize = 0;
    assert(all.skip(0) =~= all);
    while from < n
        invariant
            n == input@.len(),
            size as nat == batch_size(max_args),
            size > 0,
            from <= n,
            iv == string_views(initial@),
            all == string_views(input@),
            chunks_of(all, size as nat) == Seq::new(r@.len(), |k: int| string_views(r@[k]@).skip(iv.len() as int))
                + chunks_of(all.skip(from as int), size as nat),
            forall|k: int| 0 <= k < r@.len() ==> string_views(#[trigger] r@[k]@).take(iv.len() as int) == iv,
            forall|k: int| 0 <= k < r@.len() ==> string_views(#[trigger] r@[k]@).len() >= iv.len(),
        decreases n - from,
    {
        let to = if n - from <= size { n } else { from + size };
        let mut batch: Vec<String> = Vec::new();
        let mut i: usize = 0;
        while i < initial.len()
            invariant
                i <= initial@.len(),
                batch@.len() == i,
                forall|k: int| 0 <= k < i ==> #[trigger] batch@[k]@ == initial@[k]@,
            decreases initial@.len() - i,
        {
            batch.push(initial[i].clone());
            i += 1;
        }
        let mut j: usize = from;
        while j < to
            invariant
                from <= j <= to <= input@.len(),
                batch@.len() == initial@.len() + (j - from),
                forall|k: int| 0 <= k < initial@.len() ==> #[trigger] batch@[k]@ == initial@[k]@,
                forall|k: int| 0 <= k < j - from ==> #[trigger] batch@[initial@.len() + k]@ == input@[from + k]@,
            decreases to - j,
        {
            batch.push(input[j].clone());
            j += 1;
        }
        proof {
            lemma_chunks_step(all, size as nat, from as nat);
            let bv = string_views(batch@);
            assert(bv.take(iv.len() as int) =~= iv);
            assert(bv.len() == iv.len() + (to - from));
            assert forall|k: int| 0 <= k < to - from implies
                #[trigger] bv.skip(iv.len() as int)[k] == all.skip(from as int).take((to - from) as int)[k] by {
                assert(batch@[initial@.len() + k]@ == input@[from + k]@);
                assert(bv[iv.len() + k] == batch@[initial@.len() + k]@);
            }
            assert(bv.skip(iv.len() as int) =~= all.skip(from as int).take((to - from) as int));
            if n - from <= size {
                assert(all.skip(from as int).take((to - from) as int) =~= all.skip(from as int));
            }
        }
        let ghost old_r = r@;
        r.push(batch);
        proof {
            let prev = Seq::new(old_r.len(), |k: int| string_views(old_r[k]@).skip(iv.len() as int));
            let now = Seq::new(r@.len(), |k: int| string_views(r@[k]@).skip(iv.len() as int));
            assert(now =~= prev.push(string_views(r@[old_r.len() as int]@).skip(iv.len() as int)));
            if to == n {
                assert(all.skip(to as int) =~= Seq::<Seq<char>>::empty());
                assert(chunks_of(all.skip(to as int), size as nat) =~= Seq::<Seq<Seq<char>>>::empty());
            }
            assert(now + chunks_of(all.skip(to as int), size as nat) =~= prev + chunks_of(all.skip(from as int), size as nat));
        }
        from = to;
    }
    proof {
        assert(all.skip(n as int) =~= Seq::<Seq<char>>::empty());
        let cs = chunks_of(all, size as nat);
        assert forall|k: int| 0 <= k < r@.len() implies string_views(#[trigger] r@[k]@) == spec_all[k] by {
            let bv = string_views(r@[k]@);
            assert(bv =~= bv.take(iv.len() as int) + bv.skip(iv.len() as int));
        }
    }
    r
}

/// The prompt of `-p`: the command line, then `? (y/n) `.
pub open spec fn prompt_spec(cmd: Seq<char>, args: Seq<Seq<char>>) -> Seq<char> {
    cmd + seq![' '] + join(args, seq![' ']) + seq!['?', ' ', '(', 'y', '/', 'n', ')', ' ']
}

pub fn prompt_text(cmd: &str, args: &[String]) -> (r: String)
    ensures
        r@ == prompt_spec(cmd@, string_views(args@)),
{
    let parts = crate::escape::chars_of_all(args);
    let sep: Vec<char> = vec![' '];
    assert(sep@ =~= seq![' ']);
    let joined = crate::cut::join_chars(&parts, sep.as_slice());
    let mut r = owned(cmd);
    push_char(&mut r, ' ');
    let j = string_of(joined.as_slice());
    push_str(&mut r, j.as_str());
    proof { reveal_strlit("? (y/n) "); }
    push_str(&mut r, "? (y/n) ");
    r
}

/// The answer to the prompt lets the run go ahead when, trimmed and in lower
/// case, it is `y`.
pub open spec fn confirms(answer: Seq<char>) -> bool {
    lowercase(trim_spec(answer)) == seq!['y']
}

pub fn is_yes(answer: &str) -> (b: bool)
    ensures
        b == confirms(answer@),
{
    let a = chars_of(answer);
    let t = trim_chars(a.as_slice());
    let ts = string_of(t.as_slice());
    let l = to_lowercase(ts.as_str());
    proof { reveal_strlit("y"); }
    assert("y"@ =~= seq!['y']);
    str_eq(l.as_str(), "y")
}

/// The exit code after a run that ended with `code` (none when the process
/// was killed by a signal, which counts as 1): a non-zero code replaces the
/// one kept so far.
pub open spec fn next_exit_spec(last: i32, code: Option<i32>) -> i32 {
    let c = match code {
        Some(c) => c,
        None => 1,
    };
    if c != 0 { c } else { last }
}

pub fn next_exit(last: i32, code: Option<i32>) -> (r: i32)
    ensures
        r == next_exit_spec(last, code),
{
    let c = match code {
        Some(c) => c,
        None => 1,
    };
    if c != 0 { c } else { last }
}

/// The exit code after a sequence of runs: the last non-zero one, or 0.
pub open spec fn exit_after(codes: Seq<Option<i32>>) -> i32
    decreases codes.len(),
{
    if codes.len() == 0 {
        0
    } else {
        next_exit_spec(exit_after(codes.drop_last()), codes.last())
    }
}

/// The exit code is 0 exactly when every run ended with 0, and otherwise
/// it is the code of the last run that did not.
pub proof fn lemma_exit_is_last_failure(codes: Seq<Option<i32>>)
    ensures
        (exit_after(codes) == 0) <==> (forall|i: int| 0 <= i < codes.len() ==> #[trigger] codes[i] == Some(0i32)),
        exit_after(codes) != 0 ==> exists|i: int| 0 <= i < codes.len()
            && next_exit_spec(0, #[trigger] codes[i]) == exit_after(codes)
            && forall|j: int| i < j < codes.len() ==> codes[j] == Some(0i32),
    decreases codes.len(),
{
    if codes.len() > 0 {
        let init = codes.drop_last();
        lemma_exit_is_last_failure(init);
        let k = codes.len() - 1;
        assert forall|i: int| 0 <= i < init.len() implies init[i] == codes[i] by {}
        if exit_after(codes) != 0 {
            if next_exit_spec(exit_after(init), codes.last()) != exit_after(init) || codes.last() != Some(0i32) {
                if codes.last() != Some(0i32) {
                    assert(next_exit_spec(0, codes[k]) == exit_after(codes));
                }
            }
            if codes.last() == Some(0i32) {
                let i = choose|i: int| 0 <= i < init.len()
                    && next_exit_spec(0, #[trigger] init[i]) == exit_after(init)
                    && forall|j: int| i < j < init.len() ==> init[j] == Some(0i32);
                assert(codes[i] == init[i]);
                assert forall|j: int| i < j < codes.len() implies codes[j] == Some(0i32) by {
                    if j < k {
                        assert(init[j] == codes[j]);
                    }
                }
            }
        }
    }
}

/// The pieces put back together.
pub open spec fn concat<T>(c: Seq<Seq<T>>) -> Seq<T>
    decreases c.len(),
{
    if c.len() == 0 {
        Seq::empty()
    } else {
        c[0] + concat(c.drop_first())
    }
}

/// The runs together take every input argument once, in order: the chunks
/// put back together are the input, and each chunk holds between one and
/// `size` arguments.
pub proof fn lemma_chunks_cover<T>(s: Seq<T>, size: nat)
    requires
        size > 0,
    ensures
        concat(chunks_of(s, size)) == s,
        forall|k: int| 0 <= k < chunks_of(s, size).len() ==> 0 < (#[trigger] chunks_of(s, size)[k]).len() <= size,
    decreases s.len(),
{
    if s.len() > size {
        let rest = s.skip(size as int);
        lemma_chunks_cover(rest, size);
        let c = chunks_of(s, size);
        assert(c.drop_first() =~= chunks_of(rest, size));
        assert(c[0] == s.take(size as int));
        assert(concat(c) == c[0] + concat(c.drop_first()));
        assert(s.take(size as int) + rest =~= s);
        assert forall|k: int| 0 <= k < c.len() implies 0 < (#[trigger] c[k]).len() <= size by {
            if k > 0 {
                assert(c[k] == chunks_of(rest, size)[k - 1]);
            }
        }
    } else if s.len() > 0 {
        let c = chunks_of(s, size);
        assert(c.drop_first() =~= Seq::<Seq<T>>::empty());
        assert(concat(c.drop_first()) == Seq::<T>::empty());
        assert(c[0] == s);
        assert(s + Seq::<T>::empty() =~= s);
    } else {
        assert(s =~= Seq::<T>::empty());
    }
}

} // verus!
