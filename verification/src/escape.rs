//! Backslash escapes and the text `echo` prints.
use vstd::prelude::*;
use crate::text::{chars_of, string_of};
use crate::cut::{join, join_chars, views};

verus! {

/// The character a backslash escape stands for: `\n`, `\t`, `\r`, `\\`, `\a`
/// (bell) and `\b` (backspace).
pub open spec fn escape_code(c: char) -> Option<char> {
    if c == 'n' {
        Some('\n')
    } else if c == 't' {
        Some('\t')
    } else if c == 'r' {
        Some('\r')
    } else if c == '\\' {
        Some('\\')
    } else if c == 'a' {
        Some('\x07')
    } else if c == 'b' {
        Some('\x08')
    } else {
        None
    }
}

/// `s` with every known escape replaced by the character it stands for; a
/// backslash that starts no known escape stays as it is.
pub open spec fn unescape(s: Seq<char>) -> Seq<char>
    decreases s.len(),
{
    if s.len() == 0 {
        Seq::empty()
    } else if s[0] == '\\' && s.len() > 1 && escape_code(s[1]) is Some {
        seq![escape_code(s[1])->0] + unescape(s.skip(2))
    } else {
        seq![s[0]] + unescape(s.skip(1))
    }
}

fn escape_of(c: char) -> (r: Option<char>)
    ensures
        r == escape_code(c),
{
    if c == 'n' {
        Some('\n')
    } else if c == 't' {
        Some('\t')
    } else if c == 'r' {
        Some('\r')
    } else if c == '\\' {
        Some('\\')
    } else if c == 'a' {
        Some('\x07')
    } else if c == 'b' {
        Some('\x08')
    } else {
        None
    }
}

/// Text without a backslash comes out unchanged.
pub proof fn lemma_unescape_plain(s: Seq<char>)
    requires
        !s.contains('\\'),
    ensures
        unescape(s) == s,
    decreases s.len(),
{
    if s.len() > 0 {
        assert(s[0] != '\\');
        assert(!s.skip(1).contains('\\')) by {
            if s.skip(1).contains('\\') {
                let k = choose|k: int| 0 <= k < s.skip(1).len() && s.skip(1)[k] == '\\';
                assert(s[k + 1] == '\\');
            }
        }
        lemma_unescape_plain(s.skip(1));
        assert(seq![s[0]] + s.skip(1) =~= s);
    }
}

/// `process_escapes`: backslash escapes turned into the characters they stand for.
pub fn process_escapes(s: &str) -> (r: String)
    ensures
        r@ == unescape(s@),
        !s@.contains('\\') ==> r@ == s@,
{
    let cs = chars_of(s);
    let mut out: Vec<char> = Vec::new();
    let mut i: usize = 0;
    assert(s@.skip(0) =~= s@);
    while i < cs.len()
        invariant
            cs@ == s@,
            i <= s@.len(),
            out@ + unescape(s@.skip(i as int)) == unescape(s@),
        decreases s@.len() - i,
    {
        let c = cs[i];
        let ghost rest = s@.skip(i as int);
        assert(rest[0] == c);
        if c == '\\' && i + 1 < cs.len() {
            assert(rest[1] == cs@[i + 1]);
            match escape_of(cs[i + 1]) {
                Some(e) => {
                    assert(rest.skip(2) =~= s@.skip(i + 2));
                    out.push(e);
                    assert(out@ + unescape(s@.skip(i + 2)) =~= out@.drop_last() + unescape(rest));
                    i += 2;
                    continue;
                },
                None => {},
            }
        }
        assert(rest.skip(1) =~= s@.skip(i + 1));
        out.push(c);
        assert(out@ + unescape(s@.skip(i + 1)) =~= out@.drop_last() + unescape(rest));
        i += 1;
    }
    assert(unescape(s@.skip(i as int)) =~= Seq::<char>::empty());
    assert(out@ =~= unescape(s@));
    proof {
        if !s@.contains('\\') {
            lemma_unescape_plain(s@);
        }
    }
    string_of(out.as_slice())
}

/// The character sequences of a list of strings.
pub open spec fn string_views(v: Seq<String>) -> Seq<Seq<char>> {
    Seq::new(v.len(), |i: int| v[i]@)
}

/// What `echo` writes: the arguments joined with single spaces, escapes
/// processed with `-e`, and a newline at the end unless `-n`.
pub open spec fn echo_spec(text: Seq<String>, escape: bool, no_newline: bool) -> Seq<char> {
    let joined = join(string_views(text), seq![' ']);
    let body = if escape { unescape(joined) } else { joined };
    if no_newline { body } else { body.push('\n') }
}

/// The character vectors of a list of strings.
pub fn chars_of_all(v: &[String]) -> (r: Vec<Vec<char>>)
    ensures
        views(r@) == string_views(v@),
{
    let mut r: Vec<Vec<char>> = Vec::new();
    let mut i: usize = 0;
    while i < v.len()
        invariant
            i <= v@.len(),
            r@.len() == i,
            forall|k: int| 0 <= k < i ==> #[trigger] r@[k]@ == v@[k]@,
        decreases v@.len() - i,
    {
        r.push(chars_of(v[i].as_str()));
        i += 1;
    }
    assert(views(r@) =~= string_views(v@));
    r
}

/// The text `echo` writes for its arguments and flags.
pub fn echo_output(text: &[String], escape: bool, no_newline: bool) -> (r: String)
    ensures
        r@ == echo_spec(text@, escape, no_newline),
{
    let parts = chars_of_all(text);
    let sep: Vec<char> = vec![' '];
    assert(sep@ =~= seq![' ']);
    let joined = join_chars(&parts, sep.as_slice());
    let joined_s = string_of(joined.as_slice());
    let mut out = if escape { process_escapes(joined_s.as_str()) } else { joined_s };
    if !no_newline {
        crate::text::push_char(&mut out, '\n');
    }
    out
}

} // verus!
