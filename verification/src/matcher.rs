//! The regular-expression matcher of `grep`, from the `regex` crate.
use vstd::prelude::*;

verus! {

/// `regex::Regex`, carried through opaquely.
#[verifier::external_type_specification]
#[verifier::external_body]
pub struct ExRegex(regex::Regex);

/// Whether `RegexBuilder::new(pattern).case_insensitive(ignore_case).build()`
/// succeeds.
pub uninterp spec fn regex_compiles(pattern: Seq<char>, ignore_case: bool) -> bool;

/// `Regex::is_match` of the regex built from `pattern` and `ignore_case`, on
/// `text`.
pub uninterp spec fn regex_matches(pattern: Seq<char>, ignore_case: bool, text: Seq<char>) -> bool;

/// The `(start, end)` byte offsets of the matches `Regex::find_iter` yields for
/// the regex built from `pattern` and `ignore_case`, on `text`.
pub uninterp spec fn regex_spans(pattern: Seq<char>, ignore_case: bool, text: Seq<char>) -> Seq<(usize, usize)>;

/// The byte length of the UTF-8 encoding of `s`.
pub open spec fn byte_len(s: Seq<char>) -> int {
    vstd::utf8::encode_utf8(s).len() as int
}

/// `o` is a character boundary of `text`: the byte length of some prefix.
pub open spec fn on_boundary(text: Seq<char>, o: int) -> bool {
    exists|k: int| 0 <= k <= text.len() && #[trigger] byte_len(text.take(k)) == o
}

/// What the `regex` documentation promises of the matches of `find_iter`:
/// each starts no later than it ends, both offsets fall on character
/// boundaries of the text, and successive matches do not overlap.
pub open spec fn spans_well_formed(text: Seq<char>, spans: Seq<(usize, usize)>) -> bool {
    &&& forall|k: int| 0 <= k < spans.len() ==> (#[trigger] spans[k]).0 <= spans[k].1
    &&& forall|k: int| 0 <= k < spans.len() ==> on_boundary(text, (#[trigger] spans[k]).0 as int)
    &&& forall|k: int| 0 <= k < spans.len() ==> on_boundary(text, (#[trigger] spans[k]).1 as int)
    &&& forall|k: int| 0 <= k < spans.len() - 1 ==> (#[trigger] spans[k]).1 <= spans[k + 1].0
}

/// A compiled pattern together with the pattern text and case flag it was
/// built from. Values are only made by `Matcher::new`, so the regex a value
/// holds is always the one built from its pattern and flag.
pub struct Matcher {
    re: regex::Regex,
    pattern: String,
    ignore_case: bool,
}

/// `RegexBuilder::new(pattern).case_insensitive(ignore_case).build()`, with
/// the error dropped: the regex when the pattern compiles, `None` when it
/// does not. Which patterns compile is named `regex_compiles`.
#[verifier::external_body]
fn compile(pattern: &str, ignore_case: bool) -> (r: Option<regex::Regex>)
    ensures
        r is Some <==> regex_compiles(pattern@, ignore_case),
{
    regex::RegexBuilder::new(pattern).case_insensitive(ignore_case).build().ok()
}

impl Matcher {
    pub closed spec fn pattern(&self) -> Seq<char> {
        self.pattern@
    }

    pub closed spec fn ignore_case(&self) -> bool {
        self.ignore_case
    }

    /// The matcher of `pattern` (case-insensitive with `ignore_case`), or
    /// `None` when the pattern does not compile.
    pub fn new(pattern: &str, ignore_case: bool) -> (r: Option<Matcher>)
        ensures
            r is Some <==> regex_compiles(pattern@, ignore_case),
            r matches Some(m) ==> m.pattern() == pattern@ && m.ignore_case() == ignore_case,
    {
        match compile(pattern, ignore_case) {
            Some(re) => Some(Matcher { re, pattern: crate::text::owned(pattern), ignore_case }),
            None => None,
        }
    }

    /// `Regex::is_match` on the matcher's regex: whether the text holds a
    /// match, named `regex_matches` of the pattern, the flag and the text.
    #[verifier::external_body]
    pub(crate) fn is_match(&self, text: &str) -> (b: bool)
        ensures
            b == regex_matches(self.pattern(), self.ignore_case(), text@),
    {
        self.re.is_match(text)
    }

    /// `Regex::find_iter` on the matcher's regex, each match as its
    /// `(start, end)` byte offsets: the list is named `regex_spans` of the
    /// pattern, the flag and the text, and it is well formed as the `regex`
    /// documentation promises (`spans_well_formed`).
    #[verifier::external_body]
    pub(crate) fn find_spans(&self, text: &str) -> (r: Vec<(usize, usize)>)
        ensures
            r@ == regex_spans(self.pattern(), self.ignore_case(), text@),
            spans_well_formed(text@, r@),
    {
        self.re.find_iter(text).map(|m| (m.start(), m.end())).collect()
    }
}

} // verus!
