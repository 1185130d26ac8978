//! Terminal colours from the `colored` crate: the escape sequences it writes
//! around a painted string, or the string unchanged when colouring is off.
use vstd::prelude::*;
use colored::Colorize;

verus! {

/// The escape sequence that starts bold red text.
pub open spec fn bold_red() -> Seq<char> {
    seq!['\x1b', '[', '1', ';', '3', '1', 'm']
}

/// The escape sequence that starts green text.
pub open spec fn green() -> Seq<char> {
    seq!['\x1b', '[', '3', '2', 'm']
}

/// The escape sequence that starts bold green text.
pub open spec fn bold_green() -> Seq<char> {
    seq!['\x1b', '[', '1', ';', '3', '2', 'm']
}

/// The escape sequence that resets the style.
pub open spec fn reset() -> Seq<char> {
    seq!['\x1b', '[', '0', 'm']
}

/// `s` with the sequence `style` put back after every reset sequence inside
/// it, so that nested styling does not end the colour early.
pub open spec fn restyle(s: Seq<char>, style: Seq<char>) -> Seq<char>
    decreases s.len(),
{
    if s.len() == 0 {
        s
    } else if s.len() >= 4 && s.take(4) == reset() {
        reset() + style + restyle(s.skip(4), style)
    } else {
        seq![s[0]] + restyle(s.skip(1), style)
    }
}

/// What painting `s` with `style` may give: `s` itself when colouring is
/// off, or `s` wrapped in the style and reset sequences when it is on.
pub open spec fn painted_with(style: Seq<char>, s: Seq<char>, p: Seq<char>) -> bool {
    p == s || p == style + restyle(s, style) + reset()
}

/// What painting `s` bold red may give.
pub open spec fn painted_ok(s: Seq<char>, p: Seq<char>) -> bool {
    painted_with(bold_red(), s, p)
}

/// `s.red().bold().to_string()` of the `colored` crate. Whether colour is used
/// depends on the environment (`NO_COLOR`, `CLICOLOR`, `CLICOLOR_FORCE`) and on
/// whether standard output is a terminal, so only the two possible outcomes
/// are stated.
#[verifier::external_body]
pub(crate) fn paint_bold_red(s: &str) -> (r: String)
    ensures
        painted_ok(s@, r@),
{
    s.red().bold().to_string()
}

/// `s.green().to_string()` of the `colored` crate; as with
/// `paint_bold_red`, only the two possible outcomes are stated.
#[verifier::external_body]
pub(crate) fn paint_green(s: &str) -> (r: String)
    ensures
        painted_with(green(), s@, r@),
{
    s.green().to_string()
}

/// `s.green().bold().to_string()` of the `colored` crate; as with
/// `paint_bold_red`, only the two possible outcomes are stated.
#[verifier::external_body]
pub(crate) fn paint_bold_green(s: &str) -> (r: String)
    ensures
        painted_with(bold_green(), s@, r@),
{
    s.green().bold().to_string()
}

} // verus!
