//! Terminal styling through `owo_colors`.
//!
//! Each function here renders `owo_colors`' display adapter for a string.
//! The adapters write an ANSI SGR sequence, the inner text, and the
//! matching reset sequence (see `owo_colors::styles` and
//! `owo_colors::colors`): `ESC[1m` … `ESC[0m` for bold, `ESC[2m` … `ESC[0m`
//! for dim, and `ESC[3Xm` … `ESC[39m` for the foreground colors.
use vstd::prelude::*;
use owo_colors::OwoColorize;

verus! {

/// The ANSI select-graphic-rendition sequence `ESC [ code m`.
pub open spec fn sgr(code: Seq<char>) -> Seq<char> {
    seq!['\x1b', '['] + code + seq!['m']
}

/// `t` between the SGR sequence `code` and the SGR sequence `reset`.
pub open spec fn styled(code: Seq<char>, t: Seq<char>, reset: Seq<char>) -> Seq<char> {
    sgr(code) + t + sgr(reset)
}

/// Bold text: `ESC[1m t ESC[0m`.
pub open spec fn bold_text(t: Seq<char>) -> Seq<char> {
    styled(seq!['1'], t, seq!['0'])
}

/// Dim text: `ESC[2m t ESC[0m`.
pub open spec fn dim_text(t: Seq<char>) -> Seq<char> {
    styled(seq!['2'], t, seq!['0'])
}

/// Foreground color `c` (the second digit of the ANSI code `3c`).
pub open spec fn fg_text(c: char, t: Seq<char>) -> Seq<char> {
    styled(seq!['3', c], t, seq!['3', '9'])
}

/// `OwoColorize::bold` on a string, rendered with `Display`.
#[verifier::external_body]
pub(crate) fn bold(t: &str) -> (s: String)
    ensures
        s@ == bold_text(t@),
{
    format!("{}", t.bold())
}

/// `OwoColorize::dimmed` on a string, rendered with `Display`.
#[verifier::external_body]
pub(crate) fn dimmed(t: &str) -> (s: String)
    ensures
        s@ == dim_text(t@),
{
    format!("{}", t.dimmed())
}

/// `OwoColorize::red` on a string, rendered with `Display` (ANSI 31).
#[verifier::external_body]
pub(crate) fn red(t: &str) -> (s: String)
    ensures
        s@ == fg_text('1', t@),
{
    format!("{}", t.red())
}

/// `OwoColorize::green` on a string, rendered with `Display` (ANSI 32).
#[verifier::external_body]
pub(crate) fn green(t: &str) -> (s: String)
    ensures
        s@ == fg_text('2', t@),
{
    format!("{}", t.green())
}

/// `OwoColorize::yellow` on a string, rendered with `Display` (ANSI 33).
#[verifier::external_body]
pub(crate) fn yellow(t: &str) -> (s: String)
    ensures
        s@ == fg_text('3', t@),
{
    format!("{}", t.yellow())
}

/// `OwoColorize::blue` on a string, rendered with `Display` (ANSI 34).
#[verifier::external_body]
pub(crate) fn blue(t: &str) -> (s: String)
    ensures
        s@ == fg_text('4', t@),
{
    format!("{}", t.blue())
}

/// `OwoColorize::magenta` on a string, rendered with `Display` (ANSI 35).
#[verifier::external_body]
pub(crate) fn magenta(t: &str) -> (s: String)
    ensures
        s@ == fg_text('5', t@),
{
    format!("{}", t.magenta())
}

/// `OwoColorize::cyan` on a string, rendered with `Display` (ANSI 36).
#[verifier::external_body]
pub(crate) fn cyan(t: &str) -> (s: String)
    ensures
        s@ == fg_text('6', t@),
{
    format!("{}", t.cyan())
}

} // verus!
