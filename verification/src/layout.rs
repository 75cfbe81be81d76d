//! Line-reconstruction text rules: which characters sit tight against their
//! neighbours, so that no word space is inserted next to them at normal
//! spacing (`1≤x≤3`, `A={x|…}`, `f(x)`).

use vstd::prelude::*;
use vstd::string::StrSliceExecFns;

verus! {

/// Characters that typically have no space after them: opening brackets and
/// bars, math operators, comparisons, set operations and calculus signs.
pub open spec fn tight_after(c: char) -> bool {
    c == '(' || c == '[' || c == '{' || c == '<' || c == '|' || c == '\u{FF5C}' || c == '=' || c == '+'
        || c == '-' || c == '*' || c == '/' || c == '\u{00D7}' || c == '\u{00F7}' || c == '\u{2264}'
        || c == '\u{2265}' || c == '\u{2260}' || c == '\u{2248}' || c == '\u{2208}' || c == '\u{2209}'
        || c == '\u{2282}' || c == '\u{2283}' || c == '\u{2286}' || c == '\u{2287}' || c == '\u{2229}'
        || c == '\u{222A}' || c == '\u{2205}' || c == '\u{2202}' || c == '\u{222B}' || c == '\u{2211}'
        || c == '\u{220F}' || c == '\u{221A}'
}

/// Characters that typically have no space before them: closing brackets and
/// bars, punctuation, and comparisons.
pub open spec fn tight_before(c: char) -> bool {
    c == ')' || c == ']' || c == '}' || c == '>' || c == '|' || c == '\u{FF5C}' || c == ',' || c == '.'
        || c == ';' || c == ':' || c == '!' || c == '?' || c == '\u{2264}' || c == '\u{2265}' || c
        == '\u{2208}' || c == '\u{2209}'
}

/// Whether a character has no space after it.
pub fn is_tight_after(c: char) -> (r: bool)
    ensures
        r == tight_after(c),
{
    c == '(' || c == '[' || c == '{' || c == '<' || c == '|' || c == '\u{FF5C}' || c == '=' || c == '+'
        || c == '-' || c == '*' || c == '/' || c == '\u{00D7}' || c == '\u{00F7}' || c == '\u{2264}'
        || c == '\u{2265}' || c == '\u{2260}' || c == '\u{2248}' || c == '\u{2208}' || c == '\u{2209}'
        || c == '\u{2282}' || c == '\u{2283}' || c == '\u{2286}' || c == '\u{2287}' || c == '\u{2229}'
        || c == '\u{222A}' || c == '\u{2205}' || c == '\u{2202}' || c == '\u{222B}' || c == '\u{2211}'
        || c == '\u{220F}' || c == '\u{221A}'
}

/// Whether a character has no space before it.
pub fn is_tight_before(c: char) -> (r: bool)
    ensures
        r == tight_before(c),
{
    c == ')' || c == ']' || c == '}' || c == '>' || c == '|' || c == '\u{FF5C}' || c == ',' || c == '.'
        || c == ';' || c == ':' || c == '!' || c == '?' || c == '\u{2264}' || c == '\u{2265}' || c
        == '\u{2208}' || c == '\u{2209}'
}

/// Text ending in a character that typically has no space after it.
pub fn ends_with_tight_char(text: &str) -> (r: bool)
    ensures
        r == (text@.len() > 0 && tight_after(text@.last())),
{
    let n = text.unicode_len();
    n > 0 && is_tight_after(text.get_char(n - 1))
}

/// Text starting with a character that typically has no space before it.
pub fn starts_with_tight_char(text: &str) -> (r: bool)
    ensures
        r == (text@.len() > 0 && tight_before(text@[0])),
{
    let n = text.unicode_len();
    n > 0 && is_tight_before(text.get_char(0))
}

} // verus!
