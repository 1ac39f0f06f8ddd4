//! Which inline-graphics protocol the terminal preview asks for, judged
//! from the terminal's `TERM` and `TERM_PROGRAM` names.
use vstd::prelude::*;
use crate::hexcolor::{lowercase, lowercase_chars};
use crate::strings::{chars_of, contains_chars, mentions};

verus! {

/// The protocol named by the terminal: iTerm's own, kitty's (also spoken
/// by Ghostty and WezTerm), or sixels (foot, mlterm, sixel terminals);
/// none otherwise. Names are compared in ASCII lower case.
pub open spec fn graphics_format(term: Seq<char>, program: Seq<char>) -> Option<Seq<char>> {
    let t = lowercase(term);
    let p = lowercase(program);
    if mentions(p, "iterm"@) {
        Some("iterm"@)
    } else if mentions(t, "kitty"@) || mentions(t, "ghostty"@) || mentions(p, "wezterm"@)
        || mentions(p, "ghostty"@) {
        Some("kitty"@)
    } else if mentions(t, "sixel"@) || mentions(t, "foot"@) || mentions(t, "mlterm"@) {
        Some("sixels"@)
    } else {
        None
    }
}

fn mentions_str(text: &Vec<char>, pattern: &str) -> (r: bool)
    ensures
        r == mentions(text@, pattern@),
{
    contains_chars(text, &chars_of(pattern))
}

/// The graphics protocol for a terminal with the given `TERM` and
/// `TERM_PROGRAM` values.
pub fn detected_graphics_format(term: &str, program: &str) -> (r: Option<&'static str>)
    ensures
        match graphics_format(term@, program@) {
            Some(f) => r matches Some(s) && s@ == f,
            None => r is None,
        },
{
    let t = lowercase_chars(&chars_of(term));
    let p = lowercase_chars(&chars_of(program));
    if mentions_str(&p, "iterm") {
        Some("iterm")
    } else if mentions_str(&t, "kitty") || mentions_str(&t, "ghostty") || mentions_str(&p, "wezterm")
        || mentions_str(&p, "ghostty") {
        Some("kitty")
    } else if mentions_str(&t, "sixel") || mentions_str(&t, "foot") || mentions_str(&t, "mlterm") {
        Some("sixels")
    } else {
        None
    }
}

} // verus!
