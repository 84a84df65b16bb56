//! Text helpers around `std`'s string functions.
//!
//! Department names are matched case- and whitespace-insensitively, so the
//! aggregate normalizes a name (trim, then lower-case) before comparing or
//! storing it. Trimming and case folding are done by `std`; their results are
//! named by the uninterpreted functions below, and every contract that speaks
//! of a normalized name speaks of those names.

use vstd::prelude::*;

verus! {

/// The characters of a string with leading and trailing whitespace removed,
/// as `str::trim` computes it.
pub uninterp spec fn trim_of(s: Seq<char>) -> Seq<char>;

/// The lower-case form of a string, as `str::to_lowercase` computes it.
pub uninterp spec fn lower_of(s: Seq<char>) -> Seq<char>;

/// A department name as it is stored and compared: trimmed, then lower-cased.
pub open spec fn normalized(s: Seq<char>) -> Seq<char> {
    lower_of(trim_of(s))
}

/// Relies on `str::trim`: returns the string without leading and trailing
/// whitespace; the result depends on the characters alone.
#[verifier::external_body]
pub fn trimmed(s: &str) -> (r: String)
    ensures
        r@ == trim_of(s@),
{
    s.trim().to_owned()
}

/// Relies on `str::to_lowercase`: the result depends on the characters alone.
#[verifier::external_body]
pub fn lowercased(s: &str) -> (r: String)
    ensures
        r@ == lower_of(s@),
{
    s.to_lowercase()
}

/// Relies on `String::push`: appends one character at the end.
#[verifier::external_body]
pub fn push_char(s: &mut String, c: char)
    ensures
        final(s)@ == old(s)@.push(c),
{
    s.push(c)
}

} // verus!
