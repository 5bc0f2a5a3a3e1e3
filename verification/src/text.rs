//! ASCII case conversion for venue symbols.
//!
//! Symbols are kept upper-case inside the library and lower-cased only to
//! build stream URLs.  The conversions call std and carry exact contracts
//! over the character sequences.

use vstd::prelude::*;

verus! {

/// The ASCII upper-case image of one character: `a`-`z` map to `A`-`Z`,
/// every other character is unchanged.
pub open spec fn upper_char(c: char) -> char {
    if ('a' as u32) <= (c as u32) && (c as u32) <= ('z' as u32) {
        (((c as u32) - 32) as u32) as char
    } else {
        c
    }
}

/// The ASCII lower-case image of one character: `A`-`Z` map to `a`-`z`,
/// every other character is unchanged.
pub open spec fn lower_char(c: char) -> char {
    if ('A' as u32) <= (c as u32) && (c as u32) <= ('Z' as u32) {
        (((c as u32) + 32) as u32) as char
    } else {
        c
    }
}

/// Relies on str::to_ascii_uppercase: every character is mapped to its
/// ASCII upper-case equivalent; non-ASCII characters are unchanged.
#[verifier::external_body]
pub fn to_upper(s: &str) -> (r: String)
    ensures
        r@ == s@.map_values(|c: char| upper_char(c)),
{
    s.to_ascii_uppercase()
}

/// Relies on str::to_ascii_lowercase: every character is mapped to its
/// ASCII lower-case equivalent; non-ASCII characters are unchanged.
#[verifier::external_body]
pub fn to_lower(s: &str) -> (r: String)
    ensures
        r@ == s@.map_values(|c: char| lower_char(c)),
{
    s.to_ascii_lowercase()
}

} // verus!
