//! The two character-level steps that vstd does not cover: appending a
//! character to a `String`, and making a character from a code point.

use vstd::prelude::*;

verus! {

/// Relies on String::push: appends the given character to the end of
/// the string.
#[verifier::external_body]
pub(crate) fn push_char(s: &mut String, c: char)
    ensures
        final(s)@ == old(s)@.push(c),
{
    s.push(c);
}

/// Relies on char::from_u32: every code point below 0x10000 that is
/// not a surrogate is a Unicode scalar value, and the character made
/// from it casts back to it.
#[verifier::external_body]
pub(crate) fn char_from_code(v: u32) -> (c: char)
    requires
        v < 0xD800 || (0xE000 <= v && v < 0x10000),
    ensures
        c as u32 == v,
{
    char::from_u32(v).unwrap_or('\u{FFFD}')
}

} // verus!
