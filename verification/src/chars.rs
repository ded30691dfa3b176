//! Character and string primitives the standard library provides and the
//! verifier does not specify. Each is a thin trusted wrapper around one
//! `std` function.

use vstd::prelude::*;
use crate::codec::scalar_ok;

verus! {

/// Relies on `String::push`: appends exactly the one given character.
#[verifier::external_body]
pub(crate) fn push_char(s: &mut String, c: char)
    ensures
        final(s)@ == old(s)@.push(c),
{
    s.push(c);
}

/// Relies on `char::from_u32`: a character comes back exactly for Unicode
/// scalar values (below the surrogate range or between it and the maximum
/// code point), and the character casts back to the same number.
#[verifier::external_body]
pub(crate) fn char_from_u32(u: u32) -> (r: Option<char>)
    ensures
        r is Some <==> scalar_ok(u as nat),
        r is Some ==> r->0 as u32 == u,
{
    char::from_u32(u)
}

} // verus!
