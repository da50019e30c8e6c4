//! Building strings.
use vstd::prelude::*;

verus! {

/// `String::push`: appends one character.
#[verifier::external_body]
pub(crate) fn push_char(s: &mut String, c: char)
    ensures
        final(s)@ == old(s)@.push(c),
{
    s.push(c);
}

/// The character of an ASCII code.
pub(crate) fn ascii_char(b: u8) -> (c: char)
    requires
        b < 128,
    ensures
        c as u32 == b as u32,
{
    b as char
}

} // verus!
