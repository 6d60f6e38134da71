//! Building strings one character at a time.

use vstd::prelude::*;

verus! {

/// Relies on std's `String::push`: appends the given character to the end of
/// the string.
#[verifier::external_body]
pub fn push_char(s: &mut String, ch: char)
    ensures
        final(s)@ == old(s)@.push(ch),
{
    s.push(ch);
}

} // verus!
