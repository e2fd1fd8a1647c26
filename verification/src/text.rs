//! Small text helpers.

use vstd::prelude::*;

verus! {

/// Appends `c` to `s`.
///
/// Trusted: `String::push` appends the character to the end of the string,
/// as std's documentation states.
#[verifier::external_body]
pub(crate) fn push_char(s: &mut String, c: char)
    ensures
        final(s)@ == old(s)@.push(c),
{
    s.push(c);
}

} // verus!
