use vstd::prelude::*;

verus! {

/// Gathers characters into a `String`.
///
/// Trusted: calls `String::from_iter`, which std documents as building the
/// string out of the iterated characters in order; the contract states just
/// that.
#[verifier::external_body]
pub(crate) fn chars_to_string(chars: Vec<char>) -> (s: String)
    ensures
        s@ == chars@,
{
    String::from_iter(chars)
}

} // verus!
