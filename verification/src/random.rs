//! The one source of chance.

use vstd::prelude::*;

verus! {

/// Draws a number below `bound` with `fastrand::usize` on the range
/// `0..bound`.
///
/// Trusted: `fastrand::usize` returns a member of the range it is given, and
/// panics only on an empty range, which `bound > 0` rules out. Nothing is
/// claimed about which member comes back.
#[verifier::external_body]
pub(crate) fn random_below(bound: usize) -> (r: usize)
    requires
        bound > 0,
    ensures
        r < bound,
{
    fastrand::usize(0..bound)
}

} // verus!
