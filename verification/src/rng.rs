//! The one source of randomness the engine draws from.

use rand::Rng;
use vstd::prelude::*;

verus! {

/// Relies on rand::Rng::random_range over the half-open range `0..n`:
/// it returns a draw inside that range, and panics only when the range
/// is empty, which the precondition rules out. Nothing is promised about
/// which value comes back.
#[verifier::external_body]
pub(crate) fn random_below(n: usize) -> (r: usize)
    requires
        n > 0,
    ensures
        r < n,
{
    ::rand::rng().random_range(0..n)
}

} // verus!
