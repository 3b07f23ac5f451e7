//! Trusted access to the process-wide random number generator.

use vstd::prelude::*;

verus! {

/// Relies on `rand::rng` and `rand::Rng::random_range`: a uniformly random
/// value drawn from the half-open range `0..n`, which is below `n`. The range
/// is non-empty by the precondition, so the call cannot panic.
#[verifier::external_body]
pub(crate) fn random_below(n: usize) -> (r: usize)
    requires
        n >= 1,
    ensures
        r < n,
{
    rand::Rng::random_range(&mut rand::rng(), 0..n)
}

} // verus!
