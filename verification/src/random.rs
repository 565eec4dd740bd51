//! The source of random numbers. Nothing in this file is proved.

use rand::Rng;
use vstd::prelude::*;

verus! {

/// `rand::Rng::random_range` on `rand::rng()` with the range `low..high`:
/// a number drawn from the range. Which one is not known; two draws may differ.
#[verifier::external_body]
pub(crate) fn random_in(low: usize, high: usize) -> (drawn: usize)
    requires
        low < high,
    ensures
        low <= drawn < high,
{
    rand::rng().random_range(low..high)
}

} // verus!
