//! Randomness for tie-breaking and sampling. One wrapper draws an index
//! below a bound; no caller's contract depends on which index comes back.

use rand::Rng;
use vstd::prelude::*;

verus! {

/// Relies on rand::thread_rng and rand::Rng::gen_range: a number drawn
/// uniformly from the half-open range from zero up to `n`, which exists
/// because `n` is positive.
#[verifier::external_body]
pub fn rand_below(n: usize) -> (r: usize)
    requires
        n > 0,
    ensures
        r < n,
{
    rand::thread_rng().gen_range(0, n)
}

} // verus!
