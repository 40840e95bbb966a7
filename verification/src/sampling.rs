//! Weighted action sampling through the `rand` crate.
//!
//! The generator is deterministic from its seed; which index a draw
//! returns is not promised, only that it is a valid index whose weight is
//! positive — what every outcome of `WeightedIndex` satisfies.

use vstd::prelude::*;
use rand::SeedableRng;
use rand::distr::Distribution;
use rand::distr::weighted::WeightedIndex;
use rand::rngs::StdRng;
use crate::num::sum64;

verus! {

#[verifier::external_type_specification]
#[verifier::external_body]
pub struct ExStdRng(StdRng);

/// Relies on rand's `StdRng::seed_from_u64`: a generator seeded
/// deterministically from a word. Nothing is promised of its draws.
#[verifier::external_body]
pub fn new_rng(seed: u64) -> StdRng {
    StdRng::seed_from_u64(seed)
}

/// Relies on rand's `WeightedIndex::new` and `sample`: with at least one
/// weight, no overflow of the total and a positive total, construction
/// succeeds, and a draw returns an index with probability proportional to
/// its weight — never an index whose weight is zero.
#[verifier::external_body]
pub fn pick_weighted(rng: &mut StdRng, weights: &Vec<u64>) -> (i: usize)
    requires
        weights@.len() >= 1,
        1 <= sum64(weights@) <= 0xffffffffffffffff,
    ensures
        (i as int) < weights@.len(),
        weights@[i as int] >= 1,
{
    match WeightedIndex::new(weights.iter().copied()) {
        Ok(d) => d.sample(rng),
        Err(_) => 0,
    }
}

} // verus!
