//! A randomized implementation of the sampling capability, backed by a
//! seeded pseudo-random generator.

use vstd::prelude::*;
use crate::sync::Sampler;
use rand::seq::IteratorRandom;
use rand::SeedableRng;

verus! {

/// The pseudo-random generator type this module relies on.
#[verifier::external_type_specification]
#[verifier::external_body]
pub struct ExStdRng(rand::rngs::StdRng);

/// Relies on rand's `StdRng::seed_from_u64`: builds a generator from a seed,
/// so that runs with the same seed reproduce the same choices. Nothing is
/// promised of the generator's state.
#[verifier::external_body]
fn rng_from_seed(seed: u64) -> rand::rngs::StdRng {
    rand::rngs::StdRng::seed_from_u64(seed)
}

/// Relies on rand's `IteratorRandom::choose_multiple` over `0..n`: it
/// collects `amount` values sampled without replacement, or all of them when
/// the iterator holds fewer, so the result is `min(k, n)` distinct positions
/// below `n`.
#[verifier::external_body]
fn choose_positions(rng: &mut rand::rngs::StdRng, n: usize, k: usize) -> (r: Vec<usize>)
    ensures
        r@.len() == if k <= n {
            k as int
        } else {
            n as int
        },
        forall|i: int| 0 <= i < r@.len() ==> r@[i] < n,
        forall|i: int, j: int| 0 <= i < j < r@.len() ==> r@[i] != r@[j],
{
    (0..n).choose_multiple(rng, k)
}

/// A sampler that picks uniformly at random, without replacement, from a
/// generator seeded once at construction.
pub struct RngSampler {
    rng: rand::rngs::StdRng,
}

impl RngSampler {
    /// Build a sampler from a seed; the same seed reproduces the same
    /// choices within a run.
    pub fn new(seed: u64) -> Self {
        RngSampler { rng: rng_from_seed(seed) }
    }
}

impl Sampler for RngSampler {
    fn sample_indices(&mut self, n: usize, k: usize) -> (r: Vec<usize>) {
        choose_positions(&mut self.rng, n, k)
    }
}

} // verus!
