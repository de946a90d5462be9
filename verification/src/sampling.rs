use vstd::prelude::*;

use rand::distr::Distribution;
use rand::seq::SliceRandom;
use rand::Rng;

use crate::pheromones::W_CAP;

verus! {

/// Relies on rand's `Rng::random_range` over `0..n`: the draw is uniform and
/// always lies below `n` (the range must not be empty, or the call panics).
#[verifier::external_body]
pub(crate) fn pick_uniform(n: usize) -> (r: usize)
    requires
        0 < n,
    ensures
        r < n,
{
    rand::rng().random_range(0..n)
}

/// Relies on rand's `WeightedIndex` over integer weights: the sampled index
/// is in range and an index of zero weight is never drawn.  The bounds on the
/// weights keep their sum below `u64::MAX`, so construction cannot fail.
#[verifier::external_body]
pub(crate) fn pick_weighted(weights: &Vec<u64>) -> (r: usize)
    requires
        0 < weights@.len() <= 3,
        forall|k: int| 0 <= k < weights@.len() ==> weights@[k] <= W_CAP,
        exists|k: int| 0 <= k < weights@.len() && weights@[k] > 0,
    ensures
        r < weights@.len(),
        weights@[r as int] > 0,
{
    let dist = rand::distr::weighted::WeightedIndex::new(weights.iter()).unwrap();
    dist.sample(&mut rand::rng())
}

/// Relies on rand's `SliceRandom::shuffle`: an in-place permutation of the
/// slice, so the entries are rearranged and none is added, lost or changed.
#[verifier::external_body]
pub(crate) fn shuffle_indices(v: &mut Vec<usize>)
    ensures
        final(v)@.len() == old(v)@.len(),
        final(v)@.to_multiset() == old(v)@.to_multiset(),
{
    v.shuffle(&mut rand::rng());
}

} // verus!
