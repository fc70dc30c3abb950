use vstd::prelude::*;
use rand::SeedableRng;
use rand::distributions::Distribution;
use rand::rngs::StdRng;
use rand_distr::WeightedAliasIndex;

verus! {

#[verifier::external_type_specification]
#[verifier::external_body]
pub struct ExStdRng(StdRng);

/// Relies on rand's `StdRng::seed_from_u64`: a generator whose draws depend on
/// `seed` alone.
#[verifier::external_body]
pub(crate) fn seeded_rng(seed: u64) -> StdRng {
    StdRng::seed_from_u64(seed)
}

/// Relies on rand_distr's `WeightedAliasIndex`: draws an index of `weights` with a
/// chance proportional to its weight, so never one of weight zero; `None` only where
/// `new` refuses the weights (none, more than `u32::MAX`, one above `u64::MAX` over
/// their number, or all zero).
#[verifier::external_body]
pub(crate) fn draw_weighted(weights: Vec<u64>, rng: &mut StdRng) -> (r: Option<usize>)
    ensures
        r matches Some(i) ==> i < weights@.len() && weights@[i as int] > 0,
        (0 < weights@.len() <= u32::MAX && (forall|j: int| 0 <= j < weights@.len() ==> #[trigger] weights@[j] <= u64::MAX
            / (weights@.len() as u64)) && (exists|j: int| 0 <= j < weights@.len() && #[trigger] weights@[j] > 0))
            ==> r is Some,
{
    match WeightedAliasIndex::new(weights) {
        Ok(dist) => Some(dist.sample(rng)),
        Err(_) => None,
    }
}

} // verus!
