//! Entropy for the evolutionary operators.
//!
//! The raw draws come from the `rand` and `rand_distr` crates through
//! trusted wrappers; everything derived from them is verified code that
//! takes the drawn value as input.

use vstd::prelude::*;
use rand::distributions::Distribution;

verus! {

/// Relies on `rand::random::<u64>`: a fresh 64-bit value from the thread
/// RNG. Nothing can be promised of a random value.
#[verifier::external_body]
pub(crate) fn random_u64() -> u64 {
    rand::random::<u64>()
}

/// Relies on `rand_distr::weighted_alias::WeightedAliasIndex` (sampled with
/// `rand::thread_rng`): returns an index drawn with probability
/// proportional to its weight, so the index is in range and an index whose
/// weight is zero is never returned. The bounds mirror the checks in
/// `WeightedAliasIndex::new`, so construction cannot fail.
#[verifier::external_body]
pub(crate) fn sample_weighted_raw(weights: &Vec<u64>) -> (r: usize)
    requires
        1 <= weights@.len() <= 0xffff_ffffusize,
        forall|i: int| 0 <= i < weights@.len()
            ==> #[trigger] weights@[i] <= 0xffff_ffff_ffff_ffffu64 / (weights@.len() as u64),
        exists|i: int| 0 <= i < weights@.len() && weights@[i] > 0,
    ensures
        r < weights@.len(),
        weights@[r as int] > 0,
{
    let dist = rand_distr::weighted_alias::WeightedAliasIndex::new(weights.clone()).unwrap();
    let mut rng = rand::thread_rng();
    dist.sample(&mut rng)
}

/// A uniformly-drawn index below `n`.
pub fn random_below(n: usize) -> (r: usize)
    requires
        n >= 1,
    ensures
        r < n,
{
    (random_u64() % (n as u64)) as usize
}

/// A random fixed-point value within one whole unit of zero.
pub fn random_weight() -> (r: i64)
    ensures
        -crate::WEIGHT_ONE <= r <= crate::WEIGHT_ONE,
{
    let m = (random_u64() % 2001) as i64;
    m - 1000
}

/// A random fixed-point value with magnitude at most `limit`.
pub fn random_within(limit: i64) -> (r: i64)
    requires
        0 <= limit <= crate::WEIGHT_LIMIT,
    ensures
        -limit <= r <= limit,
{
    let span = (2 * limit + 1) as u64;
    let m = (random_u64() % span) as i64;
    m - limit
}

/// True with probability `percent` in a hundred.
pub fn random_chance(percent: u64) -> bool {
    random_u64() % 100 < percent
}

} // verus!
