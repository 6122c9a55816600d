//! A verified core of a NEAT-style neuroevolution engine: genomes with
//! acyclic connection graphs, innovation tracking, crossover, mutation,
//! speciation, and the generational selection pipeline.
//!
//! Real-valued quantities (weights, biases, fitnesses, distance
//! coefficients) are carried as fixed-point integers in thousandths, so
//! that every formula here is exact integer arithmetic.

use vstd::prelude::*;

pub mod bank;
pub mod config;
pub mod genes;
pub mod genome;
pub mod graph;
pub mod innovation;
pub mod mutation;
pub mod neat;
pub mod rng;

verus! {

/// Failures of the evolutionary engine.
#[derive(Clone, Copy, Debug, PartialEq, Eq, Structural)]
pub enum NeatError {
    /// Crossover across parents with different input or output counts.
    IncompatibleParents,
    /// A fitness was read before it was recorded.
    UntestedGenome,
    /// A candidate genome would close a directed cycle.
    CycleIntroduced,
    /// A mutation operator found nothing to act on.
    NoValidMutationTarget,
    /// Selection kept no genome to breed from.
    EmptySurvivorPool,
}

/// One whole unit in the fixed-point encoding used for weights and biases.
pub const WEIGHT_ONE: i64 = 1000;

/// Largest magnitude a weight or bias may take.
pub const WEIGHT_LIMIT: i64 = 1_000_000_000;

/// `w` pulled back into the weight range.
pub open spec fn spec_clamp_weight(w: i64) -> i64 {
    if w < -WEIGHT_LIMIT {
        (-WEIGHT_LIMIT) as i64
    } else if w > WEIGHT_LIMIT {
        WEIGHT_LIMIT
    } else {
        w
    }
}

pub fn clamp_weight(w: i64) -> (r: i64)
    ensures
        -WEIGHT_LIMIT <= r <= WEIGHT_LIMIT,
        -WEIGHT_LIMIT <= w <= WEIGHT_LIMIT ==> r == w,
        r == spec_clamp_weight(w),
{
    if w < -WEIGHT_LIMIT {
        -WEIGHT_LIMIT
    } else if w > WEIGHT_LIMIT {
        WEIGHT_LIMIT
    } else {
        w
    }
}

} // verus!
