//! Engine configuration. Ratios are percentages; real-valued knobs are
//! fixed-point integers (thousandths), and the compatibility threshold is
//! in the product units of the distance formula (millionths).

use vstd::prelude::*;
use crate::mutation::MutationKind;

verus! {

/// Largest value allowed for a distance coefficient or a structural cost.
pub const COEFF_LIMIT: i64 = 1_000_000;

/// Largest magnitude allowed for a recorded fitness or a threshold.
pub const FITNESS_LIMIT: i64 = 1_000_000_000_000_000;

pub struct Configuration {
    /// Number of genomes in every generation.
    pub population_size: usize,
    /// Hard cap on the number of generations.
    pub max_generations: usize,
    /// Stop early once the best raw fitness reaches this value.
    pub fitness_goal: Option<i64>,
    /// Percent of the ranked population eligible to reproduce.
    pub survival_percent: u64,
    /// Percent of the ranked population copied over unchanged.
    pub elitism_percent: u64,
    /// Percent chance that a child is mutated.
    pub mutation_rate_percent: u64,
    /// Weighted table of mutation operators.
    pub mutation_kinds: Vec<(MutationKind, u64)>,
    /// Fitness penalty per node.
    pub node_cost: i64,
    /// Fitness penalty per connection.
    pub connection_cost: i64,
    /// Genomes closer than this are one species.
    pub compatibility_threshold: i64,
    pub distance_disjoint_coefficient: i64,
    pub distance_weight_coefficient: i64,
    pub distance_disabled_coefficient: i64,
    pub distance_bias_coefficient: i64,
    pub distance_activation_coefficient: i64,
    pub distance_aggregation_coefficient: i64,
    /// Largest nudge a weight-perturbing mutation applies.
    pub weight_perturbation: i64,
    /// Largest nudge a bias-perturbing mutation applies.
    pub bias_perturbation: i64,
}

impl Configuration {
    /// The default configuration's exact values.
    pub open spec fn is_default_spec(&self) -> bool {
        &&& self.population_size == 100
        &&& self.max_generations == 100
        &&& self.fitness_goal is None
        &&& self.survival_percent == 40
        &&& self.elitism_percent == 10
        &&& self.mutation_rate_percent == 50
        &&& self.node_cost == 0
        &&& self.connection_cost == 0
        &&& self.compatibility_threshold == 3_000_000
        &&& self.distance_disjoint_coefficient == 1000
        &&& self.distance_weight_coefficient == 1000
        &&& self.distance_disabled_coefficient == 1000
        &&& self.distance_bias_coefficient == 1000
        &&& self.distance_activation_coefficient == 1000
        &&& self.distance_aggregation_coefficient == 1000
        &&& self.weight_perturbation == 500
        &&& self.bias_perturbation == 500
        &&& self.mutation_kinds@.len() == 9
    }

    /// Decides `wf` at run time, so unverified callers can reject a bad
    /// configuration before handing it to the engine.
    pub fn check(&self) -> (r: bool)
        ensures
            r == self.wf(),
    {
        if !(self.population_size >= 1
            && self.max_generations >= 1
            && self.survival_percent <= 100
            && self.elitism_percent <= 100
            && self.mutation_rate_percent <= 100
            && 0 <= self.node_cost && self.node_cost <= COEFF_LIMIT
            && 0 <= self.connection_cost && self.connection_cost <= COEFF_LIMIT
            && 0 <= self.compatibility_threshold && self.compatibility_threshold <= FITNESS_LIMIT
            && 0 <= self.distance_disjoint_coefficient && self.distance_disjoint_coefficient <= COEFF_LIMIT
            && 0 <= self.distance_weight_coefficient && self.distance_weight_coefficient <= COEFF_LIMIT
            && 0 <= self.distance_disabled_coefficient && self.distance_disabled_coefficient <= COEFF_LIMIT
            && 0 <= self.distance_bias_coefficient && self.distance_bias_coefficient <= COEFF_LIMIT
            && 0 <= self.distance_activation_coefficient && self.distance_activation_coefficient <= COEFF_LIMIT
            && 0 <= self.distance_aggregation_coefficient && self.distance_aggregation_coefficient <= COEFF_LIMIT
            && 0 <= self.weight_perturbation && self.weight_perturbation <= crate::WEIGHT_LIMIT
            && 0 <= self.bias_perturbation && self.bias_perturbation <= crate::WEIGHT_LIMIT
            && 1 <= self.mutation_kinds.len() && self.mutation_kinds.len() <= 0xffff_ffffusize)
        {
            return false;
        }
        let mut some_positive = false;
        let mut i: usize = 0;
        while i < self.mutation_kinds.len()
            invariant
                i <= self.mutation_kinds@.len(),
                forall|m: int| 0 <= m < i ==> (#[trigger] self.mutation_kinds@[m]).1 <= 1_000_000u64,
                some_positive == exists|m: int| 0 <= m < i
                    && (#[trigger] self.mutation_kinds@[m]).1 > 0,
            decreases self.mutation_kinds@.len() - i,
        {
            let w = self.mutation_kinds[i].1;
            if w > 1_000_000 {
                return false;
            }
            if w > 0 {
                some_positive = true;
            }
            i += 1;
        }
        some_positive
    }

    pub open spec fn wf(&self) -> bool {
        &&& self.population_size >= 1
        &&& self.max_generations >= 1
        &&& self.survival_percent <= 100
        &&& self.elitism_percent <= 100
        &&& self.mutation_rate_percent <= 100
        &&& 0 <= self.node_cost <= COEFF_LIMIT
        &&& 0 <= self.connection_cost <= COEFF_LIMIT
        &&& 0 <= self.compatibility_threshold <= FITNESS_LIMIT
        &&& 0 <= self.distance_disjoint_coefficient <= COEFF_LIMIT
        &&& 0 <= self.distance_weight_coefficient <= COEFF_LIMIT
        &&& 0 <= self.distance_disabled_coefficient <= COEFF_LIMIT
        &&& 0 <= self.distance_bias_coefficient <= COEFF_LIMIT
        &&& 0 <= self.distance_activation_coefficient <= COEFF_LIMIT
        &&& 0 <= self.distance_aggregation_coefficient <= COEFF_LIMIT
        &&& 0 <= self.weight_perturbation <= crate::WEIGHT_LIMIT
        &&& 0 <= self.bias_perturbation <= crate::WEIGHT_LIMIT
        &&& 1 <= self.mutation_kinds@.len() <= 0xffff_ffffusize
        &&& forall|i: int| 0 <= i < self.mutation_kinds@.len()
            ==> (#[trigger] self.mutation_kinds@[i]).1 <= 1_000_000u64
        &&& exists|i: int| 0 <= i < self.mutation_kinds@.len()
            && (#[trigger] self.mutation_kinds@[i]).1 > 0
    }
}

impl Default for Configuration {
    /// A workable default: a modest population, no structural costs, and
    /// the full mutation catalog with weights favouring weight changes.
    fn default() -> (c: Configuration)
        ensures
            c.wf(),
            c.population_size == 100,
            c.max_generations == 100,
            c.fitness_goal is None,
            c.survival_percent == 40,
            c.elitism_percent == 10,
            c.mutation_rate_percent == 50,
            c.node_cost == 0,
            c.connection_cost == 0,
            c.compatibility_threshold == 3_000_000,
            c.distance_disjoint_coefficient == 1000,
            c.distance_weight_coefficient == 1000,
            c.distance_disabled_coefficient == 1000,
            c.distance_bias_coefficient == 1000,
            c.distance_activation_coefficient == 1000,
            c.distance_aggregation_coefficient == 1000,
            c.weight_perturbation == 500,
            c.bias_perturbation == 500,
            c.mutation_kinds@.len() == 9,
            c.is_default_spec(),
    {
        let mut mutation_kinds: Vec<(MutationKind, u64)> = Vec::new();
        mutation_kinds.push((MutationKind::AddConnection, 10));
        mutation_kinds.push((MutationKind::AddNode, 5));
        mutation_kinds.push((MutationKind::WeightPerturb, 30));
        mutation_kinds.push((MutationKind::WeightReplace, 10));
        mutation_kinds.push((MutationKind::BiasPerturb, 20));
        mutation_kinds.push((MutationKind::BiasReplace, 5));
        mutation_kinds.push((MutationKind::DisableConnection, 5));
        mutation_kinds.push((MutationKind::ChangeActivation, 10));
        mutation_kinds.push((MutationKind::ChangeAggregation, 5));
        proof {
            assert(mutation_kinds@[0].1 == 10u64);
        }
        Configuration {
            population_size: 100,
            max_generations: 100,
            fitness_goal: None,
            survival_percent: 40,
            elitism_percent: 10,
            mutation_rate_percent: 50,
            mutation_kinds,
            node_cost: 0,
            connection_cost: 0,
            compatibility_threshold: 3_000_000,
            distance_disjoint_coefficient: 1000,
            distance_weight_coefficient: 1000,
            distance_disabled_coefficient: 1000,
            distance_bias_coefficient: 1000,
            distance_activation_coefficient: 1000,
            distance_aggregation_coefficient: 1000,
            weight_perturbation: 500,
            bias_perturbation: 500,
        }
    }
}

} // verus!
