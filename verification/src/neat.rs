//! The generational driver: population setup, ranking by adjusted
//! fitness, selection of survivors and elites, and reproduction through
//! crossover and mutation.
//!
//! Fitness evaluation itself is the caller's step: it records a raw
//! fitness for every genome, then advances the generation.

use vstd::prelude::*;
use crate::bank::GenomeBank;
use crate::config::Configuration;
use crate::genome::{Genome, GenomeId};
use crate::innovation::InnovationRegistry;
use crate::mutation::MutationKind;
use crate::NeatError;

verus! {

/// A fitness clamped into the representable range.
pub open spec fn clamp_fitness(x: int) -> i64 {
    if x < -crate::config::FITNESS_LIMIT {
        (-crate::config::FITNESS_LIMIT) as i64
    } else if x > crate::config::FITNESS_LIMIT {
        crate::config::FITNESS_LIMIT
    } else {
        x as i64
    }
}

/// The raw fitness after the structural costs are charged.
pub open spec fn charged_fitness(cfg: &Configuration, g: Genome, raw: i64) -> i64 {
    clamp_fitness(raw
        - cfg.node_cost * g.node_genes@.len()
        - cfg.connection_cost * g.connection_genes@.len())
}

/// Same ports and the same genes.
pub open spec fn same_genome(g1: Genome, g2: Genome) -> bool {
    &&& g1.inputs == g2.inputs
    &&& g1.outputs == g2.outputs
    &&& g1.node_genes@ == g2.node_genes@
    &&& g1.connection_genes@ == g2.connection_genes@
}

/// The adjusted-fitness entry of the genome at index `k`.
pub open spec fn adjusted_pair(bank: &GenomeBank, cfg: &Configuration, k: int) -> (GenomeId, i128) {
    (bank.genomes@[k].0, bank.spec_adjusted(cfg, k) as i128)
}

/// All adjusted-fitness entries, in storage order.
pub open spec fn adjusted_seq(bank: &GenomeBank, cfg: &Configuration) -> Seq<(GenomeId, i128)> {
    Seq::new(bank.genomes@.len(), |k: int| adjusted_pair(bank, cfg, k))
}

/// Entry `m` of `r` is the adjusted entry of some stored genome.
pub open spec fn ranked_entry_ok(r: Seq<(GenomeId, i128)>, bank: &GenomeBank, cfg: &Configuration, m: int) -> bool {
    exists|j: int| 0 <= j < bank.genomes@.len() && r[m] == #[trigger] adjusted_pair(bank, cfg, j)
}

/// `r` ranks the bank's genomes by adjusted fitness, descending.
pub open spec fn is_ranking(r: Seq<(GenomeId, i128)>, bank: &GenomeBank, cfg: &Configuration) -> bool {
    &&& r.len() == bank.genomes@.len()
    &&& r.to_multiset() == adjusted_seq(bank, cfg).to_multiset()
    &&& forall|m1: int, m2: int| 0 <= m1 < m2 < r.len() ==> (#[trigger] r[m1]).1 >= (#[trigger] r[m2]).1
}

/// How many ranked genomes survive to reproduce.
pub open spec fn survived_count_spec(cfg: &Configuration, n: int) -> int {
    n * cfg.survival_percent / 100
}

/// How many ranked genomes are carried over unchanged.
pub open spec fn elites_count_spec(cfg: &Configuration, n: int) -> int {
    let raw = n * cfg.elitism_percent / 100;
    if raw <= survived_count_spec(cfg, n) { raw } else { survived_count_spec(cfg, n) }
}

/// Selection sort of adjusted entries into descending order.
fn sort_ranked_desc(v: Vec<(GenomeId, i128)>) -> (r: Vec<(GenomeId, i128)>)
    ensures
        r@.to_multiset() == v@.to_multiset(),
        r@.len() == v@.len(),
        forall|m1: int, m2: int| 0 <= m1 < m2 < r@.len() ==> (#[trigger] r@[m1]).1 >= (#[trigger] r@[m2]).1,
{
    broadcast use vstd::seq_lib::group_to_multiset_ensures;

    let mut rest = v;
    let mut r: Vec<(GenomeId, i128)> = Vec::new();
    let ghost orig = rest@;
    while rest.len() > 0
        invariant
            r@.to_multiset().add(rest@.to_multiset()) =~= orig.to_multiset(),
            r@.len() + rest@.len() == orig.len(),
            forall|m1: int, m2: int| 0 <= m1 < m2 < r@.len() ==> (#[trigger] r@[m1]).1 >= (#[trigger] r@[m2]).1,
            forall|m1: int, m2: int| 0 <= m1 < r@.len() && 0 <= m2 < rest@.len()
                ==> (#[trigger] r@[m1]).1 >= (#[trigger] rest@[m2]).1,
        decreases rest@.len(),
    {
        let mut best: usize = 0;
        let mut m: usize = 1;
        while m < rest.len()
            invariant
                best < m <= rest@.len(),
                rest@.len() > 0,
                forall|m2: int| 0 <= m2 < m ==> rest@[best as int].1 >= (#[trigger] rest@[m2]).1,
            decreases rest@.len() - m,
        {
            if rest[m].1 > rest[best].1 {
                best = m;
            }
            m += 1;
        }
        let ghost rest0 = rest@;
        let ghost r0 = r@;
        let x = rest.remove(best);
        r.push(x);
        proof {
            vstd::seq_lib::to_multiset_remove(rest0, best as int);
            vstd::seq_lib::to_multiset_build(r0, x);
            assert(rest0.contains(x)) by {
                assert(rest0[best as int] == x);
            }
            vstd::seq_lib::to_multiset_contains(rest0, x);
            assert(rest0.to_multiset().count(x) > 0);
            assert(r@.to_multiset().add(rest@.to_multiset()) =~= orig.to_multiset());
            assert forall|m1: int, m2: int| 0 <= m1 < r@.len() && 0 <= m2 < rest@.len()
                implies (#[trigger] r@[m1]).1 >= (#[trigger] rest@[m2]).1 by {
                assert(rest@[m2] == if m2 < best { rest0[m2] } else { rest0[m2 + 1] });
                if m1 < r@.len() - 1 {
                    assert(r@[m1] == r0[m1]);
                } else {
                    assert(r@[m1] == x);
                }
            }
        }
    }
    r
}

/// The NEAT engine state: configuration, genome bank, and the shared
/// innovation registry.
pub struct Neat {
    pub inputs: usize,
    pub outputs: usize,
    pub config: Configuration,
    pub bank: GenomeBank,
    pub registry: InnovationRegistry,
}

impl Neat {
    /// The registry still starts with the fully-connected seed pairs.
    pub open spec fn registry_seeded(&self) -> bool {
        &&& self.registry.pairs@.len() >= self.inputs * self.outputs
        &&& forall|k: int| 0 <= k < self.inputs * self.outputs
            ==> (#[trigger] self.registry.pairs@[k]).0 as int == k / (self.outputs as int)
                && self.registry.pairs@[k].1 as int == self.inputs + k % (self.outputs as int)
    }

    /// Every stored genome is well-formed, positionally laid out, matches
    /// the engine's ports, and is numbered by the shared registry.
    pub open spec fn genomes_ok(&self) -> bool {
        forall|k: int| 0 <= k < self.bank.genomes@.len()
            ==> (#[trigger] self.bank.genomes@[k]).1.wf()
                && self.bank.genomes@[k].1.layout_wf()
                && self.bank.genomes@[k].1.consistent_with(&self.registry)
                && self.bank.genomes@[k].1.inputs == self.inputs
                && self.bank.genomes@[k].1.outputs == self.outputs
    }

    pub open spec fn wf(&self) -> bool {
        &&& self.config.wf()
        &&& self.registry.wf()
        &&& self.bank.wf()
        &&& self.genomes_ok()
        &&& self.registry_seeded()
        &&& self.inputs + self.outputs <= usize::MAX
        &&& self.inputs * self.outputs <= usize::MAX
    }

    /// A fresh engine with the default configuration, an empty bank, and
    /// a registry seeded with the minimal network's pairs.
    pub fn new(inputs: usize, outputs: usize) -> (r: Neat)
        requires
            inputs + outputs <= usize::MAX,
            inputs * outputs <= usize::MAX,
        ensures
            r.wf(),
            r.inputs == inputs,
            r.outputs == outputs,
            r.bank.genomes@.len() == 0,
            r.bank.next_id == 0,
            r.bank.fitnesses@.len() == 0,
            r.bank.species@.len() == 0,
            r.bank.previous_genomes@.len() == 0,
            r.config.is_default_spec(),
    {
        Neat {
            inputs,
            outputs,
            config: Default::default(),
            bank: GenomeBank::new(),
            registry: InnovationRegistry::seeded(inputs, outputs),
        }
    }

    pub fn set_configuration(&mut self, config: Configuration)
        requires
            old(self).wf(),
            config.wf(),
        ensures
            final(self).wf(),
            final(self).config == config,
            final(self).bank == old(self).bank,
            final(self).registry == old(self).registry,
            final(self).inputs == old(self).inputs,
            final(self).outputs == old(self).outputs,
    {
        self.config = config;
    }

    /// Fills an empty bank with `population_size` minimal genomes.
    pub fn populate(&mut self)
        requires
            old(self).wf(),
            old(self).bank.genomes@.len() == 0,
            old(self).bank.next_id + old(self).config.population_size <= u64::MAX,
        ensures
            final(self).wf(),
            final(self).bank.genomes@.len() == old(self).config.population_size,
            final(self).config == old(self).config,
            final(self).inputs == old(self).inputs,
            final(self).outputs == old(self).outputs,
            forall|k: int| 0 <= k < final(self).bank.genomes@.len()
                ==> crate::genome::minimal_genome(
                    (#[trigger] final(self).bank.genomes@[k]).1,
                    old(self).inputs,
                    old(self).outputs,
                ),
    {
        let target = self.config.population_size;
        let mut i: usize = 0;
        while i < target
            invariant
                i <= target,
                self.wf(),
                self.bank.genomes@.len() == i,
                self.bank.next_id + target - i <= u64::MAX,
                forall|k: int| 0 <= k < self.bank.genomes@.len()
                    ==> crate::genome::minimal_genome(
                        (#[trigger] self.bank.genomes@[k]).1,
                        old(self).inputs,
                        old(self).outputs,
                    ),
                self.config == old(self).config,
                self.inputs == old(self).inputs,
                self.outputs == old(self).outputs,
            decreases target - i,
        {
            let g = Genome::new(self.inputs, self.outputs);
            proof {
                assert forall|k: int| 0 <= k < g.connection_genes@.len()
                    implies (#[trigger] g.connection_genes@[k]).innovation < self.registry.pairs@.len()
                        && self.registry.pairs@[g.connection_genes@[k].innovation as int]
                            == (g.connection_genes@[k].from, g.connection_genes@[k].to) by {
                    assert(g.connection_genes@[k].innovation as int == k);
                    assert((self.registry.pairs@[k]).0 as int == k / (self.outputs as int));
                }
            }
            let id = self.bank.add_genome(g);
            i += 1;
        }
    }

    /// Records the raw fitness of a genome after charging the structural
    /// costs, clamping into the representable fitness range.
    pub fn record_fitness(&mut self, id: GenomeId, raw: i64)
        requires
            old(self).wf(),
            -crate::config::FITNESS_LIMIT <= raw <= crate::config::FITNESS_LIMIT,
            old(self).has_genome_id(id),
        ensures
            final(self).wf(),
            final(self).bank.genomes@ == old(self).bank.genomes@,
            final(self).bank.previous_genomes@ == old(self).bank.previous_genomes@,
            final(self).bank.species@ == old(self).bank.species@,
            final(self).config == old(self).config,
            final(self).inputs == old(self).inputs,
            final(self).outputs == old(self).outputs,
            final(self).registry == old(self).registry,
            final(self).bank.tested(id),
            final(self).bank.fitness_of(id)
                == charged_fitness(&old(self).config, old(self).bank.genome_of(id), raw),
            forall|other: u64| other != id
                ==> (#[trigger] final(self).bank.tested(other) <==> old(self).bank.tested(other)),
            forall|other: u64| other != id && old(self).bank.tested(other)
                ==> #[trigger] final(self).bank.fitness_of(other) == old(self).bank.fitness_of(other),
    {
        let idx = self.bank_genome_index(id);
        let n_nodes = self.bank.genomes[idx].1.node_genes.len();
        let n_conns = self.bank.genomes[idx].1.connection_genes.len();
        proof {
            assert(0 <= self.config.node_cost as int * n_nodes as int
                <= 1_000_000 * 0xffff_ffff_ffff_ffff) by (nonlinear_arith)
                requires
                    0 <= self.config.node_cost as int <= 1_000_000,
                    0 <= n_nodes as int <= 0xffff_ffff_ffff_ffff,
            {}
            assert(0 <= self.config.connection_cost as int * n_conns as int
                <= 1_000_000 * 0xffff_ffff_ffff_ffff) by (nonlinear_arith)
                requires
                    0 <= self.config.connection_cost as int <= 1_000_000,
                    0 <= n_conns as int <= 0xffff_ffff_ffff_ffff,
            {}
        }
        let charged: i128 = (raw as i128)
            - (self.config.node_cost as i128) * (n_nodes as i128)
            - (self.config.connection_cost as i128) * (n_conns as i128);
        let clamped: i64 = if charged < -(crate::config::FITNESS_LIMIT as i128) {
            -crate::config::FITNESS_LIMIT
        } else if charged > crate::config::FITNESS_LIMIT as i128 {
            crate::config::FITNESS_LIMIT
        } else {
            charged as i64
        };
        proof {
            let ck = choose|ck: int| 0 <= ck < self.bank.genomes@.len()
                && (#[trigger] self.bank.genomes@[ck]).0 == id;
            if ck != idx as int {
                assert(self.bank.genomes@[ck].0 == self.bank.genomes@[idx as int].0);
            }
            assert(self.bank.genome_of(id) == self.bank.genomes@[idx as int].1);
            assert(clamped == charged_fitness(&self.config, self.bank.genome_of(id), raw));
        }
        self.bank.mark_fitness(id, clamped);
    }

    /// Whether the bank holds a genome with this id.
    pub open spec fn has_genome_id(&self, id: GenomeId) -> bool {
        self.bank.has_genome(id)
    }

    /// Index of the stored genome with this id.
    fn bank_genome_index(&self, id: GenomeId) -> (r: usize)
        requires
            self.bank.has_genome(id),
        ensures
            r < self.bank.genomes@.len(),
            self.bank.genomes@[r as int].0 == id,
    {
        let mut k: usize = 0;
        while k < self.bank.genomes.len()
            invariant
                k <= self.bank.genomes@.len(),
                self.bank.has_genome(id),
                forall|m: int| 0 <= m < k ==> (#[trigger] self.bank.genomes@[m]).0 != id,
            decreases self.bank.genomes@.len() - k,
        {
            if self.bank.genomes[k].0 == id {
                return k;
            }
            k += 1;
        }
        proof {
            let m = choose|m: int| 0 <= m < self.bank.genomes@.len()
                && (#[trigger] self.bank.genomes@[m]).0 == id;
            assert(false);
        }
        0
    }

    /// Speciates the current generation using the engine's configuration.
    pub fn speciate(&mut self)
        requires
            old(self).wf(),
        ensures
            final(self).wf(),
            final(self).bank.genomes@ == old(self).bank.genomes@,
            final(self).bank.previous_genomes@ == old(self).bank.previous_genomes@,
            final(self).bank.fitnesses@ == old(self).bank.fitnesses@,
            final(self).config == old(self).config,
            final(self).registry == old(self).registry,
            final(self).inputs == old(self).inputs,
            final(self).outputs == old(self).outputs,
            forall|k: int| 0 <= k < final(self).bank.genomes@.len()
                ==> final(self).bank.in_species((#[trigger] final(self).bank.genomes@[k]).0),
    {
        proof {
            assert forall|k: int| 0 <= k < self.bank.genomes@.len()
                implies (#[trigger] self.bank.genomes@[k]).1.wf()
                    && crate::genome::aligned(
                        self.bank.genomes@[k].1.connection_genes@,
                        self.bank.genomes@[k].1.connection_genes@,
                    ) by {
                crate::genome::lemma_shared_registry_aligns(
                    &self.bank.genomes@[k].1,
                    &self.bank.genomes@[k].1,
                    &self.registry,
                );
            }
        }
        let config = &self.config;
        self.bank.speciate(config);
    }

    /// Draws one mutation kind from the configured weighted table; the
    /// drawn kind always has a positive weight.
    pub fn pick_mutation(&self) -> (r: MutationKind)
        requires
            self.config.wf(),
        ensures
            exists|i: int| 0 <= i < self.config.mutation_kinds@.len()
                && (#[trigger] self.config.mutation_kinds@[i]).0 == r
                && self.config.mutation_kinds@[i].1 > 0,
    {
        let mut weights: Vec<u64> = Vec::new();
        let mut i: usize = 0;
        while i < self.config.mutation_kinds.len()
            invariant
                i <= self.config.mutation_kinds@.len(),
                self.config.wf(),
                weights@.len() == i,
                forall|m: int| 0 <= m < i
                    ==> (#[trigger] weights@[m]) == self.config.mutation_kinds@[m].1,
            decreases self.config.mutation_kinds@.len() - i,
        {
            weights.push(self.config.mutation_kinds[i].1);
            i += 1;
        }
        proof {
            assert forall|m: int| 0 <= m < weights@.len()
                implies #[trigger] weights@[m]
                    <= 0xffff_ffff_ffff_ffffu64 / (weights@.len() as u64) by {
                assert(weights@[m] as int * weights@.len() as int <= 0xffff_ffff_ffff_ffff)
                    by (nonlinear_arith)
                    requires
                        0 <= weights@[m] as int <= 1_000_000,
                        0 <= weights@.len() as int <= 0xffff_ffff,
                {}
                assert(weights@[m] as int <= (0xffff_ffff_ffff_ffffu64 as int) / (weights@.len() as int))
                    by (nonlinear_arith)
                    requires
                        weights@[m] as int * weights@.len() as int <= 0xffff_ffff_ffff_ffff,
                        weights@.len() as int >= 1,
                {}
            }
            let iw = choose|iw: int| 0 <= iw < self.config.mutation_kinds@.len()
                && (#[trigger] self.config.mutation_kinds@[iw]).1 > 0;
            assert(weights@[iw] > 0);
        }
        let picked = crate::rng::sample_weighted_raw(&weights);
        let pair = self.config.mutation_kinds[picked];
        proof {
            assert(self.config.mutation_kinds@[picked as int].1 > 0);
        }
        pair.0
    }

    /// The genome with the highest recorded raw fitness, with its id and
    /// that fitness.
    pub fn get_best(&self) -> (r: (GenomeId, Genome, i64))
        requires
            self.wf(),
            self.bank.genomes@.len() >= 1,
            self.bank.all_tested(),
        ensures
            self.bank.has_genome(r.0),
            r.2 == self.bank.fitness_of(r.0),
            same_genome(r.1, self.bank.genome_of(r.0)),
            forall|k: int| 0 <= k < self.bank.genomes@.len()
                ==> self.bank.fitness_of((#[trigger] self.bank.genomes@[k]).0) <= r.2,
    {
        let mut best_k: usize = 0;
        let mut best_fitness: i64 = self.fitness_by_index(0);
        let mut k: usize = 1;
        while k < self.bank.genomes.len()
            invariant
                1 <= k <= self.bank.genomes@.len(),
                best_k < k,
                self.wf(),
                self.bank.genomes@.len() >= 1,
                self.bank.all_tested(),
                best_fitness == self.bank.fitness_of(self.bank.genomes@[best_k as int].0),
                forall|m: int| 0 <= m < k
                    ==> self.bank.fitness_of((#[trigger] self.bank.genomes@[m]).0) <= best_fitness,
            decreases self.bank.genomes@.len() - k,
        {
            let f = self.fitness_by_index(k);
            if f > best_fitness {
                best_k = k;
                best_fitness = f;
            }
            k += 1;
        }
        let id = self.bank.genomes[best_k].0;
        let g = self.bank.genomes[best_k].1.duplicate();
        proof {
            let ck = choose|ck: int| 0 <= ck < self.bank.genomes@.len()
                && (#[trigger] self.bank.genomes@[ck]).0 == id;
            if ck != best_k as int {
                assert(self.bank.genomes@[ck].0 == self.bank.genomes@[best_k as int].0);
            }
            assert(self.bank.genome_of(id) == self.bank.genomes@[best_k as int].1);
        }
        (id, g, best_fitness)
    }

    /// The recorded fitness of the genome stored at index `k`.
    fn fitness_by_index(&self, k: usize) -> (r: i64)
        requires
            self.bank.wf(),
            k < self.bank.genomes@.len(),
            self.bank.all_tested(),
        ensures
            r == self.bank.fitness_of(self.bank.genomes@[k as int].0),
    {
        let id = self.bank.genomes[k].0;
        proof {
            assert(self.bank.tested(id));
        }
        let fi = self.bank.fitness_index(id);
        let f = self.bank.fitnesses[fi].1;
        proof {
            let ci = choose|ci: int| 0 <= ci < self.bank.fitnesses@.len()
                && (#[trigger] self.bank.fitnesses@[ci]).0 == id;
            if ci != fi as int {
                assert(self.bank.fitnesses@[ci].0 == self.bank.fitnesses@[fi as int].0);
            }
        }
        f
    }

    /// The genomes ranked by adjusted fitness, best first.
    pub fn genomes_by_adjusted_fitness(&self) -> (r: Vec<(GenomeId, i128)>)
        requires
            self.wf(),
            self.bank.all_tested(),
            forall|k: int| 0 <= k < self.bank.genomes@.len()
                ==> self.bank.in_species((#[trigger] self.bank.genomes@[k]).0),
        ensures
            is_ranking(r@, &self.bank, &self.config),
    {
        let adjusted = self.bank.adjusted_fitnesses(&self.config);
        proof {
            assert(adjusted@ =~= adjusted_seq(&self.bank, &self.config));
        }
        sort_ranked_desc(adjusted)
    }

    /// One selection-and-reproduction step. The current generation must
    /// be fully evaluated and speciated. The ranked top survivors breed
    /// the next generation; the top `elites_count` among them are carried
    /// over unchanged under their old ids; a failed recombination falls
    /// back to cloning its first parent. The new generation has exactly
    /// `population_size` members and the old one becomes the "previous"
    /// snapshot. Fails only when selection would keep no survivor.
    #[verifier::rlimit(100)]
    pub fn advance_generation(&mut self) -> (r: Result<(), NeatError>)
        requires
            old(self).wf(),
            old(self).bank.all_tested(),
            old(self).bank.genomes@.len() == old(self).config.population_size,
            old(self).bank.next_id + old(self).config.population_size <= u64::MAX,
            forall|k: int| 0 <= k < old(self).bank.genomes@.len()
                ==> old(self).bank.in_species((#[trigger] old(self).bank.genomes@[k]).0),
        ensures
            final(self).wf(),
            final(self).config == old(self).config,
            final(self).inputs == old(self).inputs,
            final(self).outputs == old(self).outputs,
            (r is Err) <==> survived_count_spec(&old(self).config, old(self).bank.genomes@.len() as int) == 0,
            r is Err ==> r->Err_0 == NeatError::EmptySurvivorPool
                && final(self).bank.genomes@ == old(self).bank.genomes@
                && final(self).bank.fitnesses@ == old(self).bank.fitnesses@
                && final(self).bank.previous_genomes@ == old(self).bank.previous_genomes@,
            r is Ok ==> final(self).bank.genomes@.len() == old(self).config.population_size,
            r is Ok ==> final(self).bank.previous_genomes@ == old(self).bank.genomes@,
            r is Ok ==> final(self).bank.fitnesses@.len() == 0,
            r is Ok ==> exists|rk: Seq<(GenomeId, i128)>|
                #[trigger] is_ranking(rk, &old(self).bank, &old(self).config)
                && forall|i: int|
                    0 <= i < elites_count_spec(&old(self).config, old(self).bank.genomes@.len() as int)
                    ==> (#[trigger] final(self).bank.genomes@[i]).0 == rk[i].0
                        && same_genome(final(self).bank.genomes@[i].1, old(self).bank.genome_of(rk[i].0)),
    {
        broadcast use vstd::seq_lib::group_to_multiset_ensures;

        let pop = self.bank.genomes.len();
        let ranked = self.genomes_by_adjusted_fitness();
        let ghost rk = ranked@;
        let ghost bank0 = self.bank;
        let ghost cfg0 = self.config;
        proof {
            assert(is_ranking(rk, &bank0, &cfg0));
        }

        proof {
            assert(pop as int * self.config.survival_percent as int <= usize::MAX as int * 100)
                by (nonlinear_arith)
                requires 0 <= pop as int <= usize::MAX as int,
                    0 <= self.config.survival_percent as int <= 100,
            {}
        }
        let survived_wide = ((pop as u128) * (self.config.survival_percent as u128)) / 100;
        proof {
            assert((pop as int * self.config.survival_percent as int) / 100 <= pop as int)
                by (nonlinear_arith)
                requires 0 <= self.config.survival_percent as int <= 100, 0 <= pop as int,
            {}
        }
        let survived = survived_wide as usize;
        proof {
            assert(survived as int == survived_count_spec(&cfg0, pop as int));
            assert(survived <= pop);
        }
        if survived == 0 {
            return Err(NeatError::EmptySurvivorPool);
        }
        proof {
            assert(pop as int * self.config.elitism_percent as int <= usize::MAX as int * 100)
                by (nonlinear_arith)
                requires 0 <= pop as int <= usize::MAX as int,
                    0 <= self.config.elitism_percent as int <= 100,
            {}
        }
        let elites_wide = ((pop as u128) * (self.config.elitism_percent as u128)) / 100;
        proof {
            assert((pop as int * self.config.elitism_percent as int) / 100 <= pop as int)
                by (nonlinear_arith)
                requires 0 <= self.config.elitism_percent as int <= 100, 0 <= pop as int,
            {}
        }
        let elites_raw = elites_wide as usize;
        let elites_count = if elites_raw <= survived { elites_raw } else { survived };
        proof {
            assert(elites_count as int == elites_count_spec(&cfg0, pop as int));
        }

        // The ranked entries come from the bank, one per stored genome.
        proof {
            assert forall|i: int| 0 <= i < rk.len()
                implies ranked_entry_ok(rk, &bank0, &cfg0, i) by {
                assert(rk.contains(rk[i]));
                assert(rk.to_multiset().count(rk[i]) > 0);
                assert(adjusted_seq(&bank0, &cfg0).to_multiset().count(rk[i]) > 0);
                assert(adjusted_seq(&bank0, &cfg0).contains(rk[i]));
                let j = choose|j: int| 0 <= j < adjusted_seq(&bank0, &cfg0).len()
                    && adjusted_seq(&bank0, &cfg0)[j] == rk[i];
                assert(rk[i] == adjusted_pair(&bank0, &cfg0, j));
            }
        }

        // Gather survivors: id, a copy of the genome, and its raw fitness.
        let mut survivors: Vec<(GenomeId, Genome, i64)> = Vec::new();
        let mut i: usize = 0;
        while i < survived
            invariant
                i <= survived,
                survived <= pop,
                self == old(self),
                self.wf(),
                self.bank.all_tested(),
                bank0 == self.bank,
                cfg0 == self.config,
                pop == self.bank.genomes@.len(),
                rk == ranked@,
                ranked@.len() == pop,
                forall|m: int| 0 <= m < rk.len()
                    ==> #[trigger] ranked_entry_ok(rk, &bank0, &cfg0, m),
                survivors@.len() == i,
                forall|m: int| 0 <= m < i
                    ==> (#[trigger] survivors@[m]).0 == rk[m].0
                        && self.bank.has_genome(survivors@[m].0)
                        && same_genome(survivors@[m].1, self.bank.genome_of(survivors@[m].0))
                        && survivors@[m].1.wf()
                        && survivors@[m].1.layout_wf()
                        && survivors@[m].1.consistent_with(&self.registry)
                        && survivors@[m].1.inputs == self.inputs
                        && survivors@[m].1.outputs == self.outputs
                        && survivors@[m].2 == self.bank.fitness_of(survivors@[m].0),
            decreases survived - i,
        {
            let id = ranked[i].0;
            proof {
                assert(ranked_entry_ok(rk, &bank0, &cfg0, i as int));
                let j = choose|j: int| 0 <= j < bank0.genomes@.len()
                    && rk[i as int] == #[trigger] adjusted_pair(&bank0, &cfg0, j);
                assert(bank0.genomes@[j].0 == id);
                assert(self.bank.has_genome(id));
            }
            let gi = self.bank_genome_index(id);
            let g = self.bank.genomes[gi].1.duplicate();
            let f = self.fitness_by_index(gi);
            proof {
                let ck = choose|ck: int| 0 <= ck < self.bank.genomes@.len()
                    && (#[trigger] self.bank.genomes@[ck]).0 == id;
                if ck != gi as int {
                    assert(self.bank.genomes@[ck].0 == self.bank.genomes@[gi as int].0);
                }
                assert(self.bank.genome_of(id) == self.bank.genomes@[gi as int].1);
            }
            survivors.push((id, g, f));
            i += 1;
        }

        // Elite ids are pairwise distinct: a ranked id names one genome.
        proof {
            assert forall|m1: int, m2: int| 0 <= m1 < m2 < rk.len()
                implies (#[trigger] rk[m1]).0 != (#[trigger] rk[m2]).0 by {
                assert(ranked_entry_ok(rk, &bank0, &cfg0, m1));
                assert(ranked_entry_ok(rk, &bank0, &cfg0, m2));
                let j1 = choose|j: int| 0 <= j < bank0.genomes@.len()
                    && rk[m1] == #[trigger] adjusted_pair(&bank0, &cfg0, j);
                let j2 = choose|j: int| 0 <= j < bank0.genomes@.len()
                    && rk[m2] == #[trigger] adjusted_pair(&bank0, &cfg0, j);
                if rk[m1].0 == rk[m2].0 {
                    if j1 != j2 {
                        if j1 < j2 {
                            assert(bank0.genomes@[j1].0 != bank0.genomes@[j2].0);
                        } else {
                            assert(bank0.genomes@[j2].0 != bank0.genomes@[j1].0);
                        }
                    }
                    assert(rk[m1] == rk[m2]);
                    assert(adjusted_seq(&bank0, &cfg0).no_duplicates()) by {
                        assert forall|n1: int, n2: int|
                            0 <= n1 < adjusted_seq(&bank0, &cfg0).len()
                            && 0 <= n2 < adjusted_seq(&bank0, &cfg0).len() && n1 != n2
                            implies adjusted_seq(&bank0, &cfg0)[n1] != adjusted_seq(&bank0, &cfg0)[n2] by {
                            if n1 < n2 {
                                assert(bank0.genomes@[n1].0 != bank0.genomes@[n2].0);
                            } else {
                                assert(bank0.genomes@[n2].0 != bank0.genomes@[n1].0);
                            }
                        }
                    }
                    adjusted_seq(&bank0, &cfg0).lemma_multiset_has_no_duplicates();
                    rk.lemma_multiset_has_no_duplicates_conv();
                }
            }
        }

        // Breed offspring until elites plus offspring refill the population.
        let ghost reg0 = self.registry;
        let mut offspring: Vec<Genome> = Vec::new();
        while elites_count + offspring.len() < pop
            invariant
                elites_count <= survived <= pop,
                survived >= 1,
                survived == survivors@.len(),
                offspring@.len() <= pop - elites_count,
                self.config == cfg0,
                self.bank == bank0,
                self.inputs == old(self).inputs,
                self.outputs == old(self).outputs,
                self.wf(),
                crate::innovation::extends(self.registry, reg0),
                forall|m: int| 0 <= m < survivors@.len()
                    ==> (#[trigger] survivors@[m]).1.wf()
                        && survivors@[m].1.layout_wf()
                        && survivors@[m].1.consistent_with(&self.registry)
                        && survivors@[m].1.inputs == self.inputs
                        && survivors@[m].1.outputs == self.outputs,
                forall|m: int| 0 <= m < offspring@.len()
                    ==> (#[trigger] offspring@[m]).wf()
                        && offspring@[m].layout_wf()
                        && offspring@[m].consistent_with(&self.registry)
                        && offspring@[m].inputs == self.inputs
                        && offspring@[m].outputs == self.outputs,
            decreases pop - elites_count - offspring@.len(),
        {
            let pa = crate::rng::random_below(survived);
            let pb = crate::rng::random_below(survived);
            proof {
                crate::genome::lemma_shared_registry_aligns(
                    &survivors@[pa as int].1, &survivors@[pa as int].1, &self.registry);
                crate::genome::lemma_shared_registry_aligns(
                    &survivors@[pb as int].1, &survivors@[pb as int].1, &self.registry);
                crate::genome::lemma_shared_registry_aligns(
                    &survivors@[pa as int].1, &survivors@[pb as int].1, &self.registry);
            }
            let bred = Genome::crossover(
                &survivors[pa].1, survivors[pa].2,
                &survivors[pb].1, survivors[pb].2,
            );
            let mut child = match bred {
                Ok(c) => c,
                Err(_) => survivors[pa].1.duplicate(),
            };
            proof {
                if !(bred is Ok) {
                    assert(child.consistent_with(&self.registry));
                }
                if bred is Ok {
                    // Every inherited gene keeps its registry numbering.
                    assert forall|k: int| 0 <= k < child.connection_genes@.len()
                        implies (#[trigger] child.connection_genes@[k]).innovation
                            < self.registry.pairs@.len()
                            && self.registry.pairs@[child.connection_genes@[k].innovation as int]
                                == (child.connection_genes@[k].from, child.connection_genes@[k].to) by {
                        let g = child.connection_genes@[k];
                        if survivors@[pa as int].1.connection_genes@.contains(g) {
                            let j = choose|j: int| 0 <= j < survivors@[pa as int].1.connection_genes@.len()
                                && survivors@[pa as int].1.connection_genes@[j] == g;
                        } else {
                            let j = choose|j: int| 0 <= j < survivors@[pb as int].1.connection_genes@.len()
                                && survivors@[pb as int].1.connection_genes@[j] == g;
                        }
                    }
                }
            }
            let ghost reg_before = self.registry;
            if crate::rng::random_chance(self.config.mutation_rate_percent) {
                let kind = self.pick_mutation();
                child.mutate(kind, &mut self.registry, &self.config);
            }
            proof {
                crate::innovation::lemma_extends_trans(reg0, reg_before, self.registry);
                assert(child.consistent_with(&self.registry));
                assert forall|m: int| 0 <= m < survivors@.len()
                    implies (#[trigger] survivors@[m]).1.consistent_with(&self.registry) by {
                    assert(survivors@[m].1.consistent_with(&reg_before));
                }
                assert forall|m: int| 0 <= m < offspring@.len()
                    implies (#[trigger] offspring@[m]).consistent_with(&self.registry) by {
                    assert(offspring@[m].consistent_with(&reg_before));
                }
            }
            offspring.push(child);
        }

        // Install the next generation: elites first, then the offspring.
        self.bank.clear();
        let ghost prev_next_id = self.bank.next_id;
        let mut i: usize = 0;
        while i < elites_count
            invariant
                i <= elites_count,
                elites_count <= survived == survivors@.len(),
                self.config == cfg0,
                self.inputs == old(self).inputs,
                self.outputs == old(self).outputs,
                self.wf(),
                self.bank.next_id == prev_next_id,
                self.bank.genomes@.len() == i,
                self.bank.previous_genomes@ == bank0.genomes@,
                self.bank.fitnesses@.len() == 0,
                forall|m: int| 0 <= m < survivors@.len()
                    ==> (#[trigger] survivors@[m]).0 < prev_next_id
                        && survivors@[m].1.wf()
                        && survivors@[m].1.layout_wf()
                        && survivors@[m].1.consistent_with(&self.registry)
                        && survivors@[m].1.inputs == self.inputs
                        && survivors@[m].1.outputs == self.outputs,
                forall|m1: int, m2: int| 0 <= m1 < m2 < survived
                    ==> (#[trigger] survivors@[m1]).0 != (#[trigger] survivors@[m2]).0,
                forall|m: int| 0 <= m < i
                    ==> (#[trigger] self.bank.genomes@[m]).0 == survivors@[m].0
                        && same_genome(self.bank.genomes@[m].1, survivors@[m].1),
                elites_count + offspring@.len() == pop,
                forall|m: int| 0 <= m < offspring@.len()
                    ==> (#[trigger] offspring@[m]).wf()
                        && offspring@[m].layout_wf()
                        && offspring@[m].consistent_with(&self.registry)
                        && offspring@[m].inputs == self.inputs
                        && offspring@[m].outputs == self.outputs,
            decreases elites_count - i,
        {
            let id = survivors[i].0;
            let g = survivors[i].1.duplicate();
            proof {
                assert(!self.bank.has_genome(id)) by {
                    if self.bank.has_genome(id) {
                        let m = choose|m: int| 0 <= m < self.bank.genomes@.len()
                            && (#[trigger] self.bank.genomes@[m]).0 == id;
                        assert(self.bank.genomes@[m].0 == survivors@[m].0);
                    }
                }
            }
            self.bank.adopt(id, g);
            i += 1;
        }
        let mut j: usize = 0;
        while j < offspring.len()
            invariant
                j <= offspring@.len(),
                elites_count + offspring@.len() == pop,
                self.config == cfg0,
                self.inputs == old(self).inputs,
                self.outputs == old(self).outputs,
                self.wf(),
                self.bank.genomes@.len() == elites_count + j,
                self.bank.previous_genomes@ == bank0.genomes@,
                self.bank.fitnesses@.len() == 0,
                self.bank.next_id as int + offspring@.len() - j <= u64::MAX as int,
                forall|m: int| 0 <= m < offspring@.len()
                    ==> (#[trigger] offspring@[m]).wf()
                        && offspring@[m].layout_wf()
                        && offspring@[m].consistent_with(&self.registry)
                        && offspring@[m].inputs == self.inputs
                        && offspring@[m].outputs == self.outputs,
                forall|m: int| 0 <= m < elites_count
                    ==> (#[trigger] self.bank.genomes@[m]).0 == survivors@[m].0
                        && same_genome(self.bank.genomes@[m].1, survivors@[m].1),
            decreases offspring@.len() - j,
        {
            proof {
                assert(self.bank.next_id < u64::MAX);
            }
            let g = offspring[j].duplicate();
            let id = self.bank.add_genome(g);
            j += 1;
        }

        proof {
            assert(is_ranking(rk, &old(self).bank, &old(self).config));
            assert forall|i2: int|
                0 <= i2 < elites_count_spec(&old(self).config, old(self).bank.genomes@.len() as int)
                implies (#[trigger] self.bank.genomes@[i2]).0 == rk[i2].0
                    && same_genome(self.bank.genomes@[i2].1, old(self).bank.genome_of(rk[i2].0)) by {
                assert(self.bank.genomes@[i2].0 == survivors@[i2].0);
                assert(survivors@[i2].0 == rk[i2].0);
            }
        }
        Ok(())
    }

    /// Did the configured fitness goal get reached by the best genome?
    pub fn goal_reached(&self) -> (r: bool)
        requires
            self.wf(),
            self.bank.genomes@.len() >= 1,
            self.bank.all_tested(),
        ensures
            r == (self.config.fitness_goal is Some
                && exists|k: int| 0 <= k < self.bank.genomes@.len()
                    && self.bank.fitness_of((#[trigger] self.bank.genomes@[k]).0)
                        >= self.config.fitness_goal->Some_0),
    {
        match self.config.fitness_goal {
            None => false,
            Some(goal) => {
                let best = self.get_best();
                proof {
                    if best.2 >= goal {
                        let ck = choose|ck: int| 0 <= ck < self.bank.genomes@.len()
                            && (#[trigger] self.bank.genomes@[ck]).0 == best.0;
                        assert(self.bank.fitness_of(self.bank.genomes@[ck].0) >= goal);
                    }
                }
                best.2 >= goal
            }
        }
    }
}

} // verus!
