//! The genome bank: the current and previous generation, raw fitnesses,
//! species membership, compatibility distance, and adjusted fitness.

use vstd::prelude::*;
use crate::config::Configuration;
use crate::genes::{ConnectionGene, NodeGene};
use crate::genome::{has_innovation, Genome, GenomeId};

verus! {

/// Absolute value.
pub open spec fn abs_i(x: int) -> int {
    if x < 0 { -x } else { x }
}

/// Truncating division (rounds toward zero), for a positive divisor.
pub open spec fn div_trunc(num: int, den: int) -> int {
    if num >= 0 { num / den } else { -((-num) / den) }
}

/// Distance contribution of one aligned node position.
pub open spec fn node_term(na: NodeGene, nb: NodeGene, cfg: &Configuration) -> int {
    (if na.activation != nb.activation { cfg.distance_activation_coefficient as int } else { 0 })
        + (if na.aggregation != nb.aggregation { cfg.distance_aggregation_coefficient as int } else { 0 })
        + abs_i(na.bias - nb.bias) * cfg.distance_bias_coefficient
}

/// Sum of the node terms over the first `k` aligned positions.
pub open spec fn node_sum(an: Seq<NodeGene>, bn: Seq<NodeGene>, cfg: &Configuration, k: int) -> int
    decreases k,
{
    if k <= 0 { 0 } else { node_sum(an, bn, cfg, k - 1) + node_term(an[k - 1], bn[k - 1], cfg) }
}

/// Distance contribution of one matching connection pair.
pub open spec fn conn_term(ca: ConnectionGene, cb: ConnectionGene, cfg: &Configuration) -> int {
    (if ca.disabled != cb.disabled { cfg.distance_disabled_coefficient as int } else { 0 })
        + abs_i(ca.weight - cb.weight) * cfg.distance_weight_coefficient
}

/// The index in `bc` of the gene with this innovation number.
pub open spec fn innovation_index(bc: Seq<ConnectionGene>, innovation: u64) -> int {
    choose|j: int| 0 <= j < bc.len() && bc[j].innovation == innovation
}

/// Contribution of one of `a`'s genes: a matching term if `bc` holds the
/// same innovation, the disjoint coefficient otherwise.
pub open spec fn match_term(ca: ConnectionGene, bc: Seq<ConnectionGene>, cfg: &Configuration) -> int {
    if has_innovation(bc, ca.innovation) {
        conn_term(ca, bc[innovation_index(bc, ca.innovation)], cfg)
    } else {
        cfg.distance_disjoint_coefficient as int
    }
}

/// Sum of `match_term` over the first `k` genes of `ac`.
pub open spec fn conn_sum(ac: Seq<ConnectionGene>, bc: Seq<ConnectionGene>, cfg: &Configuration, k: int) -> int
    decreases k,
{
    if k <= 0 { 0 } else { conn_sum(ac, bc, cfg, k - 1) + match_term(ac[k - 1], bc, cfg) }
}

/// Disjoint contribution of the first `k` genes of `bc` that have no
/// partner in `ac`.
pub open spec fn disjoint_sum(bc: Seq<ConnectionGene>, ac: Seq<ConnectionGene>, cfg: &Configuration, k: int) -> int
    decreases k,
{
    if k <= 0 {
        0
    } else {
        disjoint_sum(bc, ac, cfg, k - 1)
            + if has_innovation(ac, bc[k - 1].innovation) { 0 } else { cfg.distance_disjoint_coefficient as int }
    }
}

/// The compatibility distance: aligned node differences, plus the
/// connection differences and disjoint counts scaled by the larger gene
/// count (at least one). Kept opaque: callers reason about relatedness
/// abstractly; only the computation itself unfolds the formula.
#[verifier::opaque]
pub open spec fn spec_distance(a: &Genome, b: &Genome, cfg: &Configuration) -> int {
    let an = a.node_genes@;
    let bn = b.node_genes@;
    let ac = a.connection_genes@;
    let bc = b.connection_genes@;
    let zipped = if an.len() <= bn.len() { an.len() as int } else { bn.len() as int };
    let max_conn = if ac.len() >= bc.len() { ac.len() as int } else { bc.len() as int };
    let denom = if max_conn == 0 { 1 } else { max_conn };
    node_sum(an, bn, cfg, zipped)
        + (conn_sum(ac, bc, cfg, ac.len() as int) + disjoint_sum(bc, ac, cfg, bc.len() as int)) / denom
}

/// Two genomes are related when their distance is within the threshold.
pub open spec fn related_spec(a: &Genome, b: &Genome, cfg: &Configuration) -> bool {
    spec_distance(a, b, cfg) <= cfg.compatibility_threshold as int
}

/// The compatibility test, computed exactly as `spec_distance` says.
pub fn related_genomes(a: &Genome, b: &Genome, config: &Configuration) -> (r: bool)
    requires
        a.wf(),
        b.wf(),
        config.wf(),
        crate::genome::aligned(b.connection_genes@, b.connection_genes@),
    ensures
        r == related_spec(a, b, config),
{
    proof {
        reveal(spec_distance);
        crate::genome::lemma_innovations_unique(b);
    }
    let an_len = a.node_genes.len();
    let bn_len = b.node_genes.len();
    let zipped = if an_len <= bn_len { an_len } else { bn_len };
    let mut node_acc: u128 = 0;
    let mut p: usize = 0;
    while p < zipped
        invariant
            p <= zipped,
            zipped <= an_len && zipped <= bn_len,
            an_len == a.node_genes@.len(),
            bn_len == b.node_genes@.len(),
            a.wf(),
            b.wf(),
            config.wf(),
            node_acc as int == node_sum(a.node_genes@, b.node_genes@, config, p as int),
            node_acc as int <= p as int * 2_100_000_000_000_000,
        decreases zipped - p,
    {
        let na = a.node_genes[p];
        let nb = b.node_genes[p];
        let mut t: u128 = 0;
        if na.activation != nb.activation {
            t = t + config.distance_activation_coefficient as u128;
        }
        if na.aggregation != nb.aggregation {
            t = t + config.distance_aggregation_coefficient as u128;
        }
        let d = (na.bias as i128) - (nb.bias as i128);
        let ad: u128 = if d < 0 { (-d) as u128 } else { d as u128 };
        proof {
            assert(ad as int == abs_i(na.bias - nb.bias));
            assert(ad <= 2_000_000_000u128);
            assert(ad as int * (config.distance_bias_coefficient as int)
                <= 2_000_000_000_000_000) by (nonlinear_arith)
                requires
                    0 <= ad as int <= 2_000_000_000,
                    0 <= config.distance_bias_coefficient as int <= 1_000_000,
            {}
        }
        t = t + ad * (config.distance_bias_coefficient as u128);
        proof {
            assert(t as int == node_term(na, nb, config));
        }
        node_acc = node_acc + t;
        p += 1;
    }

    let ghost ac = a.connection_genes@;
    let ghost bc = b.connection_genes@;
    let mut conn_acc: u128 = 0;
    let mut ka: usize = 0;
    while ka < a.connection_genes.len()
        invariant
            ka <= ac.len(),
            ac == a.connection_genes@,
            bc == b.connection_genes@,
            a.wf(),
            b.wf(),
            config.wf(),
            forall|j1: int, j2: int| 0 <= j1 < j2 < bc.len()
                ==> (#[trigger] bc[j1]).innovation != (#[trigger] bc[j2]).innovation,
            conn_acc as int == conn_sum(ac, bc, config, ka as int),
            conn_acc as int <= ka as int * 2_100_000_000_000_000,
        decreases ac.len() - ka,
    {
        let ca = a.connection_genes[ka];
        let mut t: u128 = 0;
        let found = crate::genome::find_by_innovation(&b.connection_genes, ca.innovation);
        match found {
            Some(j) => {
                let cb = b.connection_genes[j];
                if ca.disabled != cb.disabled {
                    t = config.distance_disabled_coefficient as u128;
                }
                let d = (ca.weight as i128) - (cb.weight as i128);
                let ad: u128 = if d < 0 { (-d) as u128 } else { d as u128 };
                proof {
                    assert(ad as int == abs_i(ca.weight - cb.weight));
                    assert(ad <= 2_000_000_000u128);
                    assert(ad as int * (config.distance_weight_coefficient as int)
                        <= 2_000_000_000_000_000) by (nonlinear_arith)
                        requires
                            0 <= ad as int <= 2_000_000_000,
                            0 <= config.distance_weight_coefficient as int <= 1_000_000,
                    {}
                }
                t = t + ad * (config.distance_weight_coefficient as u128);
                proof {
                    assert(has_innovation(bc, ca.innovation)) by {
                        assert(bc[j as int].innovation == ca.innovation);
                    }
                    let jj = innovation_index(bc, ca.innovation);
                    assert(0 <= jj < bc.len() && bc[jj].innovation == ca.innovation);
                    if jj != j as int {
                        if jj < j as int {
                            assert(bc[jj].innovation != bc[j as int].innovation);
                        } else {
                            assert(bc[j as int].innovation != bc[jj].innovation);
                        }
                    }
                    assert(t as int == match_term(ca, bc, config));
                }
            }
            None => {
                t = config.distance_disjoint_coefficient as u128;
                proof {
                    assert(!has_innovation(bc, ca.innovation));
                    assert(t as int == match_term(ca, bc, config));
                }
            }
        }
        conn_acc = conn_acc + t;
        ka += 1;
    }

    let mut dis_acc: u128 = 0;
    let mut kb: usize = 0;
    while kb < b.connection_genes.len()
        invariant
            kb <= bc.len(),
            ac == a.connection_genes@,
            bc == b.connection_genes@,
            config.wf(),
            dis_acc as int == disjoint_sum(bc, ac, config, kb as int),
            dis_acc as int <= kb as int * 2_100_000_000_000_000,
        decreases bc.len() - kb,
    {
        let cb = b.connection_genes[kb];
        let found = crate::genome::find_by_innovation(&a.connection_genes, cb.innovation);
        match found {
            Some(j) => {
                proof {
                    assert(has_innovation(ac, cb.innovation)) by {
                        assert(ac[j as int].innovation == cb.innovation);
                    }
                }
            }
            None => {
                proof {
                    assert(!has_innovation(ac, cb.innovation));
                }
                dis_acc = dis_acc + config.distance_disjoint_coefficient as u128;
            }
        }
        kb += 1;
    }

    let ac_len = a.connection_genes.len();
    let bc_len = b.connection_genes.len();
    let max_conn = if ac_len >= bc_len { ac_len } else { bc_len };
    let denom: u128 = if max_conn == 0 { 1 } else { max_conn as u128 };
    let conn_total = conn_acc + dis_acc;
    let quot = conn_total / denom;
    let total = node_acc + quot;
    proof {
        reveal(spec_distance);
        assert(quot as int == (conn_sum(ac, bc, config, ac.len() as int)
            + disjoint_sum(bc, ac, config, bc.len() as int)) / (if max_conn == 0 { 1int } else { max_conn as int }));
        assert(total as int == spec_distance(a, b, config));
    }
    total <= config.compatibility_threshold as u128
}

/// Holds all genomes and species, does the process of speciation.
#[derive(Debug)]
pub struct GenomeBank {
    pub genomes: Vec<(GenomeId, Genome)>,
    pub previous_genomes: Vec<(GenomeId, Genome)>,
    pub fitnesses: Vec<(GenomeId, i64)>,
    pub species: Vec<Vec<GenomeId>>,
    pub next_id: GenomeId,
}

impl GenomeBank {
    /// Keys are unique, below the id counter, and fitnesses are bounded.
    pub open spec fn wf(&self) -> bool {
        &&& forall|k1: int, k2: int| 0 <= k1 < k2 < self.genomes@.len()
            ==> (#[trigger] self.genomes@[k1]).0 != (#[trigger] self.genomes@[k2]).0
        &&& forall|k1: int, k2: int| 0 <= k1 < k2 < self.fitnesses@.len()
            ==> (#[trigger] self.fitnesses@[k1]).0 != (#[trigger] self.fitnesses@[k2]).0
        &&& forall|k: int| 0 <= k < self.genomes@.len()
            ==> (#[trigger] self.genomes@[k]).0 < self.next_id
        &&& forall|k: int| 0 <= k < self.fitnesses@.len()
            ==> -crate::config::FITNESS_LIMIT <= (#[trigger] self.fitnesses@[k]).1
                <= crate::config::FITNESS_LIMIT
    }

    /// Some stored genome carries this id.
    pub open spec fn has_genome(&self, id: GenomeId) -> bool {
        exists|k: int| 0 <= k < self.genomes@.len() && (#[trigger] self.genomes@[k]).0 == id
    }

    /// The stored genome with this id.
    pub open spec fn genome_of(&self, id: GenomeId) -> Genome {
        self.genomes@[choose|k: int| 0 <= k < self.genomes@.len() && (#[trigger] self.genomes@[k]).0 == id].1
    }

    /// This id has a recorded fitness.
    pub open spec fn tested(&self, id: GenomeId) -> bool {
        exists|k: int| 0 <= k < self.fitnesses@.len() && (#[trigger] self.fitnesses@[k]).0 == id
    }

    /// The recorded fitness of this id.
    pub open spec fn fitness_of(&self, id: GenomeId) -> i64 {
        self.fitnesses@[choose|k: int| 0 <= k < self.fitnesses@.len()
            && (#[trigger] self.fitnesses@[k]).0 == id].1
    }

    /// Every stored genome has a recorded fitness.
    pub open spec fn all_tested(&self) -> bool {
        forall|k: int| 0 <= k < self.genomes@.len() ==> self.tested((#[trigger] self.genomes@[k]).0)
    }

    /// This id is a member of some species.
    pub open spec fn in_species(&self, id: GenomeId) -> bool {
        exists|s: int, m: int| 0 <= s < self.species@.len()
            && 0 <= m < self.species@[s]@.len() && (#[trigger] self.species@[s]@[m]) == id
    }

    pub fn new() -> (r: GenomeBank)
        ensures
            r.wf(),
            r.genomes@.len() == 0,
            r.previous_genomes@.len() == 0,
            r.fitnesses@.len() == 0,
            r.species@.len() == 0,
            r.next_id == 0,
    {
        GenomeBank {
            genomes: Vec::new(),
            previous_genomes: Vec::new(),
            fitnesses: Vec::new(),
            species: Vec::new(),
            next_id: 0,
        }
    }

    /// Adds a new genome under a fresh id and returns the id.
    pub fn add_genome(&mut self, genome: Genome) -> (id: GenomeId)
        requires
            old(self).wf(),
            old(self).next_id < u64::MAX,
        ensures
            final(self).wf(),
            id == old(self).next_id,
            final(self).next_id == old(self).next_id + 1,
            final(self).genomes@ == old(self).genomes@.push((id, genome)),
            final(self).previous_genomes@ == old(self).previous_genomes@,
            final(self).fitnesses@ == old(self).fitnesses@,
            final(self).species@ == old(self).species@,
    {
        let id = self.next_id;
        self.genomes.push((id, genome));
        self.next_id = id + 1;
        id
    }

    /// Re-installs a genome under an id it held before the last `clear`.
    pub fn adopt(&mut self, id: GenomeId, genome: Genome)
        requires
            old(self).wf(),
            id < old(self).next_id,
            !old(self).has_genome(id),
        ensures
            final(self).wf(),
            final(self).genomes@ == old(self).genomes@.push((id, genome)),
            final(self).next_id == old(self).next_id,
            final(self).previous_genomes@ == old(self).previous_genomes@,
            final(self).fitnesses@ == old(self).fitnesses@,
            final(self).species@ == old(self).species@,
    {
        self.genomes.push((id, genome));
        proof {
            assert forall|k1: int, k2: int| 0 <= k1 < k2 < self.genomes@.len()
                implies (#[trigger] self.genomes@[k1]).0 != (#[trigger] self.genomes@[k2]).0 by {
                if k2 == self.genomes@.len() - 1 {
                    assert(old(self).genomes@[k1].0 != id);
                }
            }
        }
    }

    /// Snapshot the current generation as "previous" and reset the rest.
    pub fn clear(&mut self)
        requires
            old(self).wf(),
        ensures
            final(self).wf(),
            final(self).previous_genomes@ == old(self).genomes@,
            final(self).genomes@.len() == 0,
            final(self).fitnesses@.len() == 0,
            final(self).species@.len() == 0,
            final(self).next_id == old(self).next_id,
    {
        let mut moved: Vec<(GenomeId, Genome)> = Vec::new();
        std::mem::swap(&mut moved, &mut self.genomes);
        self.previous_genomes = moved;
        self.genomes = Vec::new();
        self.fitnesses = Vec::new();
        self.species = Vec::new();
    }

    pub fn genomes(&self) -> (r: &Vec<(GenomeId, Genome)>)
        ensures
            r@ == self.genomes@,
    {
        &self.genomes
    }

    pub fn previous_genomes(&self) -> (r: &Vec<(GenomeId, Genome)>)
        ensures
            r@ == self.previous_genomes@,
    {
        &self.previous_genomes
    }

    pub fn species(&self) -> (r: &Vec<Vec<GenomeId>>)
        ensures
            r@ == self.species@,
    {
        &self.species
    }

    pub fn fitnesses(&self) -> (r: &Vec<(GenomeId, i64)>)
        ensures
            r@ == self.fitnesses@,
    {
        &self.fitnesses
    }

    /// The index of the entry with this id, if any.
    fn find_genome_index(&self, id: GenomeId) -> (r: Option<usize>)
        ensures
            r is Some ==> (r->Some_0) < self.genomes@.len()
                && self.genomes@[(r->Some_0) as int].0 == id,
            r is None ==> !self.has_genome(id),
    {
        let mut k: usize = 0;
        while k < self.genomes.len()
            invariant
                k <= self.genomes@.len(),
                forall|m: int| 0 <= m < k ==> (#[trigger] self.genomes@[m]).0 != id,
            decreases self.genomes@.len() - k,
        {
            if self.genomes[k].0 == id {
                return Some(k);
            }
            k += 1;
        }
        None
    }

    fn find_fitness_index(&self, id: GenomeId) -> (r: Option<usize>)
        ensures
            r is Some ==> (r->Some_0) < self.fitnesses@.len()
                && self.fitnesses@[(r->Some_0) as int].0 == id,
            r is None ==> !self.tested(id),
    {
        let mut k: usize = 0;
        while k < self.fitnesses.len()
            invariant
                k <= self.fitnesses@.len(),
                forall|m: int| 0 <= m < k ==> (#[trigger] self.fitnesses@[m]).0 != id,
            decreases self.fitnesses@.len() - k,
        {
            if self.fitnesses[k].0 == id {
                return Some(k);
            }
            k += 1;
        }
        None
    }

    /// Index of the fitness record for this id.
    pub fn fitness_index(&self, id: GenomeId) -> (r: usize)
        requires
            self.tested(id),
        ensures
            r < self.fitnesses@.len(),
            self.fitnesses@[r as int].0 == id,
    {
        let mut k: usize = 0;
        while k < self.fitnesses.len()
            invariant
                k <= self.fitnesses@.len(),
                self.tested(id),
                forall|m: int| 0 <= m < k ==> (#[trigger] self.fitnesses@[m]).0 != id,
            decreases self.fitnesses@.len() - k,
        {
            if self.fitnesses[k].0 == id {
                return k;
            }
            k += 1;
        }
        proof {
            let m = choose|m: int| 0 <= m < self.fitnesses@.len()
                && (#[trigger] self.fitnesses@[m]).0 == id;
            assert(false);
        }
        0
    }

    /// Tracks the fitness of a particular genome.
    pub fn mark_fitness(&mut self, genome_id: GenomeId, fitness: i64)
        requires
            old(self).wf(),
            -crate::config::FITNESS_LIMIT <= fitness <= crate::config::FITNESS_LIMIT,
        ensures
            final(self).wf(),
            final(self).tested(genome_id),
            final(self).fitness_of(genome_id) == fitness,
            forall|id: u64| id != genome_id
                ==> (#[trigger] final(self).tested(id) <==> old(self).tested(id)),
            forall|id: u64| id != genome_id && old(self).tested(id)
                ==> #[trigger] final(self).fitness_of(id) == old(self).fitness_of(id),
            final(self).genomes@ == old(self).genomes@,
            final(self).previous_genomes@ == old(self).previous_genomes@,
            final(self).species@ == old(self).species@,
            final(self).next_id == old(self).next_id,
    {
        let found = self.find_fitness_index(genome_id);
        match found {
            Some(k) => {
                self.fitnesses[k] = (genome_id, fitness);
                proof {
                    let newf = self.fitnesses@;
                    let oldf = old(self).fitnesses@;
                    assert(newf[k as int].0 == genome_id);
                    assert forall|id: u64| id != genome_id
                        implies (#[trigger] self.tested(id) <==> old(self).tested(id)) by {
                        if old(self).tested(id) {
                            let m = choose|m: int| 0 <= m < oldf.len() && oldf[m].0 == id;
                            assert(m != k as int);
                            assert(newf[m].0 == id);
                        }
                        if self.tested(id) {
                            let m = choose|m: int| 0 <= m < newf.len() && newf[m].0 == id;
                            assert(m != k as int);
                            assert(oldf[m].0 == id);
                        }
                    }
                    assert forall|id: u64| id != genome_id && old(self).tested(id)
                        implies #[trigger] self.fitness_of(id) == old(self).fitness_of(id) by {
                        let m1 = choose|m: int| 0 <= m < newf.len() && (#[trigger] newf[m]).0 == id;
                        let m2 = choose|m: int| 0 <= m < oldf.len() && (#[trigger] oldf[m]).0 == id;
                        assert(newf[m2].0 == id);
                        assert(m1 != k as int && m2 != k as int);
                        if m1 != m2 {
                            assert(newf[m2] == oldf[m2]);
                            assert(oldf[m1] == newf[m1]);
                        }
                    }
                }
            }
            None => {
                self.fitnesses.push((genome_id, fitness));
                proof {
                    let newf = self.fitnesses@;
                    let oldf = old(self).fitnesses@;
                    let last = newf.len() - 1;
                    assert(newf[last].0 == genome_id);
                    assert forall|k1: int, k2: int| 0 <= k1 < k2 < newf.len()
                        implies (#[trigger] newf[k1]).0 != (#[trigger] newf[k2]).0 by {
                        if k2 == last {
                            assert(oldf[k1].0 != genome_id);
                        }
                    }
                    assert forall|id: u64| id != genome_id
                        implies (#[trigger] self.tested(id) <==> old(self).tested(id)) by {
                        if old(self).tested(id) {
                            let m = choose|m: int| 0 <= m < oldf.len() && oldf[m].0 == id;
                            assert(newf[m].0 == id);
                        }
                        if self.tested(id) {
                            let m = choose|m: int| 0 <= m < newf.len() && newf[m].0 == id;
                            assert(m != last);
                            assert(oldf[m].0 == id);
                        }
                    }
                    assert forall|id: u64| id != genome_id && old(self).tested(id)
                        implies #[trigger] self.fitness_of(id) == old(self).fitness_of(id) by {
                        let m1 = choose|m: int| 0 <= m < newf.len() && (#[trigger] newf[m]).0 == id;
                        let m2 = choose|m: int| 0 <= m < oldf.len() && (#[trigger] oldf[m]).0 == id;
                        assert(newf[m2].0 == id);
                        assert(m1 != last);
                        if m1 != m2 {
                            assert(newf[m2] == oldf[m2]);
                            assert(oldf[m1] == newf[m1]);
                        }
                    }
                }
            }
        }
    }

    /// Checks that all genomes have had their fitness measured.
    pub fn all_genomes_tested(&self) -> (r: bool)
        ensures
            r == self.all_tested(),
    {
        let mut k: usize = 0;
        while k < self.genomes.len()
            invariant
                k <= self.genomes@.len(),
                forall|m: int| 0 <= m < k ==> self.tested((#[trigger] self.genomes@[m]).0),
            decreases self.genomes@.len() - k,
        {
            let found = self.find_fitness_index(self.genomes[k].0);
            if found.is_none() {
                return false;
            }
            k += 1;
        }
        true
    }

    /// The first species holding this id.
    pub open spec fn species_index_of(sp: Seq<Vec<GenomeId>>, id: GenomeId) -> int {
        choose|s: int| 0 <= s < sp.len() && sp[s]@.contains(id)
            && (forall|s2: int| 0 <= s2 < s ==> !(#[trigger] sp[s2])@.contains(id))
    }

    /// Compatibility test against the configured threshold.
    pub fn are_genomes_related(&self, a: &Genome, b: &Genome, config: &Configuration) -> (r: bool)
        requires
            a.wf(),
            b.wf(),
            config.wf(),
            crate::genome::aligned(b.connection_genes@, b.connection_genes@),
        ensures
            r == related_spec(a, b, config),
    {
        related_genomes(a, b, config)
    }

    /// Classifies genomes into their respective species: each genome joins
    /// the first species whose representative (its first member) it is
    /// compatible with, or founds a new species. After the call the
    /// species cover the current generation: each is nonempty, every
    /// member is related to its representative, every genome has a
    /// species, and representatives are mutually unrelated.
    /// The speciation invariants, relative to the first `upto` genomes
    /// being the processed ones: species are nonempty; every member is a
    /// processed genome's id and sits in exactly one slot; every processed
    /// genome has a species; members are related to their species'
    /// representative (its first member); and no member is related to the
    /// representative of any earlier species (each genome joined the
    /// first compatible species).
    pub open spec fn species_state_ok(&self, config: &Configuration, upto: int) -> bool {
        &&& forall|s: int| 0 <= s < self.species@.len()
            ==> (#[trigger] self.species@[s])@.len() >= 1
        &&& forall|s: int, m: int| 0 <= s < self.species@.len()
            && 0 <= m < self.species@[s]@.len()
            ==> exists|k2: int| 0 <= k2 < upto
                && (#[trigger] self.species@[s]@[m]) == self.genomes@[k2].0
        &&& forall|k2: int| 0 <= k2 < upto ==> self.in_species((#[trigger] self.genomes@[k2]).0)
        &&& forall|s1: int, m1: int, s2: int, m2: int|
            #![trigger self.species@[s1]@[m1], self.species@[s2]@[m2]]
            0 <= s1 < self.species@.len() && 0 <= m1 < self.species@[s1]@.len()
                && 0 <= s2 < self.species@.len() && 0 <= m2 < self.species@[s2]@.len()
                && (s1 != s2 || m1 != m2)
            ==> self.species@[s1]@[m1] != self.species@[s2]@[m2]
        &&& forall|s: int, m: int| 0 <= s < self.species@.len()
            && 1 <= m < self.species@[s]@.len()
            ==> related_spec(
                &self.genome_of(#[trigger] self.species@[s]@[m]),
                &self.genome_of(self.species@[s]@[0]),
                config,
            )
        &&& forall|s: int, m: int, s2: int|
            #![trigger self.species@[s]@[m], self.species@[s2]@[0]]
            0 <= s2 < s < self.species@.len() && 0 <= m < self.species@[s]@.len()
            ==> !related_spec(
                &self.genome_of(self.species@[s]@[m]),
                &self.genome_of(self.species@[s2]@[0]),
                config,
            )
    }

    /// Appends genome `k`'s id to species `s`, to which it is related and
    /// which is the first species it is compatible with.
    #[verifier::rlimit(100)]
    fn join_species(&mut self, s: usize, k: usize, config: &Configuration)
        requires
            old(self).wf(),
            config.wf(),
            s < old(self).species@.len(),
            k < old(self).genomes@.len(),
            old(self).species_state_ok(config, k as int),
            related_spec(
                &old(self).genome_of(old(self).genomes@[k as int].0),
                &old(self).genome_of(old(self).species@[s as int]@[0]),
                config,
            ),
            forall|s2: int| 0 <= s2 < s
                ==> !related_spec(
                    &old(self).genome_of(old(self).genomes@[k as int].0),
                    &old(self).genome_of((#[trigger] old(self).species@[s2])@[0]),
                    config,
                ),
        ensures
            final(self).wf(),
            final(self).genomes@ == old(self).genomes@,
            final(self).previous_genomes@ == old(self).previous_genomes@,
            final(self).fitnesses@ == old(self).fitnesses@,
            final(self).next_id == old(self).next_id,
            final(self).species@.len() == old(self).species@.len(),
            final(self).species_state_ok(config, k as int + 1),
    {
        let id = self.genomes[k].0;
        let ghost species0 = self.species@;
        let new_row = push_member(&self.species[s], id);
        self.species[s] = new_row;
        proof {
            assert(self.species@ == species0.update(s as int, new_row));
            assert(self.species@[s as int]@ == species0[s as int]@.push(id));
            assert forall|sx: int, mx: int| 0 <= sx < self.species@.len()
                && 0 <= mx < self.species@[sx]@.len()
                implies exists|k2: int| 0 <= k2 < k + 1
                    && (#[trigger] self.species@[sx]@[mx]) == self.genomes@[k2].0 by {
                if sx == s as int && mx == self.species@[sx]@.len() - 1 {
                    assert(self.species@[sx]@[mx] == self.genomes@[k as int].0);
                } else {
                    assert(self.species@[sx]@[mx] == species0[sx]@[mx]);
                    let k2 = choose|k2: int| 0 <= k2 < k
                        && (#[trigger] species0[sx]@[mx]) == self.genomes@[k2].0;
                    assert(self.species@[sx]@[mx] == self.genomes@[k2].0);
                }
            }
            assert(self.in_species(id)) by {
                assert(self.species@[s as int]@[self.species@[s as int]@.len() - 1] == id);
            }
            assert forall|k2: int| 0 <= k2 < k + 1
                implies self.in_species((#[trigger] self.genomes@[k2]).0) by {
                if k2 < k {
                    let (sx, mx) = choose|sx: int, mx: int| 0 <= sx < species0.len()
                        && 0 <= mx < species0[sx]@.len()
                        && (#[trigger] species0[sx]@[mx]) == self.genomes@[k2].0;
                    assert(self.species@[sx]@[mx] == species0[sx]@[mx]);
                }
            }
            assert forall|s1: int, m1: int, s2: int, m2: int|
                #![trigger self.species@[s1]@[m1], self.species@[s2]@[m2]]
                0 <= s1 < self.species@.len() && 0 <= m1 < self.species@[s1]@.len()
                    && 0 <= s2 < self.species@.len() && 0 <= m2 < self.species@[s2]@.len()
                    && (s1 != s2 || m1 != m2)
                implies self.species@[s1]@[m1] != self.species@[s2]@[m2] by {
                let new1 = s1 == s as int && m1 == self.species@[s1]@.len() - 1;
                let new2 = s2 == s as int && m2 == self.species@[s2]@.len() - 1;
                if new1 && !new2 {
                    assert(self.species@[s2]@[m2] == species0[s2]@[m2]);
                    let k2 = choose|k2: int| 0 <= k2 < k
                        && (#[trigger] species0[s2]@[m2]) == self.genomes@[k2].0;
                    assert(self.genomes@[k2].0 != self.genomes@[k as int].0);
                } else if !new1 && new2 {
                    assert(self.species@[s1]@[m1] == species0[s1]@[m1]);
                    let k2 = choose|k2: int| 0 <= k2 < k
                        && (#[trigger] species0[s1]@[m1]) == self.genomes@[k2].0;
                    assert(self.genomes@[k2].0 != self.genomes@[k as int].0);
                } else if !new1 && !new2 {
                    assert(self.species@[s1]@[m1] == species0[s1]@[m1]);
                    assert(self.species@[s2]@[m2] == species0[s2]@[m2]);
                }
            }
            assert forall|s2: int, m: int| 0 <= s2 < self.species@.len()
                && 1 <= m < self.species@[s2]@.len()
                implies related_spec(
                    &self.genome_of(#[trigger] self.species@[s2]@[m]),
                    &self.genome_of(self.species@[s2]@[0]),
                    config,
                ) by {
                if s2 == s as int && m == self.species@[s2]@.len() - 1 {
                    assert(self.species@[s2]@[m] == id);
                    assert(self.species@[s2]@[0] == species0[s2]@[0]);
                } else {
                    assert(self.species@[s2]@[m] == species0[s2]@[m]);
                    assert(self.species@[s2]@[0] == species0[s2]@[0]);
                }
            }
            assert forall|sx: int, mx: int, s2: int|
                #![trigger self.species@[sx]@[mx], self.species@[s2]@[0]]
                0 <= s2 < sx < self.species@.len() && 0 <= mx < self.species@[sx]@.len()
                implies !related_spec(
                    &self.genome_of(self.species@[sx]@[mx]),
                    &self.genome_of(self.species@[s2]@[0]),
                    config,
                ) by {
                assert(self.species@[s2]@[0] == species0[s2]@[0]);
                if sx == s as int && mx == self.species@[sx]@.len() - 1 {
                    assert(self.species@[sx]@[mx] == id);
                } else {
                    assert(self.species@[sx]@[mx] == species0[sx]@[mx]);
                }
            }
        }
    }

    /// Appends a fresh species whose sole member and representative is
    /// genome `k`'s id, which no existing representative is compatible
    /// with.
    #[verifier::rlimit(100)]
    fn found_species(&mut self, k: usize, config: &Configuration)
        requires
            old(self).wf(),
            config.wf(),
            k < old(self).genomes@.len(),
            old(self).species_state_ok(config, k as int),
            forall|s2: int| 0 <= s2 < old(self).species@.len()
                ==> !related_spec(
                    &old(self).genome_of(old(self).genomes@[k as int].0),
                    &old(self).genome_of((#[trigger] old(self).species@[s2])@[0]),
                    config,
                ),
        ensures
            final(self).wf(),
            final(self).genomes@ == old(self).genomes@,
            final(self).previous_genomes@ == old(self).previous_genomes@,
            final(self).fitnesses@ == old(self).fitnesses@,
            final(self).next_id == old(self).next_id,
            final(self).species_state_ok(config, k as int + 1),
    {
        let id = self.genomes[k].0;
        let ghost species0 = self.species@;
        let mut fresh: Vec<GenomeId> = Vec::new();
        fresh.push(id);
        self.species.push(fresh);
        proof {
            let ns = self.species@.len() - 1;
            assert(self.species@[ns]@ =~= seq![id]);
            assert forall|sx: int, mx: int| 0 <= sx < self.species@.len()
                && 0 <= mx < self.species@[sx]@.len()
                implies exists|k2: int| 0 <= k2 < k + 1
                    && (#[trigger] self.species@[sx]@[mx]) == self.genomes@[k2].0 by {
                if sx == ns {
                    assert(self.species@[sx]@[mx] == self.genomes@[k as int].0);
                } else {
                    assert(self.species@[sx]@[mx] == species0[sx]@[mx]);
                    let k2 = choose|k2: int| 0 <= k2 < k
                        && (#[trigger] species0[sx]@[mx]) == self.genomes@[k2].0;
                    assert(self.species@[sx]@[mx] == self.genomes@[k2].0);
                }
            }
            assert(self.in_species(id)) by {
                assert(self.species@[ns]@[0] == id);
            }
            assert forall|k2: int| 0 <= k2 < k + 1
                implies self.in_species((#[trigger] self.genomes@[k2]).0) by {
                if k2 < k {
                    let (sx, mx) = choose|sx: int, mx: int| 0 <= sx < species0.len()
                        && 0 <= mx < species0[sx]@.len()
                        && (#[trigger] species0[sx]@[mx]) == self.genomes@[k2].0;
                    assert(self.species@[sx]@[mx] == species0[sx]@[mx]);
                }
            }
            assert forall|s1: int, m1: int, s2: int, m2: int|
                #![trigger self.species@[s1]@[m1], self.species@[s2]@[m2]]
                0 <= s1 < self.species@.len() && 0 <= m1 < self.species@[s1]@.len()
                    && 0 <= s2 < self.species@.len() && 0 <= m2 < self.species@[s2]@.len()
                    && (s1 != s2 || m1 != m2)
                implies self.species@[s1]@[m1] != self.species@[s2]@[m2] by {
                if s1 == ns && s2 != ns {
                    assert(self.species@[s2]@[m2] == species0[s2]@[m2]);
                    let k2 = choose|k2: int| 0 <= k2 < k
                        && (#[trigger] species0[s2]@[m2]) == self.genomes@[k2].0;
                    assert(self.genomes@[k2].0 != self.genomes@[k as int].0);
                } else if s1 != ns && s2 == ns {
                    assert(self.species@[s1]@[m1] == species0[s1]@[m1]);
                    let k2 = choose|k2: int| 0 <= k2 < k
                        && (#[trigger] species0[s1]@[m1]) == self.genomes@[k2].0;
                    assert(self.genomes@[k2].0 != self.genomes@[k as int].0);
                } else if s1 != ns && s2 != ns {
                    assert(self.species@[s1]@[m1] == species0[s1]@[m1]);
                    assert(self.species@[s2]@[m2] == species0[s2]@[m2]);
                }
            }
            assert forall|s2: int, m: int| 0 <= s2 < self.species@.len()
                && 1 <= m < self.species@[s2]@.len()
                implies related_spec(
                    &self.genome_of(#[trigger] self.species@[s2]@[m]),
                    &self.genome_of(self.species@[s2]@[0]),
                    config,
                ) by {
                assert(s2 < ns);
                assert(self.species@[s2]@[m] == species0[s2]@[m]);
                assert(self.species@[s2]@[0] == species0[s2]@[0]);
            }
            assert forall|sx: int, mx: int, s2: int|
                #![trigger self.species@[sx]@[mx], self.species@[s2]@[0]]
                0 <= s2 < sx < self.species@.len() && 0 <= mx < self.species@[sx]@.len()
                implies !related_spec(
                    &self.genome_of(self.species@[sx]@[mx]),
                    &self.genome_of(self.species@[s2]@[0]),
                    config,
                ) by {
                assert(self.species@[s2]@[0] == species0[s2]@[0]);
                if sx == ns {
                    assert(self.species@[sx]@[mx] == id);
                } else {
                    assert(self.species@[sx]@[mx] == species0[sx]@[mx]);
                }
            }
        }
    }

    /// Classifies genomes into their respective species: each genome joins
    /// the first species whose representative (its first member) it is
    /// compatible with, or founds a new species. Afterwards the species
    /// partition the current generation: they are nonempty, every genome
    /// lands in exactly one member slot, every member is related to its
    /// representative, and no member is related to the representative of
    /// any earlier species.
    pub fn speciate(&mut self, config: &Configuration)
        requires
            old(self).wf(),
            config.wf(),
            forall|k: int| 0 <= k < old(self).genomes@.len()
                ==> (#[trigger] old(self).genomes@[k]).1.wf()
                    && crate::genome::aligned(
                        old(self).genomes@[k].1.connection_genes@,
                        old(self).genomes@[k].1.connection_genes@,
                    ),
        ensures
            final(self).wf(),
            final(self).genomes@ == old(self).genomes@,
            final(self).previous_genomes@ == old(self).previous_genomes@,
            final(self).fitnesses@ == old(self).fitnesses@,
            final(self).next_id == old(self).next_id,
            final(self).species_state_ok(config, final(self).genomes@.len() as int),
            forall|s: int| 0 <= s < final(self).species@.len()
                ==> (#[trigger] final(self).species@[s])@.len() >= 1,
            forall|s: int, m: int| 0 <= s < final(self).species@.len()
                && 0 <= m < final(self).species@[s]@.len()
                ==> final(self).has_genome(#[trigger] final(self).species@[s]@[m]),
            forall|k: int| 0 <= k < final(self).genomes@.len()
                ==> final(self).in_species((#[trigger] final(self).genomes@[k]).0),
            forall|s1: int, m1: int, s2: int, m2: int|
                #![trigger final(self).species@[s1]@[m1], final(self).species@[s2]@[m2]]
                0 <= s1 < final(self).species@.len() && 0 <= m1 < final(self).species@[s1]@.len()
                    && 0 <= s2 < final(self).species@.len() && 0 <= m2 < final(self).species@[s2]@.len()
                    && (s1 != s2 || m1 != m2)
                ==> final(self).species@[s1]@[m1] != final(self).species@[s2]@[m2],
            forall|s: int, m: int| 0 <= s < final(self).species@.len()
                && 1 <= m < final(self).species@[s]@.len()
                ==> related_spec(
                    &final(self).genome_of(#[trigger] final(self).species@[s]@[m]),
                    &final(self).genome_of(final(self).species@[s]@[0]),
                    config,
                ),
            forall|s1: int, s2: int| 0 <= s1 < s2 < final(self).species@.len()
                ==> !related_spec(
                    &final(self).genome_of((#[trigger] final(self).species@[s2])@[0]),
                    &final(self).genome_of((#[trigger] final(self).species@[s1])@[0]),
                    config,
                ),
            forall|s: int, m: int, s2: int|
                #![trigger final(self).species@[s]@[m], final(self).species@[s2]@[0]]
                0 <= s2 < s < final(self).species@.len() && 0 <= m < final(self).species@[s]@.len()
                ==> !related_spec(
                    &final(self).genome_of(final(self).species@[s]@[m]),
                    &final(self).genome_of(final(self).species@[s2]@[0]),
                    config,
                ),
    {
        self.species = Vec::new();
        let ghost genomes0 = self.genomes@;
        let mut k: usize = 0;
        while k < self.genomes.len()
            invariant
                k <= self.genomes@.len(),
                self.wf(),
                config.wf(),
                self.genomes@ == genomes0,
                genomes0 == old(self).genomes@,
                self.previous_genomes@ == old(self).previous_genomes@,
                self.fitnesses@ == old(self).fitnesses@,
                self.next_id == old(self).next_id,
                forall|k2: int| 0 <= k2 < self.genomes@.len()
                    ==> (#[trigger] self.genomes@[k2]).1.wf()
                        && crate::genome::aligned(
                            self.genomes@[k2].1.connection_genes@,
                            self.genomes@[k2].1.connection_genes@,
                        ),
                self.species_state_ok(config, k as int),
            decreases self.genomes@.len() - k,
        {
            let id = self.genomes[k].0;
            proof {
                let ck = choose|ck: int| 0 <= ck < self.genomes@.len()
                    && (#[trigger] self.genomes@[ck]).0 == id;
                if ck != k as int {
                    assert(self.genomes@[ck].0 == self.genomes@[k as int].0);
                }
                assert(self.genome_of(id) == self.genomes@[k as int].1);
            }
            let mut placed = false;
            let mut s: usize = 0;
            while s < self.species.len() && !placed
                invariant
                    s <= self.species@.len(),
                    k < self.genomes@.len(),
                    self.wf(),
                    config.wf(),
                    self.genomes@ == genomes0,
                    self.previous_genomes@ == old(self).previous_genomes@,
                    self.fitnesses@ == old(self).fitnesses@,
                    self.next_id == old(self).next_id,
                    id == self.genomes@[k as int].0,
                    self.genome_of(id) == self.genomes@[k as int].1,
                    forall|k2: int| 0 <= k2 < self.genomes@.len()
                        ==> (#[trigger] self.genomes@[k2]).1.wf()
                            && crate::genome::aligned(
                                self.genomes@[k2].1.connection_genes@,
                                self.genomes@[k2].1.connection_genes@,
                            ),
                    !placed ==> self.species_state_ok(config, k as int),
                    placed ==> self.species_state_ok(config, k as int + 1),
                    !placed ==> forall|s2: int| 0 <= s2 < s
                        ==> !related_spec(
                            &self.genome_of(self.genomes@[k as int].0),
                            &self.genome_of((#[trigger] self.species@[s2])@[0]),
                            config,
                        ),
                decreases self.species@.len() - s + (if placed { 0int } else { 1int }),
            {
                let rep_id = self.species[s][0];
                let rep_idx = self.find_genome_index(rep_id);
                proof {
                    assert(self.has_genome(rep_id)) by {
                        assert(self.species@[s as int]@[0] == rep_id);
                        let k2 = choose|k2: int| 0 <= k2 < k
                            && (#[trigger] self.species@[s as int]@[0]) == self.genomes@[k2].0;
                        assert(self.genomes@[k2].0 == rep_id);
                    }
                }
                let ri = rep_idx.unwrap();
                let related = related_genomes(&self.genomes[k].1, &self.genomes[ri].1, config);
                proof {
                    let ci = choose|ci: int| 0 <= ci < self.genomes@.len()
                        && (#[trigger] self.genomes@[ci]).0 == rep_id;
                    if ci != ri as int {
                        assert(self.genomes@[ci].0 == self.genomes@[ri as int].0);
                    }
                    assert(self.genome_of(rep_id) == self.genomes@[ri as int].1);
                }
                if related {
                    self.join_species(s, k, config);
                    placed = true;
                    proof {
                        let ck = choose|ck: int| 0 <= ck < self.genomes@.len()
                            && (#[trigger] self.genomes@[ck]).0 == id;
                        if ck != k as int {
                            assert(self.genomes@[ck].0 == self.genomes@[k as int].0);
                        }
                        assert(self.genome_of(id) == self.genomes@[k as int].1);
                    }
                } else {
                    s += 1;
                }
            }
            if !placed {
                self.found_species(k, config);
            }
            k += 1;
        }
        proof {
            assert forall|s: int, m: int| 0 <= s < self.species@.len()
                && 0 <= m < self.species@[s]@.len()
                implies self.has_genome(#[trigger] self.species@[s]@[m]) by {
                let k2 = choose|k2: int| 0 <= k2 < k
                    && (#[trigger] self.species@[s]@[m]) == self.genomes@[k2].0;
            }
            assert forall|s1: int, s2: int| 0 <= s1 < s2 < self.species@.len()
                implies !related_spec(
                    &self.genome_of((#[trigger] self.species@[s2])@[0]),
                    &self.genome_of((#[trigger] self.species@[s1])@[0]),
                    config,
                ) by {
                assert(!related_spec(
                    &self.genome_of(self.species@[s2]@[0]),
                    &self.genome_of(self.species@[s1]@[0]),
                    config,
                ));
            }
        }
    }

    /// The size of the species this genome belongs to (the first species
    /// listing it).
    pub fn species_size_for(&self, genome_id: GenomeId) -> (r: usize)
        requires
            self.in_species(genome_id),
        ensures
            r == self.species@[GenomeBank::species_index_of(self.species@, genome_id)]@.len(),
    {
        let mut s: usize = 0;
        while s < self.species.len()
            invariant
                s <= self.species@.len(),
                self.in_species(genome_id),
                forall|s2: int| 0 <= s2 < s ==> !(#[trigger] self.species@[s2])@.contains(genome_id),
            decreases self.species@.len() - s,
        {
            let row_len = self.species[s].len();
            let mut m: usize = 0;
            let mut found = false;
            while m < row_len && !found
                invariant
                    m <= row_len,
                    s < self.species@.len(),
                    row_len == self.species@[s as int]@.len(),
                    found ==> m < row_len && self.species@[s as int]@[m as int] == genome_id,
                    !found ==> forall|m2: int| 0 <= m2 < m
                        ==> (#[trigger] self.species@[s as int]@[m2]) != genome_id,
                decreases row_len - m + (if found { 0int } else { 1int }),
            {
                if self.species[s][m] == genome_id {
                    found = true;
                } else {
                    m += 1;
                }
            }
            if found {
                proof {
                    assert(self.species@[s as int]@.contains(genome_id));
                    lemma_first_species(self.species@, genome_id);
                    let si = GenomeBank::species_index_of(self.species@, genome_id);
                    if si < s as int {
                        assert(!self.species@[si]@.contains(genome_id));
                    }
                    if si > s as int {
                        assert(!self.species@[s as int]@.contains(genome_id));
                    }
                }
                return row_len;
            }
            proof {
                assert(!self.species@[s as int]@.contains(genome_id)) by {
                    if self.species@[s as int]@.contains(genome_id) {
                        let m2 = choose|m2: int| 0 <= m2 < self.species@[s as int]@.len()
                            && self.species@[s as int]@[m2] == genome_id;
                        assert(self.species@[s as int]@[m2] != genome_id);
                    }
                }
            }
            s += 1;
        }
        proof {
            let (sx, mx) = choose|sx: int, mx: int| 0 <= sx < self.species@.len()
                && 0 <= mx < self.species@[sx]@.len()
                && (#[trigger] self.species@[sx]@[mx]) == genome_id;
            assert(self.species@[sx]@.contains(genome_id));
            assert(false);
        }
        0
    }

    /// The adjusted fitness of the genome at index `k`: its recorded raw
    /// fitness minus the structural costs, shared over its species size
    /// (division truncates toward zero).
    pub open spec fn spec_adjusted(&self, cfg: &Configuration, k: int) -> int {
        let id = self.genomes@[k].0;
        let g = self.genomes@[k].1;
        let num = self.fitness_of(id)
            - cfg.node_cost * g.node_genes@.len()
            - cfg.connection_cost * g.connection_genes@.len();
        div_trunc(num, self.species@[GenomeBank::species_index_of(self.species@, id)]@.len() as int)
    }

    /// Adjusted fitness of every genome, in storage order.
    pub fn adjusted_fitnesses(&self, config: &Configuration) -> (r: Vec<(GenomeId, i128)>)
        requires
            self.wf(),
            config.wf(),
            self.all_tested(),
            forall|k: int| 0 <= k < self.genomes@.len()
                ==> self.in_species((#[trigger] self.genomes@[k]).0),
        ensures
            r@.len() == self.genomes@.len(),
            forall|k: int| 0 <= k < r@.len()
                ==> (#[trigger] r@[k]).0 == self.genomes@[k].0
                    && r@[k].1 as int == self.spec_adjusted(config, k),
    {
        let mut r: Vec<(GenomeId, i128)> = Vec::new();
        let mut k: usize = 0;
        while k < self.genomes.len()
            invariant
                k <= self.genomes@.len(),
                self.wf(),
                config.wf(),
                self.all_tested(),
                forall|k2: int| 0 <= k2 < self.genomes@.len()
                    ==> self.in_species((#[trigger] self.genomes@[k2]).0),
                r@.len() == k,
                forall|k2: int| 0 <= k2 < r@.len()
                    ==> (#[trigger] r@[k2]).0 == self.genomes@[k2].0
                        && r@[k2].1 as int == self.spec_adjusted(config, k2),
            decreases self.genomes@.len() - k,
        {
            let id = self.genomes[k].0;
            proof {
                assert(self.tested(id));
            }
            let fi = self.find_fitness_index(id).unwrap();
            let f = self.fitnesses[fi].1;
            proof {
                let ci = choose|ci: int| 0 <= ci < self.fitnesses@.len()
                    && (#[trigger] self.fitnesses@[ci]).0 == id;
                if ci != fi as int {
                    assert(self.fitnesses@[ci].0 == self.fitnesses@[fi as int].0);
                }
                assert(f == self.fitness_of(id));
            }
            let n_nodes = self.genomes[k].1.node_genes.len();
            let n_conns = self.genomes[k].1.connection_genes.len();
            proof {
                assert(0 <= config.node_cost as int * n_nodes as int
                    <= 1_000_000 * 0xffff_ffff_ffff_ffff) by (nonlinear_arith)
                    requires
                        0 <= config.node_cost as int <= 1_000_000,
                        0 <= n_nodes as int <= 0xffff_ffff_ffff_ffff,
                {}
                assert(0 <= config.connection_cost as int * n_conns as int
                    <= 1_000_000 * 0xffff_ffff_ffff_ffff) by (nonlinear_arith)
                    requires
                        0 <= config.connection_cost as int <= 1_000_000,
                        0 <= n_conns as int <= 0xffff_ffff_ffff_ffff,
                {}
            }
            let num: i128 = (f as i128)
                - (config.node_cost as i128) * (n_nodes as i128)
                - (config.connection_cost as i128) * (n_conns as i128);
            let size = self.species_size_for(id);
            proof {
                assert(self.in_species(id));
                let (sx, mx) = choose|sx: int, mx: int| 0 <= sx < self.species@.len()
                    && 0 <= mx < self.species@[sx]@.len()
                    && (#[trigger] self.species@[sx]@[mx]) == id;
                assert(self.species@[sx]@.contains(id));
                lemma_first_species(self.species@, id);
                let si = GenomeBank::species_index_of(self.species@, id);
                assert(size >= 1) by {
                    assert(self.species@[si]@.contains(id));
                }
            }
            let value = div_trunc_exec(num, size as u128);
            r.push((id, value));
            k += 1;
        }
        r
    }
}

/// There is a first species containing `id`, and `species_index_of`
/// denotes it.
proof fn find_least_species(sp: Seq<Vec<GenomeId>>, id: GenomeId, s: int) -> (r: int)
    requires
        0 <= s < sp.len(),
        sp[s]@.contains(id),
    ensures
        0 <= r <= s,
        sp[r]@.contains(id),
        forall|s2: int| 0 <= s2 < r ==> !(#[trigger] sp[s2])@.contains(id),
    decreases s,
{
    if exists|s2: int| 0 <= s2 < s && (#[trigger] sp[s2])@.contains(id) {
        let s2 = choose|s2: int| 0 <= s2 < s && (#[trigger] sp[s2])@.contains(id);
        find_least_species(sp, id, s2)
    } else {
        s
    }
}

pub proof fn lemma_first_species(sp: Seq<Vec<GenomeId>>, id: GenomeId)
    requires
        exists|s: int| 0 <= s < sp.len() && (#[trigger] sp[s])@.contains(id),
    ensures
        0 <= GenomeBank::species_index_of(sp, id) < sp.len(),
        sp[GenomeBank::species_index_of(sp, id)]@.contains(id),
        forall|s2: int| 0 <= s2 < GenomeBank::species_index_of(sp, id)
            ==> !(#[trigger] sp[s2])@.contains(id),
{
    let s0 = choose|s: int| 0 <= s < sp.len() && (#[trigger] sp[s])@.contains(id);
    let r = find_least_species(sp, id, s0);
    let si = GenomeBank::species_index_of(sp, id);
    assert(0 <= si < sp.len() && sp[si]@.contains(id)
        && (forall|s2: int| 0 <= s2 < si ==> !(#[trigger] sp[s2])@.contains(id)));
}

/// A copy of the row with one more member at the end.
fn push_member(row: &Vec<GenomeId>, id: GenomeId) -> (r: Vec<GenomeId>)
    ensures
        r@ == row@.push(id),
{
    let mut r: Vec<GenomeId> = Vec::new();
    let mut m: usize = 0;
    while m < row.len()
        invariant
            m <= row@.len(),
            r@ == row@.subrange(0, m as int),
        decreases row@.len() - m,
    {
        r.push(row[m]);
        proof {
            assert(r@ =~= row@.subrange(0, m + 1));
        }
        m += 1;
    }
    r.push(id);
    proof {
        assert(row@.subrange(0, row@.len() as int) =~= row@);
    }
    r
}

/// Truncating signed division by a positive divisor.
fn div_trunc_exec(num: i128, den: u128) -> (r: i128)
    requires
        den >= 1,
        num > i128::MIN,
        den <= i128::MAX as u128,
    ensures
        r as int == div_trunc(num as int, den as int),
{
    if num >= 0 {
        ((num as u128) / den) as i128
    } else {
        let mag = (-num) as u128;
        -((mag / den) as i128)
    }
}

} // verus!