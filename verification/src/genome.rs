//! The genome: node genes plus connection genes whose enabled subgraph is
//! kept acyclic, with structural queries and edge operations.

use vstd::prelude::*;
use crate::genes::{ActivationKind, AggregationKind, ConnectionGene, NodeGene, NodeKind};
use crate::graph;
use crate::graph::{edge_ordered, has_cycle, reaches};
use crate::innovation::InnovationRegistry;

verus! {

/// Process-unique identity of a genome, assigned by the genome bank.
pub type GenomeId = u64;

/// Between the two gene lists, innovation numbers and `(from, to)` pairs
/// identify each other: the alignment crossover relies on. It holds of any
/// two genomes whose numbers came from one shared registry.
pub open spec fn aligned(ac: Seq<ConnectionGene>, bc: Seq<ConnectionGene>) -> bool {
    forall|ka: int, kb: int| 0 <= ka < ac.len() && 0 <= kb < bc.len()
        ==> (((#[trigger] ac[ka]).innovation == (#[trigger] bc[kb]).innovation)
            <==> (ac[ka].from == bc[kb].from && ac[ka].to == bc[kb].to))
}

/// Law: any two genomes consistent with one registry are aligned — across
/// all live genomes, a `(from, to)` pair has exactly one innovation number.
pub proof fn lemma_shared_registry_aligns(a: &Genome, b: &Genome, reg: &InnovationRegistry)
    requires
        reg.wf(),
        a.consistent_with(reg),
        b.consistent_with(reg),
    ensures
        aligned(a.connection_genes@, b.connection_genes@),
{
    let ac = a.connection_genes@;
    let bc = b.connection_genes@;
    assert forall|ka: int, kb: int| 0 <= ka < ac.len() && 0 <= kb < bc.len()
        implies (((#[trigger] ac[ka]).innovation == (#[trigger] bc[kb]).innovation)
            <==> (ac[ka].from == bc[kb].from && ac[ka].to == bc[kb].to)) by {
        let ia = ac[ka].innovation as int;
        let ib = bc[kb].innovation as int;
        assert(reg.pairs@[ia] == (ac[ka].from, ac[ka].to));
        assert(reg.pairs@[ib] == (bc[kb].from, bc[kb].to));
        if ac[ka].from == bc[kb].from && ac[ka].to == bc[kb].to && ia != ib {
            assert(reg.pairs@[ia] == reg.pairs@[ib]);
        }
    }
}

/// The exact shape `Genome::new(inputs, outputs)` produces: the seed
/// nodes, every input wired to every output, seed innovation numbering.
pub open spec fn minimal_genome(g: Genome, inputs: usize, outputs: usize) -> bool {
    &&& g.inputs == inputs
    &&& g.outputs == outputs
    &&& g.node_genes@.len() == inputs + outputs
    &&& g.connection_genes@.len() == inputs * outputs
    &&& g.layout_wf()
    &&& forall|k: int| 0 <= k < g.connection_genes@.len()
        ==> (#[trigger] g.connection_genes@[k]).from as int == k / (outputs as int)
            && g.connection_genes@[k].to as int == inputs + k % (outputs as int)
            && g.connection_genes@[k].innovation as int == k
            && !g.connection_genes@[k].disabled
}

/// Canonical ordering of connection genes: by `from`, then by `to`.
pub open spec fn pair_le(g1: ConnectionGene, g2: ConnectionGene) -> bool {
    g1.from < g2.from || (g1.from == g2.from && g1.to <= g2.to)
}

/// Some gene of `conns` carries this innovation number.
pub open spec fn has_innovation(conns: Seq<ConnectionGene>, innovation: u64) -> bool {
    exists|j: int| 0 <= j < conns.len() && (#[trigger] conns[j]).innovation == innovation
}

/// Innovation numbers repeat nowhere in a self-aligned gene list with
/// unique `(from, to)` pairs.
pub proof fn lemma_innovations_unique(g: &Genome)
    requires
        g.pairs_unique(),
        aligned(g.connection_genes@, g.connection_genes@),
    ensures
        forall|j1: int, j2: int| 0 <= j1 < j2 < g.connection_genes@.len()
            ==> (#[trigger] g.connection_genes@[j1]).innovation
                != (#[trigger] g.connection_genes@[j2]).innovation,
{
    let gc = g.connection_genes@;
    assert forall|j1: int, j2: int| 0 <= j1 < j2 < gc.len()
        implies (#[trigger] gc[j1]).innovation != (#[trigger] gc[j2]).innovation by {
        if gc[j1].innovation == gc[j2].innovation {
            assert(gc[j1].from == gc[j2].from && gc[j1].to == gc[j2].to);
        }
    }
}

/// The first gene carrying the given innovation number, if any.
pub(crate) fn find_by_innovation(conns: &Vec<ConnectionGene>, innovation: u64) -> (r: Option<usize>)
    ensures
        r is Some ==> (r->Some_0) < conns@.len()
            && conns@[(r->Some_0) as int].innovation == innovation,
        r is Some ==> forall|j: int| 0 <= j < (r->Some_0)
            ==> (#[trigger] conns@[j]).innovation != innovation,
        r is None ==> forall|j: int| 0 <= j < conns@.len()
            ==> (#[trigger] conns@[j]).innovation != innovation,
{
    let mut j: usize = 0;
    while j < conns.len()
        invariant
            j <= conns@.len(),
            forall|m: int| 0 <= m < j ==> (#[trigger] conns@[m]).innovation != innovation,
        decreases conns@.len() - j,
    {
        if conns[j].innovation == innovation {
            return Some(j);
        }
        j += 1;
    }
    None
}

/// Selection sort into the canonical `(from, to)` order; the genes are
/// exactly those given, as a multiset.
fn sort_canonical(v: Vec<ConnectionGene>) -> (r: Vec<ConnectionGene>)
    ensures
        r@.to_multiset() == v@.to_multiset(),
        r@.len() == v@.len(),
        forall|m1: int, m2: int| 0 <= m1 < m2 < r@.len() ==> pair_le(r@[m1], r@[m2]),
{
    broadcast use vstd::seq_lib::group_to_multiset_ensures;
    broadcast use vstd::multiset::group_multiset_axioms;

    let mut rest = v;
    let mut r: Vec<ConnectionGene> = Vec::new();
    let ghost orig = rest@;
    while rest.len() > 0
        invariant
            r@.to_multiset().add(rest@.to_multiset()) =~= orig.to_multiset(),
            r@.len() + rest@.len() == orig.len(),
            forall|m1: int, m2: int| 0 <= m1 < m2 < r@.len() ==> pair_le(r@[m1], r@[m2]),
            forall|m1: int, m2: int| 0 <= m1 < r@.len() && 0 <= m2 < rest@.len()
                ==> pair_le(#[trigger] r@[m1], #[trigger] rest@[m2]),
        decreases rest@.len(),
    {
        // Find the minimal remaining gene.
        let mut best: usize = 0;
        let mut m: usize = 1;
        while m < rest.len()
            invariant
                best < m <= rest@.len(),
                rest@.len() > 0,
                forall|m2: int| 0 <= m2 < m ==> pair_le(rest@[best as int], #[trigger] rest@[m2]),
            decreases rest@.len() - m,
        {
            let cand = rest[m];
            let cur = rest[best];
            if cand.from < cur.from || (cand.from == cur.from && cand.to < cur.to) {
                best = m;
            }
            m += 1;
        }
        let ghost rest0 = rest@;
        let ghost r0 = r@;
        let x = rest.remove(best);
        r.push(x);
        proof {
            vstd::seq_lib::to_multiset_remove(rest0, best as int);
            vstd::seq_lib::to_multiset_build(r0, x);
            assert(rest@.to_multiset() =~= rest0.to_multiset().remove(x));
            assert(r@.to_multiset() =~= r0.to_multiset().insert(x));
            assert(rest0.contains(x)) by {
                assert(rest0[best as int] == x);
            }
            vstd::seq_lib::to_multiset_contains(rest0, x);
            assert(rest0.to_multiset().count(x) > 0);
            assert(r@.to_multiset().add(rest@.to_multiset()) =~= orig.to_multiset());
            assert forall|m1: int, m2: int| 0 <= m1 < r@.len() && 0 <= m2 < rest@.len()
                implies pair_le(#[trigger] r@[m1], #[trigger] rest@[m2]) by {
                assert(rest@[m2] == if m2 < best { rest0[m2] } else { rest0[m2 + 1] });
                if m1 < r@.len() - 1 {
                    assert(r@[m1] == r0[m1]);
                } else {
                    assert(r@[m1] == x);
                }
            }
        }
    }
    r
}

/// The set of `(from, to)` pairs of the enabled connections.
pub open spec fn enabled_edges(conns: Seq<ConnectionGene>) -> Set<(usize, usize)> {
    Set::new(|p: (usize, usize)| exists|k: int| 0 <= k < conns.len()
        && !(#[trigger] conns[k]).disabled && conns[k].from == p.0 && conns[k].to == p.1)
}

/// The set of `(from, to)` pairs of all the given genes, enabled or not.
pub open spec fn all_edges(conns: Seq<ConnectionGene>) -> Set<(usize, usize)> {
    Set::new(|p: (usize, usize)| exists|k: int| 0 <= k < conns.len()
        && (#[trigger] conns[k]).from == p.0 && conns[k].to == p.1)
}

#[derive(Clone, Debug)]
pub struct Genome {
    pub inputs: usize,
    pub outputs: usize,
    pub node_genes: Vec<NodeGene>,
    pub connection_genes: Vec<ConnectionGene>,
}

impl Genome {
    /// The enabled edges of this genome.
    pub open spec fn edges(&self) -> Set<(usize, usize)> {
        enabled_edges(self.connection_genes@)
    }

    /// The enabled edges together with the pairs of some extra genes
    /// (extras count whether or not they are marked disabled).
    pub open spec fn edges_with(&self, extra: Seq<ConnectionGene>) -> Set<(usize, usize)> {
        self.edges().union(all_edges(extra))
    }

    /// Every connection joins valid node indices, never leaves an output,
    /// and never enters an input.
    pub open spec fn conns_valid(&self) -> bool {
        forall|k: int| 0 <= k < self.connection_genes@.len()
            ==> (#[trigger] self.connection_genes@[k]).from < self.node_genes@.len()
                && self.connection_genes@[k].to < self.node_genes@.len()
                && self.node_genes@[self.connection_genes@[k].from as int].kind != NodeKind::Output
                && self.node_genes@[self.connection_genes@[k].to as int].kind != NodeKind::Input
    }

    /// No two connection genes share a `(from, to)` pair.
    pub open spec fn pairs_unique(&self) -> bool {
        forall|k1: int, k2: int|
            0 <= k1 < k2 < self.connection_genes@.len()
            ==> !((#[trigger] self.connection_genes@[k1]).from
                    == (#[trigger] self.connection_genes@[k2]).from
                && self.connection_genes@[k1].to == self.connection_genes@[k2].to)
    }

    /// The enabled subgraph is a directed acyclic graph.
    pub open spec fn acyclic(&self) -> bool {
        !has_cycle(self.edges())
    }

    /// All weights and biases stay within the fixed-point limit.
    pub open spec fn values_bounded(&self) -> bool {
        &&& forall|k: int| 0 <= k < self.connection_genes@.len()
            ==> -crate::WEIGHT_LIMIT <= (#[trigger] self.connection_genes@[k]).weight <= crate::WEIGHT_LIMIT
        &&& forall|p: int| 0 <= p < self.node_genes@.len()
            ==> -crate::WEIGHT_LIMIT <= (#[trigger] self.node_genes@[p]).bias <= crate::WEIGHT_LIMIT
    }

    /// The structural invariant of every reachable genome.
    pub open spec fn wf(&self) -> bool {
        &&& self.conns_valid()
        &&& self.pairs_unique()
        &&& self.acyclic()
        &&& self.values_bounded()
    }

    /// Node kinds read off the position: the first `inputs` nodes are the
    /// inputs, the next `outputs` nodes the outputs, the rest hidden.
    pub open spec fn layout_wf(&self) -> bool {
        &&& self.node_genes@.len() >= self.inputs + self.outputs
        &&& forall|p: int| 0 <= p < self.node_genes@.len()
            ==> (#[trigger] self.node_genes@[p]).kind == (if p < self.inputs {
                    NodeKind::Input
                } else if p < self.inputs + self.outputs {
                    NodeKind::Output
                } else {
                    NodeKind::Hidden
                })
    }

    /// Every connection's innovation number is the registry's number for
    /// its `(from, to)` pair.
    pub open spec fn consistent_with(&self, reg: &InnovationRegistry) -> bool {
        forall|k: int| 0 <= k < self.connection_genes@.len()
            ==> (#[trigger] self.connection_genes@[k]).innovation < reg.pairs@.len()
                && reg.pairs@[self.connection_genes@[k].innovation as int]
                    == (self.connection_genes@[k].from, self.connection_genes@[k].to)
    }

    /// A genome with the given port counts and no genes at all.
    pub fn empty(inputs: usize, outputs: usize) -> (r: Genome)
        ensures
            r.inputs == inputs,
            r.outputs == outputs,
            r.node_genes@.len() == 0,
            r.connection_genes@.len() == 0,
            r.wf(),
    {
        let r = Genome { inputs, outputs, node_genes: Vec::new(), connection_genes: Vec::new() };
        proof {
            assert(!has_cycle(r.edges())) by {
                if has_cycle(r.edges()) {
                    let c = choose|c: Seq<usize>| graph::is_cycle(c, r.edges());
                    assert(r.edges().contains((c[c.len() - 1], c[0])));
                }
            }
        }
        r
    }

    /// A minimal genome: `inputs` input nodes, then `outputs` output nodes,
    /// every input connected to every output. The connection for input `i`
    /// and output slot `j` carries innovation number `i * outputs + j`,
    /// matching `InnovationRegistry::seeded`. Weights and output biases are
    /// drawn fresh from within one unit of zero.
    pub fn new(inputs: usize, outputs: usize) -> (r: Genome)
        requires
            inputs + outputs <= usize::MAX,
            inputs * outputs <= usize::MAX,
        ensures
            r.inputs == inputs,
            r.outputs == outputs,
            r.node_genes@.len() == inputs + outputs,
            r.connection_genes@.len() == inputs * outputs,
            r.wf(),
            r.layout_wf(),
            forall|k: int| 0 <= k < r.connection_genes@.len()
                ==> (#[trigger] r.connection_genes@[k]).from as int == k / (outputs as int)
                    && r.connection_genes@[k].to as int == inputs + k % (outputs as int)
                    && r.connection_genes@[k].innovation as int == k
                    && !r.connection_genes@[k].disabled,
            minimal_genome(r, inputs, outputs),
    {
        let mut node_genes: Vec<NodeGene> = Vec::new();
        let mut p: usize = 0;
        while p < inputs
            invariant
                p <= inputs,
                node_genes@.len() == p,
                forall|q: int| 0 <= q < p
                    ==> (#[trigger] node_genes@[q]).kind == NodeKind::Input
                        && node_genes@[q].bias == 0,
            decreases inputs - p,
        {
            node_genes.push(NodeGene::new(NodeKind::Input));
            p += 1;
        }
        let mut p: usize = 0;
        while p < outputs
            invariant
                p <= outputs,
                inputs + outputs <= usize::MAX,
                node_genes@.len() == inputs + p,
                forall|q: int| 0 <= q < inputs
                    ==> (#[trigger] node_genes@[q]).kind == NodeKind::Input
                        && node_genes@[q].bias == 0,
                forall|q: int| inputs <= q < inputs + p
                    ==> (#[trigger] node_genes@[q]).kind == NodeKind::Output
                        && -crate::WEIGHT_LIMIT <= node_genes@[q].bias <= crate::WEIGHT_LIMIT,
            decreases outputs - p,
        {
            let bias = crate::rng::random_weight();
            node_genes.push(NodeGene {
                kind: NodeKind::Output,
                bias,
                activation: ActivationKind::Sigmoid,
                aggregation: AggregationKind::Sum,
            });
            p += 1;
        }

        let mut connection_genes: Vec<ConnectionGene> = Vec::new();
        let mut i: usize = 0;
        while i < inputs
            invariant
                i <= inputs,
                inputs + outputs <= usize::MAX,
                inputs * outputs <= usize::MAX,
                connection_genes@.len() == i * outputs,
                forall|k: int| 0 <= k < connection_genes@.len()
                    ==> (#[trigger] connection_genes@[k]).from as int == k / (outputs as int)
                        && connection_genes@[k].to as int == inputs + k % (outputs as int)
                        && connection_genes@[k].innovation as int == k
                        && !connection_genes@[k].disabled
                        && connection_genes@[k].from < inputs
                        && -crate::WEIGHT_LIMIT <= connection_genes@[k].weight <= crate::WEIGHT_LIMIT,
            decreases inputs - i,
        {
            let mut j: usize = 0;
            proof {
                assert(i * outputs + outputs <= inputs * outputs) by (nonlinear_arith)
                    requires i < inputs, 0 <= outputs,
                {}
            }
            while j < outputs
                invariant
                    j <= outputs,
                    i < inputs,
                    inputs + outputs <= usize::MAX,
                    inputs * outputs <= usize::MAX,
                    i * outputs + outputs <= inputs * outputs,
                    connection_genes@.len() == i * outputs + j,
                    forall|k: int| 0 <= k < connection_genes@.len()
                        ==> (#[trigger] connection_genes@[k]).from as int == k / (outputs as int)
                            && connection_genes@[k].to as int == inputs + k % (outputs as int)
                            && connection_genes@[k].innovation as int == k
                            && !connection_genes@[k].disabled
                            && connection_genes@[k].from < inputs
                            && -crate::WEIGHT_LIMIT <= connection_genes@[k].weight <= crate::WEIGHT_LIMIT,
                decreases outputs - j,
            {
                proof {
                    assert((i * outputs + j) / (outputs as int) == i as int
                        && (i * outputs + j) % (outputs as int) == j as int) by (nonlinear_arith)
                        requires 0 <= j < outputs, 0 <= i,
                    {}
                }
                let weight = crate::rng::random_weight();
                connection_genes.push(ConnectionGene {
                    from: i,
                    to: inputs + j,
                    weight,
                    disabled: false,
                    innovation: (i * outputs + j) as u64,
                });
                j += 1;
            }
            proof {
                assert((i + 1) * outputs == i * outputs + outputs) by (nonlinear_arith) {}
            }
            i += 1;
        }

        let r = Genome { inputs, outputs, node_genes, connection_genes };
        proof {
            // Uniqueness of (from, to): the index decomposes uniquely.
            assert forall|k1: int, k2: int|
                0 <= k1 < k2 < r.connection_genes@.len()
                implies !((#[trigger] r.connection_genes@[k1]).from
                        == (#[trigger] r.connection_genes@[k2]).from
                    && r.connection_genes@[k1].to == r.connection_genes@[k2].to) by {
                assert(outputs as int * (k1 / (outputs as int)) + k1 % (outputs as int) == k1) by (nonlinear_arith)
                    requires outputs > 0,
                {}
                assert(outputs as int * (k2 / (outputs as int)) + k2 % (outputs as int) == k2) by (nonlinear_arith)
                    requires outputs > 0,
                {}
            }
            // Every edge leaves an input and enters an output slot.
            assert forall|k: int| 0 <= k < r.connection_genes@.len()
                implies (#[trigger] r.connection_genes@[k]).from < r.node_genes@.len()
                    && r.connection_genes@[k].to < r.node_genes@.len()
                    && r.node_genes@[r.connection_genes@[k].from as int].kind != NodeKind::Output
                    && r.node_genes@[r.connection_genes@[k].to as int].kind != NodeKind::Input by {
                assert(0 <= k % (outputs as int) < outputs as int) by (nonlinear_arith)
                    requires outputs > 0,
                {}
            }
            // Acyclic: every edge goes from below `inputs` to at least `inputs`.
            assert(!has_cycle(r.edges())) by {
                if has_cycle(r.edges()) {
                    let c = choose|c: Seq<usize>| graph::is_cycle(c, r.edges());
                    assert(r.edges().contains((c[c.len() - 1], c[0])));
                    let k = choose|k: int| 0 <= k < r.connection_genes@.len()
                        && !(#[trigger] r.connection_genes@[k]).disabled
                        && r.connection_genes@[k].from == c[c.len() - 1]
                        && r.connection_genes@[k].to == c[0];
                    assert(0 <= k % (outputs as int)) by (nonlinear_arith) requires outputs > 0, {}
                    assert(c[0] as int >= inputs);
                    if c.len() == 1 {
                        assert(c[0] < inputs);
                    } else {
                        assert(r.edges().contains((c[0], c[0int + 1])));
                        let k2 = choose|k2: int| 0 <= k2 < r.connection_genes@.len()
                            && !(#[trigger] r.connection_genes@[k2]).disabled
                            && r.connection_genes@[k2].from == c[0]
                            && r.connection_genes@[k2].to == c[0int + 1];
                        assert(c[0] < inputs);
                    }
                }
            }
        }
        r
    }

    pub fn input_count(&self) -> (r: usize)
        ensures
            r == self.inputs,
    {
        self.inputs
    }

    pub fn output_count(&self) -> (r: usize)
        ensures
            r == self.outputs,
    {
        self.outputs
    }

    pub fn nodes(&self) -> (r: &Vec<NodeGene>)
        ensures
            r@ == self.node_genes@,
    {
        &self.node_genes
    }

    pub fn connections(&self) -> (r: &Vec<ConnectionGene>)
        ensures
            r@ == self.connection_genes@,
    {
        &self.connection_genes
    }

    /// An exact copy, gene for gene.
    pub fn duplicate(&self) -> (r: Genome)
        ensures
            r.inputs == self.inputs,
            r.outputs == self.outputs,
            r.node_genes@ == self.node_genes@,
            r.connection_genes@ == self.connection_genes@,
    {
        let mut node_genes: Vec<NodeGene> = Vec::new();
        let mut p: usize = 0;
        while p < self.node_genes.len()
            invariant
                p <= self.node_genes@.len(),
                node_genes@ == self.node_genes@.subrange(0, p as int),
            decreases self.node_genes@.len() - p,
        {
            node_genes.push(self.node_genes[p]);
            proof {
                assert(node_genes@ =~= self.node_genes@.subrange(0, p + 1));
            }
            p += 1;
        }
        let mut connection_genes: Vec<ConnectionGene> = Vec::new();
        let mut k: usize = 0;
        while k < self.connection_genes.len()
            invariant
                k <= self.connection_genes@.len(),
                connection_genes@ == self.connection_genes@.subrange(0, k as int),
            decreases self.connection_genes@.len() - k,
        {
            connection_genes.push(self.connection_genes[k]);
            proof {
                assert(connection_genes@ =~= self.connection_genes@.subrange(0, k + 1));
            }
            k += 1;
        }
        proof {
            assert(node_genes@ =~= self.node_genes@);
            assert(connection_genes@ =~= self.connection_genes@);
        }
        Genome { inputs: self.inputs, outputs: self.outputs, node_genes, connection_genes }
    }

    /// Appends a node of the given kind (used to build genomes by hand);
    /// existing connections are untouched.
    pub fn push_node(&mut self, kind: NodeKind) -> (r: usize)
        requires
            old(self).wf(),
        ensures
            final(self).wf(),
            r == old(self).node_genes@.len(),
            final(self).node_genes@ == old(self).node_genes@.push(
                NodeGene {
                    kind,
                    bias: 0,
                    activation: ActivationKind::Sigmoid,
                    aggregation: AggregationKind::Sum,
                },
            ),
            final(self).connection_genes@ == old(self).connection_genes@,
            final(self).inputs == old(self).inputs,
            final(self).outputs == old(self).outputs,
    {
        let index = self.node_genes.len();
        self.node_genes.push(NodeGene::new(kind));
        index
    }

    /// Add a new hidden node to the genome.
    pub fn add_node(&mut self) -> (r: usize)
        requires
            old(self).wf(),
        ensures
            final(self).wf(),
            r == old(self).node_genes@.len(),
            final(self).node_genes@ == old(self).node_genes@.push(
                NodeGene {
                    kind: NodeKind::Hidden,
                    bias: 0,
                    activation: ActivationKind::Sigmoid,
                    aggregation: AggregationKind::Sum,
                },
            ),
            final(self).connection_genes@ == old(self).connection_genes@,
            final(self).inputs == old(self).inputs,
            final(self).outputs == old(self).outputs,
    {
        self.push_node(NodeKind::Hidden)
    }

    /// The `(from, to)` pairs of the enabled connections, as a vector.
    fn enabled_pairs(&self) -> (p: Vec<(usize, usize)>)
        ensures
            p@.to_set() == self.edges(),
    {
        let mut p: Vec<(usize, usize)> = Vec::new();
        let mut k: usize = 0;
        while k < self.connection_genes.len()
            invariant
                k <= self.connection_genes@.len(),
                forall|m: int| 0 <= m < p@.len() ==> self.edges().contains(#[trigger] p@[m]),
                forall|k2: int| 0 <= k2 < k && !(#[trigger] self.connection_genes@[k2]).disabled
                    ==> p@.contains((self.connection_genes@[k2].from, self.connection_genes@[k2].to)),
            decreases self.connection_genes@.len() - k,
        {
            let c = self.connection_genes[k];
            if !c.disabled {
                let ghost p0 = p@;
                p.push((c.from, c.to));
                proof {
                    assert(self.edges().contains((c.from, c.to))) by {
                        assert(!(self.connection_genes@[k as int]).disabled
                            && self.connection_genes@[k as int].from == c.from
                            && self.connection_genes@[k as int].to == c.to);
                    }
                    assert forall|m: int| 0 <= m < p@.len()
                        implies self.edges().contains(#[trigger] p@[m]) by {
                        if m < p0.len() {
                            assert(p@[m] == p0[m]);
                        } else {
                            assert(p@[m] == (c.from, c.to));
                        }
                    }
                    assert forall|k2: int| 0 <= k2 < k + 1
                        && !(#[trigger] self.connection_genes@[k2]).disabled
                        implies p@.contains((self.connection_genes@[k2].from, self.connection_genes@[k2].to)) by {
                        if k2 < k {
                            let m = choose|m: int| 0 <= m < p0.len()
                                && p0[m] == (self.connection_genes@[k2].from, self.connection_genes@[k2].to);
                            assert(p@[m] == p0[m]);
                        } else {
                            assert(p@[p@.len() - 1] == (c.from, c.to));
                        }
                    }
                }
            }
            k += 1;
        }
        proof {
            assert(p@.to_set() =~= self.edges()) by {
                assert forall|pair: (usize, usize)| p@.to_set().contains(pair)
                    implies self.edges().contains(pair) by {
                    assert(p@.contains(pair));
                    let m = choose|m: int| 0 <= m < p@.len() && p@[m] == pair;
                    assert(self.edges().contains(p@[m]));
                }
                assert forall|pair: (usize, usize)| self.edges().contains(pair)
                    implies p@.to_set().contains(pair) by {
                    let k2 = choose|k2: int| 0 <= k2 < self.connection_genes@.len()
                        && !(#[trigger] self.connection_genes@[k2]).disabled
                        && self.connection_genes@[k2].from == pair.0
                        && self.connection_genes@[k2].to == pair.1;
                    assert(p@.contains((self.connection_genes@[k2].from, self.connection_genes@[k2].to)));
                }
            }
        }
        p
    }

    /// Computes a node order over the enabled connections plus the given
    /// extras (their `disabled` flags are ignored, as they are candidate
    /// edges), or reports a cycle by returning nothing.
    pub fn get_node_order(&self, additional: &Vec<ConnectionGene>) -> (r: Option<Vec<usize>>)
        requires
            self.conns_valid(),
            forall|k: int| 0 <= k < additional@.len()
                ==> (#[trigger] additional@[k]).from < self.node_genes@.len()
                    && additional@[k].to < self.node_genes@.len()
                    && self.node_genes@[additional@[k].to as int].kind != NodeKind::Input,
        ensures
            (r is None) <==> has_cycle(self.edges_with(additional@)),
            r is Some ==> (r->Some_0)@.len() == self.node_genes@.len(),
            r is Some ==> (r->Some_0)@.no_duplicates(),
            r is Some ==> forall|x: usize| x < self.node_genes@.len() ==> (r->Some_0)@.contains(x),
            r is Some ==> forall|i: int| 0 <= i < (r->Some_0)@.len()
                ==> (#[trigger] (r->Some_0)@[i]) < self.node_genes@.len(),
            r is Some ==> forall|a: usize, b: usize|
                #[trigger] self.edges_with(additional@).contains((a, b))
                ==> edge_ordered((r->Some_0)@, a, b),
            r is Some ==> forall|i: int, j: int|
                #![trigger (r->Some_0)@[i], (r->Some_0)@[j]]
                0 <= i < j < (r->Some_0)@.len()
                    && self.node_genes@[(r->Some_0)@[j] as int].kind == NodeKind::Input
                    ==> self.node_genes@[(r->Some_0)@[i] as int].kind == NodeKind::Input,
    {
        let n = self.node_genes.len();
        let mut pairs = self.enabled_pairs();
        let ghost base = pairs@;
        let mut k: usize = 0;
        while k < additional.len()
            invariant
                k <= additional@.len(),
                pairs@ == base + additional@.subrange(0, k as int).map_values(
                    |c: ConnectionGene| (c.from, c.to),
                ),
            decreases additional@.len() - k,
        {
            let c = additional[k];
            pairs.push((c.from, c.to));
            proof {
                assert(pairs@ =~= base + additional@.subrange(0, k + 1).map_values(
                    |c: ConnectionGene| (c.from, c.to),
                ));
            }
            k += 1;
        }
        proof {
            assert(additional@.subrange(0, additional@.len() as int) =~= additional@);
        }

        let mut source: Vec<bool> = Vec::new();
        let mut p: usize = 0;
        while p < n
            invariant
                p <= n,
                n == self.node_genes@.len(),
                source@.len() == p,
                forall|q: int| 0 <= q < p
                    ==> source@[q] == (self.node_genes@[q].kind == NodeKind::Input),
            decreases n - p,
        {
            source.push(matches!(self.node_genes[p].kind, NodeKind::Input));
            p += 1;
        }

        proof {
            let extra_pairs = additional@.map_values(|c: ConnectionGene| (c.from, c.to));
            assert(pairs@ == base + extra_pairs);
            assert(pairs@.to_set() =~= self.edges_with(additional@)) by {
                assert forall|pair: (usize, usize)| pairs@.to_set().contains(pair)
                    implies self.edges_with(additional@).contains(pair) by {
                    let m = choose|m: int| 0 <= m < pairs@.len() && pairs@[m] == pair;
                    if m < base.len() {
                        assert(base[m] == pair);
                        assert(base.contains(pair));
                        assert(base.to_set().contains(pair));
                    } else {
                        assert(extra_pairs[m - base.len()] == pair);
                        assert(additional@[m - base.len()].from == pair.0
                            && additional@[m - base.len()].to == pair.1);
                        assert(all_edges(additional@).contains(pair));
                    }
                }
                assert forall|pair: (usize, usize)| self.edges_with(additional@).contains(pair)
                    implies pairs@.to_set().contains(pair) by {
                    if self.edges().contains(pair) {
                        assert(base.to_set().contains(pair));
                        let m = choose|m: int| 0 <= m < base.len() && base[m] == pair;
                        assert(pairs@[m] == pair);
                    } else {
                        assert(all_edges(additional@).contains(pair));
                        let k2 = choose|k2: int| 0 <= k2 < additional@.len()
                            && (#[trigger] additional@[k2]).from == pair.0
                            && additional@[k2].to == pair.1;
                        assert(extra_pairs[k2] == pair);
                        assert(pairs@[base.len() + k2] == pair);
                    }
                }
            }
            assert forall|m: int| 0 <= m < pairs@.len()
                implies (#[trigger] pairs@[m]).0 < n && pairs@[m].1 < n
                    && !source@[pairs@[m].1 as int] by {
                if m < base.len() {
                    assert(base.contains(base[m]));
                    assert(self.edges().contains(base[m]));
                    let k2 = choose|k2: int| 0 <= k2 < self.connection_genes@.len()
                        && !(#[trigger] self.connection_genes@[k2]).disabled
                        && self.connection_genes@[k2].from == (base[m]).0
                        && self.connection_genes@[k2].to == base[m].1;
                } else {
                    let extra_pairs = additional@.map_values(|c: ConnectionGene| (c.from, c.to));
                    assert(pairs@[m] == extra_pairs[m - base.len()]);
                }
            }
        }
        let r = graph::topo_sort(n, &source, &pairs);
        proof {
            if r is Some {
                let v = (r->Some_0)@;
                assert forall|i: int, j: int|
                    #![trigger v[i], v[j]]
                    0 <= i < j < v.len()
                    && self.node_genes@[v[j] as int].kind == NodeKind::Input
                    implies self.node_genes@[v[i] as int].kind == NodeKind::Input by {
                    assert(source@[v[j] as int]);
                    assert(source@[v[i] as int]);
                }
            }
        }
        r
    }

    /// A topological order of the nodes along the enabled connections, or
    /// nothing if (with the extras, if given) they hold a cycle.
    pub fn node_order(&self) -> (r: Option<Vec<usize>>)
        requires
            self.conns_valid(),
        ensures
            (r is None) <==> has_cycle(self.edges()),
            r is Some ==> (r->Some_0)@.len() == self.node_genes@.len(),
            r is Some ==> (r->Some_0)@.no_duplicates(),
            r is Some ==> forall|x: usize| x < self.node_genes@.len() ==> (r->Some_0)@.contains(x),
            r is Some ==> forall|i: int| 0 <= i < (r->Some_0)@.len()
                ==> (#[trigger] (r->Some_0)@[i]) < self.node_genes@.len(),
            r is Some ==> forall|a: usize, b: usize| #[trigger] self.edges().contains((a, b))
                ==> edge_ordered((r->Some_0)@, a, b),
            r is Some ==> forall|i: int, j: int|
                #![trigger (r->Some_0)@[i], (r->Some_0)@[j]]
                0 <= i < j < (r->Some_0)@.len()
                    && self.node_genes@[(r->Some_0)@[j] as int].kind == NodeKind::Input
                    ==> self.node_genes@[(r->Some_0)@[i] as int].kind == NodeKind::Input,
    {
        let additional: Vec<ConnectionGene> = Vec::new();
        proof {
            assert(self.edges_with(additional@) =~= self.edges()) by {
                assert forall|pair: (usize, usize)| all_edges(additional@).contains(pair)
                    implies false by {
                    let k = choose|k: int| 0 <= k < additional@.len()
                        && (#[trigger] additional@[k]).from == pair.0
                        && additional@[k].to == pair.1;
                }
            }
        }
        self.get_node_order(&additional)
    }

    /// Like `node_order`, treating the given candidate connections as
    /// additional edges.
    pub fn node_order_with(&self, additional_connections: Vec<ConnectionGene>) -> (r: Option<Vec<usize>>)
        requires
            self.conns_valid(),
            forall|k: int| 0 <= k < additional_connections@.len()
                ==> (#[trigger] additional_connections@[k]).from < self.node_genes@.len()
                    && additional_connections@[k].to < self.node_genes@.len()
                    && self.node_genes@[additional_connections@[k].to as int].kind != NodeKind::Input,
        ensures
            (r is None) <==> has_cycle(self.edges_with(additional_connections@)),
            r is Some ==> (r->Some_0)@.len() == self.node_genes@.len(),
            r is Some ==> (r->Some_0)@.no_duplicates(),
            r is Some ==> forall|x: usize| x < self.node_genes@.len() ==> (r->Some_0)@.contains(x),
            r is Some ==> forall|i: int| 0 <= i < (r->Some_0)@.len()
                ==> (#[trigger] (r->Some_0)@[i]) < self.node_genes@.len(),
            r is Some ==> forall|a: usize, b: usize|
                #[trigger] self.edges_with(additional_connections@).contains((a, b))
                ==> edge_ordered((r->Some_0)@, a, b),
            r is Some ==> forall|i: int, j: int|
                #![trigger (r->Some_0)@[i], (r->Some_0)@[j]]
                0 <= i < j < (r->Some_0)@.len()
                    && self.node_genes@[(r->Some_0)@[j] as int].kind == NodeKind::Input
                    ==> self.node_genes@[(r->Some_0)@[i] as int].kind == NodeKind::Input,
    {
        self.get_node_order(&additional_connections)
    }

    /// Is there an enabled connection directly from `source` to `target`?
    pub fn is_projecting_directly(&self, source: usize, target: usize) -> (r: bool)
        ensures
            r == self.edges().contains((source, target)),
    {
        let mut k: usize = 0;
        while k < self.connection_genes.len()
            invariant
                k <= self.connection_genes@.len(),
                forall|m: int| 0 <= m < k ==> !(!(#[trigger] self.connection_genes@[m]).disabled
                    && self.connection_genes@[m].from == source
                    && self.connection_genes@[m].to == target),
            decreases self.connection_genes@.len() - k,
        {
            let c = self.connection_genes[k];
            if !c.disabled && c.from == source && c.to == target {
                return true;
            }
            k += 1;
        }
        false
    }

    /// Is there an enabled connection directly from `source` to `target`?
    /// (Arguments in target-first order.)
    pub fn is_projected_directly(&self, target: usize, source: usize) -> (r: bool)
        ensures
            r == self.edges().contains((source, target)),
    {
        self.is_projecting_directly(source, target)
    }

    /// Does `source` project to `target` along one or more enabled
    /// connections?
    pub fn is_projecting(&self, source: usize, target: usize) -> (r: bool)
        requires
            self.conns_valid(),
            source < self.node_genes@.len(),
            target < self.node_genes@.len(),
        ensures
            r == reaches(self.edges(), source, target),
    {
        let n = self.node_genes.len();
        let pairs = self.enabled_pairs();
        proof {
            assert forall|m: int| 0 <= m < pairs@.len()
                implies (#[trigger] pairs@[m]).0 < n && pairs@[m].1 < n by {
                assert(pairs@.contains(pairs@[m]));
                assert(self.edges().contains(pairs@[m]));
                let k2 = choose|k2: int| 0 <= k2 < self.connection_genes@.len()
                    && !(#[trigger] self.connection_genes@[k2]).disabled
                    && self.connection_genes@[k2].from == (pairs@[m]).0
                    && self.connection_genes@[k2].to == pairs@[m].1;
            }
        }
        let mask = graph::reachable_mask(n, source, &pairs);
        let ghost es = self.edges();
        let mut k: usize = 0;
        while k < self.connection_genes.len()
            invariant
                k <= self.connection_genes@.len(),
                n == self.node_genes@.len(),
                mask@.len() == n,
                self.conns_valid(),
                source < n,
                es == self.edges(),
                forall|v: usize| v < n ==> (mask@[v as int] <==> graph::reach0(es, source, v)),
                forall|m: int| 0 <= m < k ==> !(!(#[trigger] self.connection_genes@[m]).disabled
                    && graph::reach0(es, source, self.connection_genes@[m].from)
                    && self.connection_genes@[m].to == target),
            decreases self.connection_genes@.len() - k,
        {
            let c = self.connection_genes[k];
            if !c.disabled && c.to == target && mask[c.from] {
                proof {
                    assert(es.contains((c.from, c.to)));
                    graph::lemma_edge_extends_path(es, source, c.from, target);
                }
                return true;
            }
            k += 1;
        }
        proof {
            if reaches(es, source, target) {
                graph::lemma_reach_last_edge(es, source, target);
                let a = choose|a: usize| graph::reach0(es, source, a) && #[trigger] es.contains((a, target));
                let k2 = choose|k2: int| 0 <= k2 < self.connection_genes@.len()
                    && !(#[trigger] self.connection_genes@[k2]).disabled
                    && self.connection_genes@[k2].from == a
                    && self.connection_genes@[k2].to == target;
            }
        }
        false
    }

    /// Does `target` receive a projection from `source`? (Swapped order.)
    pub fn is_projected(&self, target: usize, source: usize) -> (r: bool)
        requires
            self.conns_valid(),
            source < self.node_genes@.len(),
            target < self.node_genes@.len(),
        ensures
            r == reaches(self.edges(), source, target),
    {
        self.is_projecting(source, target)
    }

    /// The exact condition under which `add_connection` succeeds.
    pub open spec fn can_connect_spec(&self, from: usize, to: usize) -> bool {
        &&& self.node_genes@[from as int].kind != NodeKind::Output
        &&& self.node_genes@[to as int].kind != NodeKind::Input
        &&& !has_cycle(self.edges().insert((from, to)))
        &&& !reaches(self.edges(), from, to)
    }

    /// A new connection `from -> to` is admissible: it leaves a non-output,
    /// enters a non-input, keeps the graph acyclic, and adds no edge whose
    /// endpoints are already connected, directly or transitively.
    pub fn can_connect(&self, from: usize, to: usize) -> (r: bool)
        requires
            self.conns_valid(),
            from < self.node_genes@.len(),
            to < self.node_genes@.len(),
        ensures
            r == self.can_connect_spec(from, to),
    {
        let from_output = matches!(self.node_genes[from].kind, NodeKind::Output);
        let to_input = matches!(self.node_genes[to].kind, NodeKind::Input);
        if from_output || to_input {
            return false;
        }
        let mut candidate: Vec<ConnectionGene> = Vec::new();
        candidate.push(ConnectionGene::new(from, to, 0));
        let ghost cand = candidate@;
        let order = self.node_order_with(candidate);
        proof {
            assert(self.edges_with(cand) =~= self.edges().insert((from, to))) by {
                assert forall|pair: (usize, usize)| all_edges(cand).contains(pair)
                    implies pair == (from, to) by {
                    let k = choose|k: int| 0 <= k < cand.len()
                        && (#[trigger] cand[k]).from == pair.0 && cand[k].to == pair.1;
                }
                assert(cand[0].from == from && cand[0].to == to);
                assert(all_edges(cand).contains((from, to)));
            }
        }
        if order.is_none() {
            return false;
        }
        !self.is_projecting(from, to)
    }

    /// Some gene (enabled or not) already occupies `(from, to)`.
    pub open spec fn has_pair(&self, from: usize, to: usize) -> bool {
        exists|k: int| 0 <= k < self.connection_genes@.len()
            && (#[trigger] self.connection_genes@[k]).from == from
            && self.connection_genes@[k].to == to
    }

    /// The index of the gene at `(from, to)`, if any.
    fn find_pair_index(&self, from: usize, to: usize) -> (r: Option<usize>)
        ensures
            r is Some ==> (r->Some_0) < self.connection_genes@.len()
                && self.connection_genes@[(r->Some_0) as int].from == from
                && self.connection_genes@[(r->Some_0) as int].to == to,
            r is None ==> !self.has_pair(from, to),
    {
        let mut k: usize = 0;
        while k < self.connection_genes.len()
            invariant
                k <= self.connection_genes@.len(),
                forall|m: int| 0 <= m < k ==> !((#[trigger] self.connection_genes@[m]).from == from
                    && self.connection_genes@[m].to == to),
            decreases self.connection_genes@.len() - k,
        {
            let c = self.connection_genes[k];
            if c.from == from && c.to == to {
                return Some(k);
            }
            k += 1;
        }
        None
    }

    /// Adds the connection `from -> to` if it is admissible: an existing
    /// disabled gene at that pair is re-enabled, otherwise a fresh gene is
    /// appended with its innovation number from the registry and a weight
    /// within one unit of zero. Fails, leaving the genome untouched,
    /// exactly when `can_connect` does not hold.
    pub fn add_connection(&mut self, from: usize, to: usize, reg: &mut InnovationRegistry)
        -> (r: Result<usize, ()>)
        requires
            old(self).wf(),
            from < old(self).node_genes@.len(),
            to < old(self).node_genes@.len(),
            old(reg).wf(),
            old(self).consistent_with(old(reg)),
        ensures
            final(self).wf(),
            final(reg).wf(),
            final(self).consistent_with(final(reg)),
            crate::innovation::extends(*final(reg), *old(reg)),
            final(self).node_genes@ == old(self).node_genes@,
            final(self).inputs == old(self).inputs,
            final(self).outputs == old(self).outputs,
            (r is Err) <==> !old(self).can_connect_spec(from, to),
            r is Err ==> final(self).connection_genes@ == old(self).connection_genes@
                && final(reg).pairs@ == old(reg).pairs@,
            r is Ok ==> final(self).edges() == old(self).edges().insert((from, to)),
            r is Ok ==> (r->Ok_0) < final(self).connection_genes@.len()
                && final(self).connection_genes@[(r->Ok_0) as int].from == from
                && final(self).connection_genes@[(r->Ok_0) as int].to == to
                && !final(self).connection_genes@[(r->Ok_0) as int].disabled,
            r is Ok && old(self).has_pair(from, to)
                ==> final(self).connection_genes@ == old(self).connection_genes@.update(
                        (r->Ok_0) as int,
                        (ConnectionGene {
                            disabled: false,
                            ..old(self).connection_genes@[(r->Ok_0) as int]
                        }),
                    ),
            r is Ok && !old(self).has_pair(from, to)
                ==> final(self).connection_genes@.len() == old(self).connection_genes@.len() + 1
                    && final(self).connection_genes@.subrange(0, old(self).connection_genes@.len() as int)
                        == old(self).connection_genes@,
    {
        if !self.can_connect(from, to) {
            return Err(());
        }
        proof {
            // A direct enabled edge would be a one-edge projection.
            if self.edges().contains((from, to)) {
                graph::lemma_edge_extends_path(self.edges(), from, from, to);
            }
        }
        let found = self.find_pair_index(from, to);
        match found {
            Some(k) => {
                let mut g = self.connection_genes[k];
                g.disabled = false;
                self.connection_genes[k] = g;
                proof {
                    let oldc = old(self).connection_genes@;
                    let newc = self.connection_genes@;
                    assert(self.edges() =~= old(self).edges().insert((from, to))) by {
                        assert(!newc[k as int].disabled && newc[k as int].from == from
                            && newc[k as int].to == to);
                        assert forall|pair: (usize, usize)| old(self).edges().insert((from, to)).contains(pair)
                            implies self.edges().contains(pair) by {
                            if pair == (from, to) {
                                assert(!newc[k as int].disabled);
                            } else {
                                let k2 = choose|k2: int| 0 <= k2 < oldc.len()
                                    && !(#[trigger] oldc[k2]).disabled
                                    && oldc[k2].from == pair.0 && oldc[k2].to == pair.1;
                                assert(newc[k2] == oldc[k2]) by {
                                    if k2 == k {
                                        assert(pair == (from, to));
                                    }
                                }
                            }
                        }
                        assert forall|pair: (usize, usize)| self.edges().contains(pair)
                            implies old(self).edges().insert((from, to)).contains(pair) by {
                            let k2 = choose|k2: int| 0 <= k2 < newc.len()
                                && !(#[trigger] newc[k2]).disabled
                                && newc[k2].from == pair.0 && newc[k2].to == pair.1;
                            if k2 != k {
                                assert(oldc[k2] == newc[k2]);
                            }
                        }
                    }
                }
                Ok(k)
            }
            None => {
                let innovation = reg.innovation_for(from, to);
                let weight = crate::rng::random_weight();
                let ghost oldc = self.connection_genes@;
                self.connection_genes.push(ConnectionGene {
                    from,
                    to,
                    weight,
                    disabled: false,
                    innovation,
                });
                proof {
                    let newc = self.connection_genes@;
                    let last = newc.len() - 1;
                    assert(self.edges() =~= old(self).edges().insert((from, to))) by {
                        assert forall|pair: (usize, usize)| old(self).edges().insert((from, to)).contains(pair)
                            implies self.edges().contains(pair) by {
                            if pair == (from, to) {
                                assert(!newc[last].disabled && newc[last].from == from
                                    && newc[last].to == to);
                            } else {
                                let k2 = choose|k2: int| 0 <= k2 < oldc.len()
                                    && !(#[trigger] oldc[k2]).disabled
                                    && oldc[k2].from == pair.0 && oldc[k2].to == pair.1;
                                assert(newc[k2] == oldc[k2]);
                            }
                        }
                        assert forall|pair: (usize, usize)| self.edges().contains(pair)
                            implies old(self).edges().insert((from, to)).contains(pair) by {
                            let k2 = choose|k2: int| 0 <= k2 < newc.len()
                                && !(#[trigger] newc[k2]).disabled
                                && newc[k2].from == pair.0 && newc[k2].to == pair.1;
                            if k2 < last {
                                assert(oldc[k2] == newc[k2]);
                            }
                        }
                    }
                    assert(newc.subrange(0, oldc.len() as int) =~= oldc);
                    assert forall|k2: int| 0 <= k2 < newc.len()
                        implies (#[trigger] newc[k2]).innovation < reg.pairs@.len()
                            && reg.pairs@[newc[k2].innovation as int] == (newc[k2].from, newc[k2].to) by {
                        if k2 < last {
                            assert(oldc[k2].innovation < old(reg).pairs@.len());
                            assert(reg.pairs@[oldc[k2].innovation as int]
                                == old(reg).pairs@[oldc[k2].innovation as int]);
                        }
                    }
                }
                Ok(self.connection_genes.len() - 1)
            }
        }
    }

    /// Adds each `(from, to)` pair in turn, collecting each outcome.
    pub fn add_many_connections(&mut self, params: &Vec<(usize, usize)>, reg: &mut InnovationRegistry)
        -> (results: Vec<Result<usize, ()>>)
        requires
            old(self).wf(),
            old(reg).wf(),
            old(self).consistent_with(old(reg)),
            forall|i: int| 0 <= i < params@.len()
                ==> (#[trigger] params@[i]).0 < old(self).node_genes@.len()
                    && params@[i].1 < old(self).node_genes@.len(),
        ensures
            final(self).wf(),
            final(reg).wf(),
            final(self).consistent_with(final(reg)),
            crate::innovation::extends(*final(reg), *old(reg)),
            final(self).node_genes@ == old(self).node_genes@,
            final(self).inputs == old(self).inputs,
            final(self).outputs == old(self).outputs,
            results@.len() == params@.len(),
    {
        let mut results: Vec<Result<usize, ()>> = Vec::new();
        let mut i: usize = 0;
        while i < params.len()
            invariant
                i <= params@.len(),
                results@.len() == i,
                self.wf(),
                reg.wf(),
                self.consistent_with(reg),
                crate::innovation::extends(*reg, *old(reg)),
                self.node_genes@ == old(self).node_genes@,
                self.inputs == old(self).inputs,
                self.outputs == old(self).outputs,
                forall|m: int| 0 <= m < params@.len()
                    ==> (#[trigger] params@[m]).0 < old(self).node_genes@.len()
                        && params@[m].1 < old(self).node_genes@.len(),
            decreases params@.len() - i,
        {
            let (from, to) = params[i];
            let ghost reg_before = *reg;
            let outcome = self.add_connection(from, to, reg);
            results.push(outcome);
            proof {
                crate::innovation::lemma_extends_trans(*old(reg), reg_before, *reg);
            }
            i += 1;
        }
        results
    }

    /// Marks the connection at `index` disabled; nothing else changes.
    pub fn disable_connection(&mut self, index: usize)
        requires
            old(self).wf(),
            index < old(self).connection_genes@.len(),
        ensures
            final(self).wf(),
            final(self).node_genes@ == old(self).node_genes@,
            final(self).inputs == old(self).inputs,
            final(self).outputs == old(self).outputs,
            final(self).connection_genes@ == old(self).connection_genes@.update(
                index as int,
                ConnectionGene {
                    disabled: true,
                    ..old(self).connection_genes@[index as int]
                },
            ),
            final(self).edges() == old(self).edges().remove((
                old(self).connection_genes@[index as int].from,
                old(self).connection_genes@[index as int].to,
            )),
    {
        let mut g = self.connection_genes[index];
        let ghost pair = (g.from, g.to);
        g.disabled = true;
        self.connection_genes[index] = g;
        proof {
            let oldc = old(self).connection_genes@;
            let newc = self.connection_genes@;
            assert(self.edges() =~= old(self).edges().remove(pair)) by {
                assert forall|q: (usize, usize)| self.edges().contains(q)
                    implies old(self).edges().remove(pair).contains(q) by {
                    let k2 = choose|k2: int| 0 <= k2 < newc.len()
                        && !(#[trigger] newc[k2]).disabled
                        && newc[k2].from == q.0 && newc[k2].to == q.1;
                    assert(k2 != index);
                    assert(oldc[k2] == newc[k2]);
                    // Only the gene at `index` holds this pair.
                    assert(q != pair);
                }
                assert forall|q: (usize, usize)| old(self).edges().remove(pair).contains(q)
                    implies self.edges().contains(q) by {
                    let k2 = choose|k2: int| 0 <= k2 < oldc.len()
                        && !(#[trigger] oldc[k2]).disabled
                        && oldc[k2].from == q.0 && oldc[k2].to == q.1;
                    assert(k2 != index);
                    assert(newc[k2] == oldc[k2]);
                }
            }
            assert(!has_cycle(self.edges())) by {
                if has_cycle(self.edges()) {
                    graph::lemma_cycle_subset(self.edges(), old(self).edges());
                }
            }
        }
    }

    /// Disables every listed connection; all other genes are untouched.
    pub fn disable_many_connections(&mut self, indexes: &Vec<usize>)
        requires
            old(self).wf(),
            forall|m: int| 0 <= m < indexes@.len()
                ==> (#[trigger] indexes@[m]) < old(self).connection_genes@.len(),
        ensures
            final(self).wf(),
            final(self).node_genes@ == old(self).node_genes@,
            final(self).inputs == old(self).inputs,
            final(self).outputs == old(self).outputs,
            final(self).connection_genes@.len() == old(self).connection_genes@.len(),
            forall|j: usize| j < old(self).connection_genes@.len()
                ==> #[trigger] final(self).connection_genes@[j as int] == (if indexes@.contains(j) {
                        ConnectionGene { disabled: true, ..old(self).connection_genes@[j as int] }
                    } else {
                        old(self).connection_genes@[j as int]
                    }),
    {
        let ghost oldc = old(self).connection_genes@;
        let mut t: usize = 0;
        while t < indexes.len()
            invariant
                t <= indexes@.len(),
                self.node_genes@ == old(self).node_genes@,
                self.inputs == old(self).inputs,
                self.outputs == old(self).outputs,
                self.connection_genes@.len() == oldc.len(),
                oldc == old(self).connection_genes@,
                forall|m: int| 0 <= m < indexes@.len() ==> (#[trigger] indexes@[m]) < oldc.len(),
                forall|j: usize| j < oldc.len()
                    ==> #[trigger] self.connection_genes@[j as int] == (
                        if indexes@.subrange(0, t as int).contains(j) {
                            ConnectionGene { disabled: true, ..oldc[j as int] }
                        } else {
                            oldc[j as int]
                        }),
            decreases indexes@.len() - t,
        {
            let idx = indexes[t];
            let ghost prev = self.connection_genes@;
            let mut g = self.connection_genes[idx];
            g.disabled = true;
            self.connection_genes[idx] = g;
            proof {
                let pre = indexes@.subrange(0, t as int);
                let cur = indexes@.subrange(0, t + 1);
                assert(cur.drop_last() =~= pre);
                assert(cur.last() == idx);
                assert(self.connection_genes@ == prev.update(idx as int, g));
                assert(prev[idx as int] == (if pre.contains(idx) {
                    ConnectionGene { disabled: true, ..oldc[idx as int] }
                } else {
                    oldc[idx as int]
                }));
                assert forall|j: usize| j < oldc.len()
                    implies #[trigger] self.connection_genes@[j as int] == (
                        if cur.contains(j) {
                            ConnectionGene { disabled: true, ..oldc[j as int] }
                        } else {
                            oldc[j as int]
                        }) by {
                    if j != idx {
                        assert(self.connection_genes@[j as int] == prev[j as int]);
                    }
                    if cur.contains(j) {
                        let m = choose|m: int| 0 <= m < cur.len() && cur[m] == j;
                        if m < cur.len() - 1 {
                            assert(pre[m] == j);
                            assert(pre.contains(j));
                        } else {
                            assert(j == idx);
                        }
                    } else {
                        assert(!pre.contains(j)) by {
                            if pre.contains(j) {
                                let m = choose|m: int| 0 <= m < pre.len() && pre[m] == j;
                                assert(cur[m] == j);
                            }
                        }
                        assert(j != idx) by {
                            if j == idx {
                                assert(cur[cur.len() - 1] == j);
                            }
                        }
                    }
                }
            }
            t += 1;
        }
        let nconn = self.connection_genes.len();
        proof {
            assert(oldc.len() == nconn);
            assert(indexes@.subrange(0, indexes@.len() as int) =~= indexes@);
            assert forall|k2: int| 0 <= k2 < oldc.len()
                implies (#[trigger] self.connection_genes@[k2]).from == oldc[k2].from
                    && self.connection_genes@[k2].to == oldc[k2].to
                    && self.connection_genes@[k2].weight == oldc[k2].weight
                    && (oldc[k2].disabled ==> self.connection_genes@[k2].disabled)
                    && (!self.connection_genes@[k2].disabled ==> !oldc[k2].disabled) by {
                let ju: usize = k2 as usize;
                assert(self.connection_genes@[ju as int] == (if indexes@.contains(ju) {
                    ConnectionGene { disabled: true, ..oldc[ju as int] }
                } else {
                    oldc[ju as int]
                }));
            }
            assert(!has_cycle(self.edges())) by {
                if has_cycle(self.edges()) {
                    assert(self.edges().subset_of(old(self).edges())) by {
                        assert forall|q: (usize, usize)| self.edges().contains(q)
                            implies old(self).edges().contains(q) by {
                            let k2 = choose|k2: int| 0 <= k2 < self.connection_genes@.len()
                                && !(#[trigger] self.connection_genes@[k2]).disabled
                                && self.connection_genes@[k2].from == q.0
                                && self.connection_genes@[k2].to == q.1;
                            assert(!oldc[k2].disabled && oldc[k2].from == q.0 && oldc[k2].to == q.1);
                        }
                    }
                    graph::lemma_cycle_subset(self.edges(), old(self).edges());
                }
            }
        }
    }

    /// Recombines two parents, aligning connection genes by innovation
    /// number. With equal fitnesses the child's node count is drawn from
    /// the parents' range and unmatched genes are inherited half the time;
    /// otherwise both follow the fitter parent. Inputs come from the first
    /// parent, each output slot from either parent, and genes whose
    /// endpoints fall outside the child are discarded. Fails with
    /// `IncompatibleParents` on mismatched port counts and with
    /// `CycleIntroduced` if the picked genes close a cycle.
    #[verifier::rlimit(100)]
    pub fn crossover(a: &Genome, fitness_a: i64, b: &Genome, fitness_b: i64)
        -> (r: Result<Genome, crate::NeatError>)
        requires
            a.wf(),
            b.wf(),
            a.layout_wf(),
            b.layout_wf(),
            aligned(a.connection_genes@, a.connection_genes@),
            aligned(b.connection_genes@, b.connection_genes@),
            a.inputs == b.inputs && a.outputs == b.outputs
                ==> aligned(a.connection_genes@, b.connection_genes@),
        ensures
            (a.inputs != b.inputs || a.outputs != b.outputs)
                <==> (r is Err && r->Err_0 == crate::NeatError::IncompatibleParents),
            r is Err && a.inputs == b.inputs && a.outputs == b.outputs
                ==> r->Err_0 == crate::NeatError::CycleIntroduced,
            r is Ok ==> (r->Ok_0).wf(),
            r is Ok ==> (r->Ok_0).layout_wf(),
            r is Ok ==> (r->Ok_0).inputs == a.inputs && (r->Ok_0).outputs == a.outputs,
            r is Ok && fitness_a == fitness_b
                ==> (if a.node_genes@.len() <= b.node_genes@.len() { a.node_genes@.len() } else { b.node_genes@.len() })
                        <= (r->Ok_0).node_genes@.len()
                    && (r->Ok_0).node_genes@.len()
                        <= (if a.node_genes@.len() <= b.node_genes@.len() { b.node_genes@.len() } else { a.node_genes@.len() }),
            r is Ok && fitness_a > fitness_b ==> (r->Ok_0).node_genes@.len() == a.node_genes@.len(),
            r is Ok && fitness_a < fitness_b ==> (r->Ok_0).node_genes@.len() == b.node_genes@.len(),
            r is Ok ==> forall|p: int| 0 <= p < a.inputs
                ==> #[trigger] (r->Ok_0).node_genes@[p] == a.node_genes@[p],
            r is Ok ==> forall|p: int| 0 <= p < (r->Ok_0).node_genes@.len()
                ==> ((p < a.node_genes@.len() && #[trigger] (r->Ok_0).node_genes@[p] == a.node_genes@[p])
                    || (p < b.node_genes@.len() && (r->Ok_0).node_genes@[p] == b.node_genes@[p])),
            r is Ok ==> forall|m: int| 0 <= m < (r->Ok_0).connection_genes@.len()
                ==> a.connection_genes@.contains(#[trigger] (r->Ok_0).connection_genes@[m])
                    || b.connection_genes@.contains((r->Ok_0).connection_genes@[m]),
            r is Ok ==> forall|m1: int, m2: int|
                0 <= m1 < m2 < (r->Ok_0).connection_genes@.len()
                ==> pair_le(#[trigger] (r->Ok_0).connection_genes@[m1], #[trigger] (r->Ok_0).connection_genes@[m2]),
            r is Ok && fitness_a > fitness_b
                ==> forall|m: int| 0 <= m < (r->Ok_0).connection_genes@.len()
                    ==> has_innovation(a.connection_genes@,
                        (#[trigger] (r->Ok_0).connection_genes@[m]).innovation),
            r is Ok && fitness_a < fitness_b
                ==> forall|m: int| 0 <= m < (r->Ok_0).connection_genes@.len()
                    ==> has_innovation(b.connection_genes@,
                        (#[trigger] (r->Ok_0).connection_genes@[m]).innovation),
            a.inputs == b.inputs && a.outputs == b.outputs
                && !has_cycle(enabled_edges(a.connection_genes@).union(enabled_edges(b.connection_genes@)))
                ==> r is Ok,
            fitness_a == fitness_b && a.inputs == b.inputs && a.outputs == b.outputs
                && a.node_genes@ == b.node_genes@ && a.connection_genes@ == b.connection_genes@
                ==> r is Ok
                    && (r->Ok_0).node_genes@ == a.node_genes@
                    && (r->Ok_0).connection_genes@.len() == a.connection_genes@.len()
                    && (r->Ok_0).connection_genes@.to_multiset() == a.connection_genes@.to_multiset(),
    {
        broadcast use vstd::seq_lib::group_to_multiset_ensures;

        if a.inputs != b.inputs || a.outputs != b.outputs {
            return Err(crate::NeatError::IncompatibleParents);
        }
        let ghost ac = a.connection_genes@;
        let ghost bc = b.connection_genes@;
        proof {
            lemma_innovations_unique(a);
            lemma_innovations_unique(b);
        }
        let inputs = a.inputs;
        let outputs = a.outputs;
        let na = a.node_genes.len();
        let nb = b.node_genes.len();
        let fitnesses_equal = fitness_a == fitness_b;
        let lo = if na <= nb { na } else { nb };
        let hi = if na <= nb { nb } else { na };
        let node_count = if fitnesses_equal {
            if hi == lo {
                hi
            } else {
                let span = (hi - lo) as u128 + 1;
                let pick = (crate::rng::random_u64() as u128) % span;
                lo + (pick as usize)
            }
        } else if fitness_a > fitness_b {
            na
        } else {
            nb
        };
        let ghost equal_case = fitnesses_equal
            && a.node_genes@ == b.node_genes@ && ac == bc;
        proof {
            assert(lo >= inputs + outputs);
            assert(lo <= node_count <= hi);
            if equal_case {
                assert(node_count == na);
            }
        }

        // Nodes: inputs from a, outputs per slot, hidden positions from
        // whichever parent reaches them.
        let mut child_nodes: Vec<NodeGene> = Vec::new();
        let mut p: usize = 0;
        while p < inputs
            invariant
                p <= inputs,
                inputs + outputs <= lo <= na,
                inputs == a.inputs,
                na == a.node_genes@.len(),
                a.layout_wf(),
                child_nodes@ == a.node_genes@.subrange(0, p as int),
            decreases inputs - p,
        {
            child_nodes.push(a.node_genes[p]);
            proof {
                assert(child_nodes@ =~= a.node_genes@.subrange(0, p + 1));
            }
            p += 1;
        }
        let mut j: usize = 0;
        while j < outputs
            invariant
                j <= outputs,
                inputs + outputs <= lo <= na,
                inputs + outputs <= nb,
                inputs == a.inputs == b.inputs,
                outputs == a.outputs == b.outputs,
                na == a.node_genes@.len(),
                nb == b.node_genes@.len(),
                a.layout_wf(),
                b.layout_wf(),
                child_nodes@.len() == inputs + j,
                forall|q: int| 0 <= q < inputs ==> #[trigger] child_nodes@[q] == a.node_genes@[q],
                forall|q: int| inputs <= q < inputs + j
                    ==> #[trigger] child_nodes@[q] == a.node_genes@[q]
                        || child_nodes@[q] == b.node_genes@[q],
                equal_case ==> child_nodes@ == a.node_genes@.subrange(0, inputs + j),
                equal_case ==> a.node_genes@ == b.node_genes@,
            decreases outputs - j,
        {
            let pick_a = crate::rng::random_u64() % 2 == 0;
            if pick_a {
                child_nodes.push(a.node_genes[inputs + j]);
            } else {
                child_nodes.push(b.node_genes[inputs + j]);
            }
            proof {
                if equal_case {
                    assert(child_nodes@ =~= a.node_genes@.subrange(0, inputs + j + 1));
                }
            }
            j += 1;
        }
        let mut p: usize = inputs + outputs;
        while p < node_count
            invariant
                inputs + outputs <= p <= node_count,
                node_count <= hi,
                hi == (if na <= nb { nb } else { na }),
                inputs + outputs <= lo <= na,
                inputs + outputs <= nb,
                inputs == a.inputs == b.inputs,
                outputs == a.outputs == b.outputs,
                na == a.node_genes@.len(),
                nb == b.node_genes@.len(),
                a.layout_wf(),
                b.layout_wf(),
                child_nodes@.len() == p,
                forall|q: int| 0 <= q < inputs ==> #[trigger] child_nodes@[q] == a.node_genes@[q],
                forall|q: int| inputs <= q < p
                    ==> (q < na && #[trigger] child_nodes@[q] == a.node_genes@[q])
                        || (q < nb && child_nodes@[q] == b.node_genes@[q]),
                equal_case ==> node_count == na && child_nodes@ == a.node_genes@.subrange(0, p as int),
                equal_case ==> a.node_genes@ == b.node_genes@,
            decreases node_count - p,
        {
            if p < na && p < nb {
                let pick_a = crate::rng::random_u64() % 2 == 0;
                if pick_a {
                    child_nodes.push(a.node_genes[p]);
                } else {
                    child_nodes.push(b.node_genes[p]);
                }
            } else if p < na {
                child_nodes.push(a.node_genes[p]);
            } else {
                child_nodes.push(b.node_genes[p]);
            }
            proof {
                if equal_case {
                    assert(child_nodes@ =~= a.node_genes@.subrange(0, p + 1));
                }
            }
            p += 1;
        }
        proof {
            if equal_case {
                assert(child_nodes@ =~= a.node_genes@);
            }
            // Positional kinds of the child's nodes.
            assert forall|q: int| 0 <= q < node_count
                implies (#[trigger] child_nodes@[q]).kind == (if q < inputs {
                        NodeKind::Input
                    } else if q < inputs + outputs {
                        NodeKind::Output
                    } else {
                        NodeKind::Hidden
                    }) by {
                if q < inputs {
                    assert(child_nodes@[q] == a.node_genes@[q]);
                }
            }
        }

        // Connections: first pass over a's genes, aligned against b.
        let mut kept: Vec<ConnectionGene> = Vec::new();
        let mut ka: usize = 0;
        while ka < a.connection_genes.len()
            invariant
                ka <= ac.len(),
                ac == a.connection_genes@,
                bc == b.connection_genes@,
                aligned(ac, ac),
                aligned(bc, bc),
                aligned(ac, bc),
                a.wf(),
                b.wf(),
                na == a.node_genes@.len(),
                node_count >= lo,
                lo <= na,
                equal_case ==> node_count == na && ac == bc,
                fitnesses_equal == (fitness_a == fitness_b),
                forall|j1: int, j2: int| 0 <= j1 < j2 < ac.len()
                    ==> (#[trigger] ac[j1]).innovation != (#[trigger] ac[j2]).innovation,
                forall|j1: int, j2: int| 0 <= j1 < j2 < bc.len()
                    ==> (#[trigger] bc[j1]).innovation != (#[trigger] bc[j2]).innovation,
                forall|m: int| 0 <= m < kept@.len()
                    ==> ac.contains(#[trigger] kept@[m]) || bc.contains(kept@[m]),
                forall|m: int| 0 <= m < kept@.len()
                    ==> (#[trigger] kept@[m]).from < node_count && kept@[m].to < node_count,
                forall|m: int| 0 <= m < kept@.len()
                    ==> exists|j: int| 0 <= j < ka && (#[trigger] ac[j]).innovation == (#[trigger] kept@[m]).innovation,
                forall|m: int| 0 <= m < kept@.len()
                    ==> has_innovation(ac, (#[trigger] kept@[m]).innovation),
                forall|m1: int, m2: int| 0 <= m1 < m2 < kept@.len()
                    ==> (#[trigger] kept@[m1]).innovation != (#[trigger] kept@[m2]).innovation,
                fitness_a < fitness_b ==> forall|m: int| 0 <= m < kept@.len()
                    ==> has_innovation(bc, (#[trigger] kept@[m]).innovation),
                equal_case ==> kept@ == ac.subrange(0, ka as int),
            decreases ac.len() - ka,
        {
            let ca = a.connection_genes[ka];
            let mb = find_by_innovation(&b.connection_genes, ca.innovation);
            let picked: Option<ConnectionGene> = match mb {
                Some(jb) => {
                    if crate::rng::random_u64() % 2 == 0 {
                        Some(ca)
                    } else {
                        Some(b.connection_genes[jb])
                    }
                }
                None => {
                    if fitness_a > fitness_b {
                        Some(ca)
                    } else if fitnesses_equal {
                        if crate::rng::random_u64() % 2 == 0 {
                            Some(ca)
                        } else {
                            None
                        }
                    } else {
                        None
                    }
                }
            };
            let ghost kept0 = kept@;
            let mut pushed = false;
            if let Some(g) = picked {
                if g.from < node_count && g.to < node_count {
                    kept.push(g);
                    pushed = true;
                    proof {
                        assert(g.innovation == ca.innovation);
                        if mb is Some {
                            assert(has_innovation(bc, g.innovation)) by {
                                assert(bc[(mb->Some_0) as int].innovation == ca.innovation);
                            }
                        }
                        assert(ac.contains(g) || bc.contains(g)) by {
                            if mb is Some {
                                assert(g == ca || g == bc[(mb->Some_0) as int]);
                                if g == ca {
                                    assert(ac[ka as int] == g);
                                }
                            } else {
                                assert(ac[ka as int] == g);
                            }
                        }
                        assert forall|m1: int, m2: int| 0 <= m1 < m2 < kept@.len()
                            implies (#[trigger] kept@[m1]).innovation != (#[trigger] kept@[m2]).innovation by {
                            if m2 == kept@.len() - 1 {
                                assert(kept@[m1] == kept0[m1]);
                                let jj = choose|jj: int| 0 <= jj < ka
                                    && (#[trigger] ac[jj]).innovation == kept0[m1].innovation;
                                assert(ac[jj].innovation != ac[ka as int].innovation);
                            } else {
                                assert(kept@[m1] == kept0[m1] && kept@[m2] == kept0[m2]);
                            }
                        }
                        assert forall|m: int| 0 <= m < kept@.len()
                            implies exists|jx: int| 0 <= jx < ka + 1
                                && (#[trigger] ac[jx]).innovation == (#[trigger] kept@[m]).innovation by {
                            if m < kept0.len() {
                                assert(kept@[m] == kept0[m]);
                                let jj = choose|jj: int| 0 <= jj < ka
                                    && (#[trigger] ac[jj]).innovation == kept0[m].innovation;
                                assert(0 <= jj < ka + 1 && ac[jj].innovation == kept@[m].innovation);
                            } else {
                                assert(ac[ka as int].innovation == kept@[m].innovation);
                            }
                        }
                        assert forall|m: int| 0 <= m < kept@.len()
                            implies has_innovation(ac, (#[trigger] kept@[m]).innovation) by {
                            if m < kept0.len() {
                                assert(kept@[m] == kept0[m]);
                            } else {
                                assert(ac[ka as int].innovation == kept@[m].innovation);
                            }
                        }
                        if fitness_a < fitness_b {
                            assert forall|m: int| 0 <= m < kept@.len()
                                implies has_innovation(bc, (#[trigger] kept@[m]).innovation) by {
                                if m < kept0.len() {
                                    assert(kept@[m] == kept0[m]);
                                } else {
                                    assert(kept@[m] == g);
                                }
                            }
                        }
                    }
                }
            }
            proof {
                if equal_case {
                    // The aligned partner is the gene itself, so the child
                    // keeps exactly a's gene.
                    assert(bc[ka as int].innovation == ca.innovation);
                    assert(mb is Some);
                    let jb = (mb->Some_0) as int;
                    assert(bc[jb].innovation == ca.innovation);
                    if jb != ka as int {
                        if jb < ka as int {
                            assert(bc[jb].innovation != bc[ka as int].innovation);
                        } else {
                            assert(bc[ka as int].innovation != bc[jb].innovation);
                        }
                    }
                    assert(bc[jb] == ca);
                    assert(ca.from < na && ca.to < na);
                    assert(pushed);
                    assert(kept@.last() == ca);
                    assert(kept@ =~= ac.subrange(0, ka + 1));
                }
                if !pushed {
                    assert forall|m: int| 0 <= m < kept@.len()
                        implies exists|jx: int| 0 <= jx < ka + 1
                            && (#[trigger] ac[jx]).innovation == (#[trigger] kept@[m]).innovation by {
                        let jj = choose|jj: int| 0 <= jj < ka
                            && (#[trigger] ac[jj]).innovation == kept@[m].innovation;
                        assert(0 <= jj < ka + 1 && ac[jj].innovation == kept@[m].innovation);
                    }
                }
            }
            ka += 1;
        }

        // Second pass: b's genes with no partner in a.
        let mut kb: usize = 0;
        while kb < b.connection_genes.len()
            invariant
                kb <= bc.len(),
                ac == a.connection_genes@,
                bc == b.connection_genes@,
                aligned(ac, ac),
                aligned(bc, bc),
                aligned(ac, bc),
                a.wf(),
                b.wf(),
                node_count >= lo,
                equal_case ==> ac == bc,
                fitnesses_equal == (fitness_a == fitness_b),
                forall|j1: int, j2: int| 0 <= j1 < j2 < bc.len()
                    ==> (#[trigger] bc[j1]).innovation != (#[trigger] bc[j2]).innovation,
                forall|m: int| 0 <= m < kept@.len()
                    ==> ac.contains(#[trigger] kept@[m]) || bc.contains(kept@[m]),
                forall|m: int| 0 <= m < kept@.len()
                    ==> (#[trigger] kept@[m]).from < node_count && kept@[m].to < node_count,
                forall|m: int| 0 <= m < kept@.len()
                    ==> has_innovation(ac, (#[trigger] kept@[m]).innovation)
                        || exists|j: int| 0 <= j < kb && (#[trigger] bc[j]).innovation == kept@[m].innovation,
                forall|m1: int, m2: int| 0 <= m1 < m2 < kept@.len()
                    ==> (#[trigger] kept@[m1]).innovation != (#[trigger] kept@[m2]).innovation,
                fitness_a > fitness_b ==> forall|m: int| 0 <= m < kept@.len()
                    ==> has_innovation(ac, (#[trigger] kept@[m]).innovation),
                fitness_a < fitness_b ==> forall|m: int| 0 <= m < kept@.len()
                    ==> has_innovation(bc, (#[trigger] kept@[m]).innovation),
                equal_case ==> kept@ == ac,
            decreases bc.len() - kb,
        {
            let cb = b.connection_genes[kb];
            let ma = find_by_innovation(&a.connection_genes, cb.innovation);
            if ma.is_none() {
                proof {
                    if equal_case {
                        assert(ac[kb as int].innovation == cb.innovation);
                    }
                }
                let want = if fitness_b > fitness_a {
                    true
                } else if fitnesses_equal {
                    crate::rng::random_u64() % 2 == 0
                } else {
                    false
                };
                if want && cb.from < node_count && cb.to < node_count {
                    let ghost kept0 = kept@;
                    kept.push(cb);
                    proof {
                        assert(!(fitness_a > fitness_b));
                        assert(bc.contains(cb)) by {
                            assert(bc[kb as int] == cb);
                        }
                        assert(!has_innovation(ac, cb.innovation));
                        assert forall|m1: int, m2: int| 0 <= m1 < m2 < kept@.len()
                            implies (#[trigger] kept@[m1]).innovation != (#[trigger] kept@[m2]).innovation by {
                            if m2 == kept@.len() - 1 {
                                assert(kept@[m1] == kept0[m1]);
                                if has_innovation(ac, kept0[m1].innovation) {
                                } else {
                                    let jj = choose|jj: int| 0 <= jj < kb
                                        && (#[trigger] bc[jj]).innovation == kept0[m1].innovation;
                                    assert(bc[jj].innovation != bc[kb as int].innovation);
                                }
                            } else {
                                assert(kept@[m1] == kept0[m1] && kept@[m2] == kept0[m2]);
                            }
                        }
                        assert forall|m: int| 0 <= m < kept@.len()
                            implies has_innovation(ac, (#[trigger] kept@[m]).innovation)
                                || exists|j: int| 0 <= j < kb + 1
                                    && (#[trigger] bc[j]).innovation == kept@[m].innovation by {
                            if m < kept0.len() {
                                assert(kept@[m] == kept0[m]);
                                if !has_innovation(ac, kept0[m].innovation) {
                                    let jj = choose|jj: int| 0 <= jj < kb
                                        && (#[trigger] bc[jj]).innovation == kept0[m].innovation;
                                    assert(0 <= jj < kb + 1 && bc[jj].innovation == kept@[m].innovation);
                                }
                            } else {
                                assert(bc[kb as int].innovation == kept@[m].innovation);
                            }
                        }
                        if fitness_a < fitness_b {
                            assert forall|m: int| 0 <= m < kept@.len()
                                implies has_innovation(bc, (#[trigger] kept@[m]).innovation) by {
                                if m < kept0.len() {
                                    assert(kept@[m] == kept0[m]);
                                } else {
                                    assert(bc[kb as int].innovation == kept@[m].innovation);
                                }
                            }
                        }
                    }
                }
            }
            proof {
                assert forall|m: int| 0 <= m < kept@.len()
                    implies has_innovation(ac, (#[trigger] kept@[m]).innovation)
                        || exists|j: int| 0 <= j < kb + 1
                            && (#[trigger] bc[j]).innovation == kept@[m].innovation by {
                    if !has_innovation(ac, kept@[m].innovation) {
                        let jj = choose|jj: int| 0 <= jj < kb + 1
                            && (#[trigger] bc[jj]).innovation == kept@[m].innovation;
                    }
                }
            }
            kb += 1;
        }

        // The kept genes carry pairwise-distinct `(from, to)` pairs.
        proof {
            assert forall|m1: int, m2: int| 0 <= m1 < m2 < kept@.len()
                implies !((#[trigger] kept@[m1]).from == (#[trigger] kept@[m2]).from
                    && kept@[m1].to == kept@[m2].to) by {
                if kept@[m1].from == kept@[m2].from && kept@[m1].to == kept@[m2].to {
                    let g1 = kept@[m1];
                    let g2 = kept@[m2];
                    if ac.contains(g1) {
                        let i1 = choose|i1: int| 0 <= i1 < ac.len() && ac[i1] == g1;
                        if ac.contains(g2) {
                            let i2 = choose|i2: int| 0 <= i2 < ac.len() && ac[i2] == g2;
                            if i1 != i2 {
                                if i1 < i2 {
                                    assert(!(ac[i1].from == ac[i2].from && ac[i1].to == ac[i2].to));
                                } else {
                                    assert(!(ac[i2].from == ac[i1].from && ac[i2].to == ac[i1].to));
                                }
                            }
                        } else {
                            let i2 = choose|i2: int| 0 <= i2 < bc.len() && bc[i2] == g2;
                            assert(ac[i1].innovation == bc[i2].innovation);
                        }
                    } else {
                        let i1 = choose|i1: int| 0 <= i1 < bc.len() && bc[i1] == g1;
                        if ac.contains(g2) {
                            let i2 = choose|i2: int| 0 <= i2 < ac.len() && ac[i2] == g2;
                            assert(ac[i2].innovation == bc[i1].innovation);
                        } else {
                            let i2 = choose|i2: int| 0 <= i2 < bc.len() && bc[i2] == g2;
                            if i1 != i2 {
                                if i1 < i2 {
                                    assert(!(bc[i1].from == bc[i2].from && bc[i1].to == bc[i2].to));
                                } else {
                                    assert(!(bc[i2].from == bc[i1].from && bc[i2].to == bc[i1].to));
                                }
                            }
                        }
                    }
                }
            }
        }

        let ghost keptv = kept@;
        let sorted = sort_canonical(kept);
        proof {
            // Every sorted gene is one of the kept genes.
            assert forall|m: int| 0 <= m < sorted@.len()
                implies keptv.contains(#[trigger] sorted@[m]) by {
                assert(sorted@.contains(sorted@[m]));
                assert(sorted@.to_multiset().count(sorted@[m]) > 0);
                assert(keptv.to_multiset().count(sorted@[m]) > 0);
            }
            // Kept genes are pairwise distinct as values, so the sorted
            // sequence repeats none and keeps the pairwise properties.
            assert(keptv.no_duplicates()) by {
                assert forall|m1: int, m2: int|
                    0 <= m1 < keptv.len() && 0 <= m2 < keptv.len() && m1 != m2
                    implies keptv[m1] != keptv[m2] by {
                    if m1 < m2 {
                        assert(keptv[m1].innovation != keptv[m2].innovation);
                    } else {
                        assert(keptv[m2].innovation != keptv[m1].innovation);
                    }
                }
            }
            keptv.lemma_multiset_has_no_duplicates();
            sorted@.lemma_multiset_has_no_duplicates_conv();
            assert forall|m1: int, m2: int| 0 <= m1 < m2 < sorted@.len()
                implies !((#[trigger] sorted@[m1]).from == (#[trigger] sorted@[m2]).from
                    && sorted@[m1].to == sorted@[m2].to)
                    && sorted@[m1].innovation != sorted@[m2].innovation by {
                let g1 = sorted@[m1];
                let g2 = sorted@[m2];
                assert(g1 != g2);
                let i1 = choose|i1: int| 0 <= i1 < keptv.len() && keptv[i1] == g1;
                let i2 = choose|i2: int| 0 <= i2 < keptv.len() && keptv[i2] == g2;
                assert(i1 != i2);
                if i1 < i2 {
                    assert(keptv[i1].innovation != keptv[i2].innovation);
                    assert(!(keptv[i1].from == keptv[i2].from && keptv[i1].to == keptv[i2].to));
                } else {
                    assert(keptv[i2].innovation != keptv[i1].innovation);
                    assert(!(keptv[i2].from == keptv[i1].from && keptv[i2].to == keptv[i1].to));
                }
            }
        }

        proof {
            if fitness_a > fitness_b {
                assert forall|m: int| 0 <= m < sorted@.len()
                    implies has_innovation(ac, (#[trigger] sorted@[m]).innovation) by {
                    assert(keptv.contains(sorted@[m]));
                    let i = choose|i: int| 0 <= i < keptv.len() && keptv[i] == sorted@[m];
                    assert(has_innovation(ac, keptv[i].innovation));
                }
            }
            if fitness_a < fitness_b {
                assert forall|m: int| 0 <= m < sorted@.len()
                    implies has_innovation(bc, (#[trigger] sorted@[m]).innovation) by {
                    assert(keptv.contains(sorted@[m]));
                    let i = choose|i: int| 0 <= i < keptv.len() && keptv[i] == sorted@[m];
                    assert(has_innovation(bc, keptv[i].innovation));
                }
            }
        }
        let child = Genome {
            inputs,
            outputs,
            node_genes: child_nodes,
            connection_genes: sorted,
        };
        proof {
            // Every child gene joins valid positions with legal kinds.
            assert forall|k: int| 0 <= k < child.connection_genes@.len()
                implies (#[trigger] child.connection_genes@[k]).from < child.node_genes@.len()
                    && child.connection_genes@[k].to < child.node_genes@.len()
                    && child.node_genes@[child.connection_genes@[k].from as int].kind != NodeKind::Output
                    && child.node_genes@[child.connection_genes@[k].to as int].kind != NodeKind::Input by {
                let g = child.connection_genes@[k];
                assert(keptv.contains(g));
                let m = choose|m: int| 0 <= m < keptv.len() && keptv[m] == g;
                assert(g.from < node_count && g.to < node_count);
                if ac.contains(g) {
                    let i = choose|i: int| 0 <= i < ac.len() && ac[i] == g;
                    assert(a.node_genes@[g.from as int].kind != NodeKind::Output);
                    assert(a.node_genes@[g.to as int].kind != NodeKind::Input);
                    assert(!(inputs <= g.from < inputs + outputs));
                    assert(g.to >= inputs);
                } else {
                    let i = choose|i: int| 0 <= i < bc.len() && bc[i] == g;
                    assert(b.node_genes@[g.from as int].kind != NodeKind::Output);
                    assert(b.node_genes@[g.to as int].kind != NodeKind::Input);
                    assert(!(inputs <= g.from < inputs + outputs));
                    assert(g.to >= inputs);
                }
            }
            assert(child.conns_valid());
            assert(child.layout_wf());
            assert(child.pairs_unique());
            assert(child.values_bounded()) by {
                assert forall|k: int| 0 <= k < child.connection_genes@.len()
                    implies -crate::WEIGHT_LIMIT <= (#[trigger] child.connection_genes@[k]).weight
                        <= crate::WEIGHT_LIMIT by {
                    let g = child.connection_genes@[k];
                    assert(keptv.contains(g));
                    if ac.contains(g) {
                        let i = choose|i: int| 0 <= i < ac.len() && ac[i] == g;
                    } else {
                        let i = choose|i: int| 0 <= i < bc.len() && bc[i] == g;
                    }
                }
                assert forall|q: int| 0 <= q < child.node_genes@.len()
                    implies -crate::WEIGHT_LIMIT <= (#[trigger] child.node_genes@[q]).bias
                        <= crate::WEIGHT_LIMIT by {
                    if q < inputs {
                    }
                }
            }
            if equal_case {
                // Same genes, same edges: the parent's acyclicity carries over.
                assert(child.connection_genes@.to_multiset() == ac.to_multiset());
                assert(child.edges() =~= a.edges()) by {
                    assert forall|q: (usize, usize)| child.edges().contains(q)
                        implies a.edges().contains(q) by {
                        let k = choose|k: int| 0 <= k < child.connection_genes@.len()
                            && !(#[trigger] child.connection_genes@[k]).disabled
                            && child.connection_genes@[k].from == q.0
                            && child.connection_genes@[k].to == q.1;
                        let g = child.connection_genes@[k];
                        assert(keptv.contains(g));
                        let i = choose|i: int| 0 <= i < ac.len() && ac[i] == g;
                    }
                    assert forall|q: (usize, usize)| a.edges().contains(q)
                        implies child.edges().contains(q) by {
                        let i = choose|i: int| 0 <= i < ac.len()
                            && !(#[trigger] ac[i]).disabled
                            && ac[i].from == q.0 && ac[i].to == q.1;
                        assert(ac.contains(ac[i]));
                        assert(ac.to_multiset().count(ac[i]) > 0);
                        assert(child.connection_genes@.to_multiset().count(ac[i]) > 0);
                        assert(child.connection_genes@.contains(ac[i]));
                        let k = choose|k: int| 0 <= k < child.connection_genes@.len()
                            && child.connection_genes@[k] == ac[i];
                    }
                }
                assert(!has_cycle(child.edges()));
            }
        }
        match child.node_order() {
            Some(_) => {
                Ok(child)
            }
            None => {
                proof {
                    let union = enabled_edges(ac).union(enabled_edges(bc));
                    assert(child.edges().subset_of(union)) by {
                        assert forall|q: (usize, usize)| child.edges().contains(q)
                            implies union.contains(q) by {
                            let k = choose|k: int| 0 <= k < child.connection_genes@.len()
                                && !(#[trigger] child.connection_genes@[k]).disabled
                                && child.connection_genes@[k].from == q.0
                                && child.connection_genes@[k].to == q.1;
                            let g = child.connection_genes@[k];
                            assert(keptv.contains(g));
                            if ac.contains(g) {
                                let i = choose|i: int| 0 <= i < ac.len() && ac[i] == g;
                                assert(!(#[trigger] ac[i]).disabled
                                    && ac[i].from == q.0 && ac[i].to == q.1);
                            } else {
                                let i = choose|i: int| 0 <= i < bc.len() && bc[i] == g;
                                assert(!(#[trigger] bc[i]).disabled
                                    && bc[i].from == q.0 && bc[i].to == q.1);
                            }
                        }
                    }
                    graph::lemma_cycle_subset(child.edges(), union);
                }
                Err(crate::NeatError::CycleIntroduced)
            }
        }
    }
}

} // verus!\n