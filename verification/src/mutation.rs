//! The mutation catalog: best-effort structural and parametric operators.
//! Every operator preserves the genome invariants and is a no-op when it
//! has no valid target.

use vstd::prelude::*;
use crate::config::Configuration;
use crate::genes::{ActivationKind, AggregationKind, ConnectionGene, NodeGene, NodeKind};
use crate::genome::Genome;
use crate::innovation::InnovationRegistry;

verus! {

/// The kinds of mutation the engine can apply to a genome.
#[derive(Clone, Copy, Debug, PartialEq, Eq, Structural)]
pub enum MutationKind {
    AddConnection,
    AddNode,
    WeightPerturb,
    WeightReplace,
    BiasPerturb,
    BiasReplace,
    DisableConnection,
    ChangeActivation,
    ChangeAggregation,
}

impl Genome {
    /// Some admissible new edge exists: legal kinds and no enabled edge
    /// already in place.
    pub open spec fn has_connection_candidate(&self) -> bool {
        exists|x: usize, y: usize| x < self.node_genes@.len() && y < self.node_genes@.len()
            && self.node_genes@[x as int].kind != NodeKind::Output
            && self.node_genes@[y as int].kind != NodeKind::Input
            && !(#[trigger] self.edges().contains((x, y)))
    }

    /// Some connection gene is enabled.
    pub open spec fn has_enabled_connection(&self) -> bool {
        exists|k: int| 0 <= k < self.connection_genes@.len()
            && !(#[trigger] self.connection_genes@[k]).disabled
    }

    /// Some node is not an input.
    pub open spec fn has_non_input_node(&self) -> bool {
        exists|p: int| 0 <= p < self.node_genes@.len()
            && (#[trigger] self.node_genes@[p]).kind != NodeKind::Input
    }

    /// Everything the mutation operators promise to keep intact.
    pub open spec fn same_shape_as(&self, other: &Genome) -> bool {
        &&& self.inputs == other.inputs
        &&& self.outputs == other.outputs
    }

    /// Tries to add one connection between a uniformly drawn admissible
    /// pair; a no-op when no admissible pair exists or the drawn pair
    /// would break acyclicity or duplicate a transitive projection.
    pub fn mutate_add_connection(&mut self, reg: &mut InnovationRegistry)
        requires
            old(self).wf(),
            old(reg).wf(),
            old(self).consistent_with(old(reg)),
        ensures
            final(self).wf(),
            final(reg).wf(),
            final(self).consistent_with(final(reg)),
            crate::innovation::extends(*final(reg), *old(reg)),
            final(self).node_genes@ == old(self).node_genes@,
            final(self).same_shape_as(old(self)),
            !old(self).has_connection_candidate()
                ==> final(self).connection_genes@ == old(self).connection_genes@,
            final(self).connection_genes@ == old(self).connection_genes@
                || exists|x: usize, y: usize| #[trigger] old(self).can_connect_spec(x, y)
                    && final(self).edges() == old(self).edges().insert((x, y)),
    {
        let n = self.node_genes.len();
        let mut candidates: Vec<(usize, usize)> = Vec::new();
        let mut x: usize = 0;
        while x < n
            invariant
                x <= n,
                n == self.node_genes@.len(),
                self == old(self),
                old(self).wf(),
                forall|m: int| 0 <= m < candidates@.len()
                    ==> (#[trigger] candidates@[m]).0 < n && candidates@[m].1 < n
                        && self.node_genes@[candidates@[m].0 as int].kind != NodeKind::Output
                        && self.node_genes@[candidates@[m].1 as int].kind != NodeKind::Input
                        && !self.edges().contains(candidates@[m]),
                forall|x2: usize, y2: usize| x2 < x && y2 < n
                    && self.node_genes@[x2 as int].kind != NodeKind::Output
                    && self.node_genes@[y2 as int].kind != NodeKind::Input
                    && !(#[trigger] self.edges().contains((x2, y2)))
                    ==> candidates@.contains((x2, y2)),
            decreases n - x,
        {
            let from_output = matches!(self.node_genes[x].kind, NodeKind::Output);
            let mut y: usize = 0;
            while y < n
                invariant
                    y <= n,
                    x < n,
                    n == self.node_genes@.len(),
                    self == old(self),
                    old(self).wf(),
                    from_output == (self.node_genes@[x as int].kind == NodeKind::Output),
                    forall|m: int| 0 <= m < candidates@.len()
                        ==> (#[trigger] candidates@[m]).0 < n && candidates@[m].1 < n
                            && self.node_genes@[candidates@[m].0 as int].kind != NodeKind::Output
                            && self.node_genes@[candidates@[m].1 as int].kind != NodeKind::Input
                            && !self.edges().contains(candidates@[m]),
                    forall|x2: usize, y2: usize| x2 < x && y2 < n
                        && self.node_genes@[x2 as int].kind != NodeKind::Output
                        && self.node_genes@[y2 as int].kind != NodeKind::Input
                        && !(#[trigger] self.edges().contains((x2, y2)))
                        ==> candidates@.contains((x2, y2)),
                    forall|y2: usize| y2 < y
                        && self.node_genes@[x as int].kind != NodeKind::Output
                        && self.node_genes@[y2 as int].kind != NodeKind::Input
                        && !(#[trigger] self.edges().contains((x, y2)))
                        ==> candidates@.contains((x, y2)),
                decreases n - y,
            {
                if !from_output {
                    let to_input = matches!(self.node_genes[y].kind, NodeKind::Input);
                    if !to_input {
                        if !self.is_projecting_directly(x, y) {
                            let ghost c0 = candidates@;
                            candidates.push((x, y));
                            proof {
                                assert forall|y2: usize| y2 < y + 1
                                    && self.node_genes@[x as int].kind != NodeKind::Output
                                    && self.node_genes@[y2 as int].kind != NodeKind::Input
                                    && !(#[trigger] self.edges().contains((x, y2)))
                                    implies candidates@.contains((x, y2)) by {
                                    if y2 < y {
                                        let m = choose|m: int| 0 <= m < c0.len() && c0[m] == (x, y2);
                                        assert(candidates@[m] == (x, y2));
                                    } else {
                                        assert(candidates@[candidates@.len() - 1] == (x, y2));
                                    }
                                }
                                assert forall|x2: usize, y2: usize| x2 < x && y2 < n
                                    && self.node_genes@[x2 as int].kind != NodeKind::Output
                                    && self.node_genes@[y2 as int].kind != NodeKind::Input
                                    && !(#[trigger] self.edges().contains((x2, y2)))
                                    implies candidates@.contains((x2, y2)) by {
                                    let m = choose|m: int| 0 <= m < c0.len() && c0[m] == (x2, y2);
                                    assert(candidates@[m] == (x2, y2));
                                }
                            }
                        }
                    }
                }
                y += 1;
            }
            x += 1;
        }
        if candidates.len() == 0 {
            proof {
                if old(self).has_connection_candidate() {
                    let (x2, y2) = choose|x2: usize, y2: usize| x2 < self.node_genes@.len()
                        && y2 < self.node_genes@.len()
                        && self.node_genes@[x2 as int].kind != NodeKind::Output
                        && self.node_genes@[y2 as int].kind != NodeKind::Input
                        && !(#[trigger] self.edges().contains((x2, y2)));
                    assert(candidates@.contains((x2, y2)));
                }
            }
            return;
        }
        let pick = candidates[crate::rng::random_below(candidates.len())];
        let outcome = self.add_connection(pick.0, pick.1, reg);
        proof {
            if outcome is Ok {
                assert(old(self).can_connect_spec(pick.0, pick.1)
                    && self.edges() == old(self).edges().insert((pick.0, pick.1)));
            }
        }
    }

    /// Splits a uniformly drawn enabled connection `u -> v`: disables it,
    /// appends a hidden node `h`, and adds `u -> h` with unit weight and
    /// `h -> v` with the old weight, numbering both from the registry.
    /// A no-op when no connection is enabled.
    pub fn mutate_add_node(&mut self, reg: &mut InnovationRegistry)
        requires
            old(self).wf(),
            old(reg).wf(),
            old(self).consistent_with(old(reg)),
        ensures
            final(self).wf(),
            final(reg).wf(),
            final(self).consistent_with(final(reg)),
            crate::innovation::extends(*final(reg), *old(reg)),
            final(self).same_shape_as(old(self)),
            !old(self).has_enabled_connection()
                ==> final(self).connection_genes@ == old(self).connection_genes@
                    && final(self).node_genes@ == old(self).node_genes@,
            old(self).has_enabled_connection()
                ==> exists|k: int| 0 <= k < old(self).connection_genes@.len()
                    && !(#[trigger] old(self).connection_genes@[k]).disabled
                    && final(self).node_genes@ == old(self).node_genes@.push(
                        (NodeGene {
                            kind: NodeKind::Hidden,
                            bias: 0,
                            activation: ActivationKind::Sigmoid,
                            aggregation: AggregationKind::Sum,
                        }))
                    && final(self).connection_genes@.len() == old(self).connection_genes@.len() + 2
                    && final(self).connection_genes@[k]
                        == (ConnectionGene { disabled: true, ..old(self).connection_genes@[k] })
                    && final(self).connection_genes@[final(self).connection_genes@.len() - 2].from
                        == old(self).connection_genes@[k].from
                    && final(self).connection_genes@[final(self).connection_genes@.len() - 2].to
                        == old(self).node_genes@.len()
                    && final(self).connection_genes@[final(self).connection_genes@.len() - 2].weight
                        == crate::WEIGHT_ONE
                    && final(self).connection_genes@[final(self).connection_genes@.len() - 1].from
                        == old(self).node_genes@.len()
                    && final(self).connection_genes@[final(self).connection_genes@.len() - 1].to
                        == old(self).connection_genes@[k].to
                    && final(self).connection_genes@[final(self).connection_genes@.len() - 1].weight
                        == old(self).connection_genes@[k].weight,
    {
        let mut enabled: Vec<usize> = Vec::new();
        let mut k: usize = 0;
        while k < self.connection_genes.len()
            invariant
                k <= self.connection_genes@.len(),
                self == old(self),
                forall|m: int| 0 <= m < enabled@.len()
                    ==> (#[trigger] enabled@[m]) < self.connection_genes@.len()
                        && !self.connection_genes@[enabled@[m] as int].disabled,
                forall|k2: int| 0 <= k2 < k && !(#[trigger] self.connection_genes@[k2]).disabled
                    ==> enabled@.contains(k2 as usize),
            decreases self.connection_genes@.len() - k,
        {
            if !self.connection_genes[k].disabled {
                let ghost e0 = enabled@;
                enabled.push(k);
                proof {
                    assert forall|k2: int| 0 <= k2 < k + 1
                        && !(#[trigger] self.connection_genes@[k2]).disabled
                        implies enabled@.contains(k2 as usize) by {
                        if k2 < k {
                            let m = choose|m: int| 0 <= m < e0.len() && e0[m] == k2 as usize;
                            assert(enabled@[m] == k2 as usize);
                        } else {
                            assert(enabled@[enabled@.len() - 1] == k2 as usize);
                        }
                    }
                }
            }
            k += 1;
        }
        if enabled.len() == 0 {
            proof {
                if old(self).has_enabled_connection() {
                    let k2 = choose|k2: int| 0 <= k2 < self.connection_genes@.len()
                        && !(#[trigger] self.connection_genes@[k2]).disabled;
                    assert(enabled@.contains(k2 as usize));
                }
            }
            return;
        }
        let chosen = enabled[crate::rng::random_below(enabled.len())];
        let cg = self.connection_genes[chosen];
        let order = self.node_order();
        proof {
            assert(order is Some);
        }
        let ghost vv = (order->Some_0)@;

        let mut candidate = self.duplicate();
        candidate.disable_connection(chosen);
        let h = candidate.add_node();
        let innovation_in = reg.innovation_for(cg.from, h);
        let ghost reg_mid = *reg;
        let innovation_out = reg.innovation_for(h, cg.to);
        let ghost cand0 = candidate.connection_genes@;
        let g_in = ConnectionGene {
            from: cg.from,
            to: h,
            weight: crate::WEIGHT_ONE,
            disabled: false,
            innovation: innovation_in,
        };
        let g_out = ConnectionGene {
            from: h,
            to: cg.to,
            weight: cg.weight,
            disabled: false,
            innovation: innovation_out,
        };
        candidate.connection_genes.push(g_in);
        candidate.connection_genes.push(g_out);
        proof {
            crate::innovation::lemma_extends_trans(*old(reg), reg_mid, *reg);
            let cc = candidate.connection_genes@;
            let oc = old(self).connection_genes@;
            let nn = old(self).node_genes@.len();
            assert(cc.len() == oc.len() + 2);
            assert(candidate.node_genes@.len() == nn + 1);
            assert(h == nn);
            assert(cg == oc[chosen as int]);
            // Validity of every gene in the candidate.
            assert forall|k2: int| 0 <= k2 < cc.len()
                implies (#[trigger] cc[k2]).from < candidate.node_genes@.len()
                    && cc[k2].to < candidate.node_genes@.len()
                    && candidate.node_genes@[cc[k2].from as int].kind != NodeKind::Output
                    && candidate.node_genes@[cc[k2].to as int].kind != NodeKind::Input by {
                if k2 < oc.len() {
                    assert(cc[k2] == cand0[k2]);
                    assert(cand0[k2].from == oc[k2].from && cand0[k2].to == oc[k2].to);
                    assert(candidate.node_genes@[cc[k2].from as int] == old(self).node_genes@[cc[k2].from as int]);
                    assert(candidate.node_genes@[cc[k2].to as int] == old(self).node_genes@[cc[k2].to as int]);
                } else {
                    assert(candidate.node_genes@[h as int].kind == NodeKind::Hidden);
                    if k2 == cc.len() - 2 {
                        assert(cc[k2] == g_in);
                        assert(candidate.node_genes@[cg.from as int] == old(self).node_genes@[cg.from as int]);
                    } else {
                        assert(cc[k2] == g_out);
                        assert(candidate.node_genes@[cg.to as int] == old(self).node_genes@[cg.to as int]);
                    }
                }
            }
            // Unique pairs: the two fresh genes touch the fresh node.
            assert forall|k1: int, k2: int| 0 <= k1 < k2 < cc.len()
                implies !((#[trigger] cc[k1]).from == (#[trigger] cc[k2]).from
                    && cc[k1].to == cc[k2].to) by {
                if k2 < oc.len() {
                    assert(cc[k1].from == oc[k1].from && cc[k1].to == oc[k1].to);
                    assert(cc[k2].from == oc[k2].from && cc[k2].to == oc[k2].to);
                } else if k1 < oc.len() {
                    assert(oc[k1].from < nn && oc[k1].to < nn);
                    assert(cc[k2].from == h || cc[k2].to == h);
                } else {
                    assert(cc[k1] == g_in && cc[k2] == g_out);
                    assert(g_in.from < nn);
                }
            }
            // Consistency with the grown registry.
            assert forall|k2: int| 0 <= k2 < cc.len()
                implies (#[trigger] cc[k2]).innovation < reg.pairs@.len()
                    && reg.pairs@[cc[k2].innovation as int] == (cc[k2].from, cc[k2].to) by {
                if k2 < oc.len() {
                    assert(cc[k2].innovation == oc[k2].innovation
                        && cc[k2].from == oc[k2].from && cc[k2].to == oc[k2].to);
                    assert(oc[k2].innovation < old(reg).pairs@.len());
                    assert(reg.pairs@[oc[k2].innovation as int] == old(reg).pairs@[oc[k2].innovation as int]);
                } else if k2 == cc.len() - 2 {
                    assert(reg_mid.pairs@[innovation_in as int] == (cg.from, h));
                    assert(reg.pairs@[innovation_in as int] == reg_mid.pairs@[innovation_in as int]);
                } else {
                    assert(reg.pairs@[innovation_out as int] == (h, cg.to));
                }
            }
            assert(candidate.values_bounded());
            // Splitting the edge keeps the graph acyclic: insert the fresh
            // node right after its source in the old topological order.
            let es = old(self).edges();
            let es2 = candidate.edges();
            let u = cg.from;
            let v = cg.to;
            assert(es.contains((u, v))) by {
                assert(!old(self).connection_genes@[chosen as int].disabled);
            }
            assert(es2 =~= es.remove((u, v)).insert((u, h)).insert((h, v))) by {
                let oc = old(self).connection_genes@;
                let cc = candidate.connection_genes@;
                assert forall|q: (usize, usize)| es2.contains(q)
                    implies es.remove((u, v)).insert((u, h)).insert((h, v)).contains(q) by {
                    let k2 = choose|k2: int| 0 <= k2 < cc.len() && !(#[trigger] cc[k2]).disabled
                        && cc[k2].from == q.0 && cc[k2].to == q.1;
                    if k2 < oc.len() {
                        assert(k2 != chosen as int);
                        assert(cc[k2] == oc[k2]);
                        assert(!oc[k2].disabled && oc[k2].from == q.0 && oc[k2].to == q.1);
                        assert(q != (u, v));
                    }
                }
                assert forall|q: (usize, usize)|
                    es.remove((u, v)).insert((u, h)).insert((h, v)).contains(q)
                    implies es2.contains(q) by {
                    if q == (u, h) {
                        assert(!cc[cc.len() - 2].disabled);
                    } else if q == (h, v) {
                        assert(!cc[cc.len() - 1].disabled);
                    } else {
                        let k2 = choose|k2: int| 0 <= k2 < oc.len() && !(#[trigger] oc[k2]).disabled
                            && oc[k2].from == q.0 && oc[k2].to == q.1;
                        assert(k2 != chosen as int);
                        assert(cc[k2] == oc[k2]);
                    }
                }
            }
            // Where the source sits in the old order.
            assert(vv.contains(u));
            let p = choose|p: int| 0 <= p < vv.len() && vv[p] == u;
            let vv2 = vv.insert(p + 1, h as usize);
            assert(vv2.len() == vv.len() + 1);
            assert forall|i: int| 0 <= i < vv2.len()
                implies #[trigger] vv2[i]
                    == (if i <= p { vv[i] } else if i == p + 1 { h as usize } else { vv[i - 1] }) by {
            }
            assert(vv2.no_duplicates()) by {
                assert forall|i: int, j: int|
                    0 <= i < vv2.len() && 0 <= j < vv2.len() && i != j
                    implies vv2[i] != vv2[j] by {
                    if i != p + 1 && j != p + 1 {
                        let i0 = if i <= p { i } else { i - 1 };
                        let j0 = if j <= p { j } else { j - 1 };
                        assert(vv2[i] == vv[i0] && vv2[j] == vv[j0]);
                    } else {
                        let m0 = if i == p + 1 { if j <= p { j } else { j - 1 } }
                            else { if i <= p { i } else { i - 1 } };
                        assert(vv[m0] < old(self).node_genes@.len());
                    }
                }
            }
            assert forall|x: usize, y: usize| #[trigger] es2.contains((x, y))
                implies crate::graph::edge_ordered(vv2, x, y) by {
                if x == u && y == h {
                    assert(vv2[p] == u && vv2[p + 1] == h as usize);
                    assert(0 <= p < p + 1 < vv2.len());
                } else if x == h && y == v {
                    assert(es.contains((u, v)));
                    assert(crate::graph::edge_ordered(vv, u, v));
                    let (i, j) = choose|i: int, j: int| 0 <= i < j < vv.len()
                        && vv[i] == u && vv[j] == v;
                    assert(i == p) by {
                        if i != p {
                            assert(vv[i] == vv[p]);
                        }
                    }
                    assert(vv2[p + 1] == h as usize && vv2[j + 1] == v);
                    assert(0 <= p + 1 < j + 1 < vv2.len());
                } else {
                    assert(es.contains((x, y)));
                    assert(crate::graph::edge_ordered(vv, x, y));
                    let (i, j) = choose|i: int, j: int| 0 <= i < j < vv.len()
                        && vv[i] == x && vv[j] == y;
                    let i2 = if i <= p { i } else { i + 1 };
                    let j2 = if j <= p { j } else { j + 1 };
                    assert(vv2[i2] == x && vv2[j2] == y);
                    assert(0 <= i2 < j2 < vv2.len());
                }
            }
            crate::graph::lemma_order_excludes_cycle(vv2, es2);
            assert(!crate::graph::has_cycle(es2));
            assert(candidate.connection_genes@[chosen as int]
                == (ConnectionGene { disabled: true, ..old(self).connection_genes@[chosen as int] }));
            // The witness for the split shape is the chosen gene.
            assert(0 <= chosen < old(self).connection_genes@.len()
                && !old(self).connection_genes@[chosen as int].disabled);
            assert(candidate.node_genes@ == old(self).node_genes@.push(
                NodeGene {
                    kind: NodeKind::Hidden,
                    bias: 0,
                    activation: ActivationKind::Sigmoid,
                    aggregation: AggregationKind::Sum,
                }));
            assert(candidate.connection_genes@.len() == old(self).connection_genes@.len() + 2);
        }
        *self = candidate;
    }

    /// Indices of all connection genes (targets for the weight operators).
    fn connection_indices(&self) -> (r: Vec<usize>)
        ensures
            r@.len() == self.connection_genes@.len(),
            forall|m: int| 0 <= m < r@.len() ==> (#[trigger] r@[m]) == m,
    {
        let mut r: Vec<usize> = Vec::new();
        let mut k: usize = 0;
        while k < self.connection_genes.len()
            invariant
                k <= self.connection_genes@.len(),
                r@.len() == k,
                forall|m: int| 0 <= m < r@.len() ==> (#[trigger] r@[m]) == m,
            decreases self.connection_genes@.len() - k,
        {
            r.push(k);
            k += 1;
        }
        r
    }

    /// Replaces the weight of connection `k` with `w`, clamped to the limit.
    fn set_connection_weight(&mut self, k: usize, w: i64)
        requires
            old(self).wf(),
            k < old(self).connection_genes@.len(),
        ensures
            final(self).wf(),
            final(self).same_shape_as(old(self)),
            final(self).node_genes@ == old(self).node_genes@,
            final(self).connection_genes@ == old(self).connection_genes@.update(
                k as int,
                (ConnectionGene {
                    weight: crate::spec_clamp_weight(w),
                    ..old(self).connection_genes@[k as int]
                }),
            ),
    {
        let mut g = self.connection_genes[k];
        g.weight = crate::clamp_weight(w);
        self.connection_genes[k] = g;
        proof {
            let oldc = old(self).connection_genes@;
            let newc = self.connection_genes@;
            assert(self.edges() =~= old(self).edges()) by {
                assert forall|q: (usize, usize)| self.edges().contains(q)
                    implies old(self).edges().contains(q) by {
                    let k2 = choose|k2: int| 0 <= k2 < newc.len()
                        && !(#[trigger] newc[k2]).disabled
                        && newc[k2].from == q.0 && newc[k2].to == q.1;
                    assert(!oldc[k2].disabled && oldc[k2].from == q.0 && oldc[k2].to == q.1);
                }
                assert forall|q: (usize, usize)| old(self).edges().contains(q)
                    implies self.edges().contains(q) by {
                    let k2 = choose|k2: int| 0 <= k2 < oldc.len()
                        && !(#[trigger] oldc[k2]).disabled
                        && oldc[k2].from == q.0 && oldc[k2].to == q.1;
                    assert(!newc[k2].disabled && newc[k2].from == q.0 && newc[k2].to == q.1);
                }
            }
        }
    }

    /// Nudges the weight of a uniformly drawn connection by at most the
    /// configured perturbation; a no-op on a genome without connections.
    pub fn mutate_weight_perturb(&mut self, config: &Configuration)
        requires
            old(self).wf(),
            config.wf(),
        ensures
            final(self).wf(),
            final(self).same_shape_as(old(self)),
            final(self).node_genes@ == old(self).node_genes@,
            old(self).connection_genes@.len() == 0
                ==> final(self).connection_genes@ == old(self).connection_genes@,
            final(self).connection_genes@.len() == old(self).connection_genes@.len(),
            forall|k: int| 0 <= k < final(self).connection_genes@.len()
                ==> (ConnectionGene { weight: 0, ..#[trigger] final(self).connection_genes@[k] })
                    == (ConnectionGene { weight: 0, ..old(self).connection_genes@[k] }),
            old(self).connection_genes@.len() > 0
                ==> exists|k: int|
                    #![trigger old(self).connection_genes@[k]]
                    0 <= k < old(self).connection_genes@.len()
                    && final(self).connection_genes@ == old(self).connection_genes@.update(
                        k,
                        (ConnectionGene {
                            weight: final(self).connection_genes@[k].weight,
                            ..old(self).connection_genes@[k]
                        }),
                    )
                    && -config.weight_perturbation
                        <= final(self).connection_genes@[k].weight
                            - old(self).connection_genes@[k].weight
                        <= config.weight_perturbation,
    {
        if self.connection_genes.len() == 0 {
            return;
        }
        let k = crate::rng::random_below(self.connection_genes.len());
        let delta = crate::rng::random_within(config.weight_perturbation);
        let g = self.connection_genes[k];
        proof {
            assert(-crate::WEIGHT_LIMIT <= g.weight <= crate::WEIGHT_LIMIT);
        }
        self.set_connection_weight(k, g.weight + delta);
        proof {
            assert(self.connection_genes@ == old(self).connection_genes@.update(
                k as int,
                (ConnectionGene {
                    weight: self.connection_genes@[k as int].weight,
                    ..old(self).connection_genes@[k as int]
                }),
            ));
            assert(-config.weight_perturbation
                <= self.connection_genes@[k as int].weight
                    - old(self).connection_genes@[k as int].weight
                <= config.weight_perturbation);
        }
    }

    /// Replaces the weight of a uniformly drawn connection with a fresh
    /// draw within one unit of zero; a no-op without connections.
    pub fn mutate_weight_replace(&mut self)
        requires
            old(self).wf(),
        ensures
            final(self).wf(),
            final(self).same_shape_as(old(self)),
            final(self).node_genes@ == old(self).node_genes@,
            old(self).connection_genes@.len() == 0
                ==> final(self).connection_genes@ == old(self).connection_genes@,
            final(self).connection_genes@.len() == old(self).connection_genes@.len(),
            forall|k: int| 0 <= k < final(self).connection_genes@.len()
                ==> (ConnectionGene { weight: 0, ..#[trigger] final(self).connection_genes@[k] })
                    == (ConnectionGene { weight: 0, ..old(self).connection_genes@[k] }),
            old(self).connection_genes@.len() > 0
                ==> exists|k: int|
                    #![trigger old(self).connection_genes@[k]]
                    0 <= k < old(self).connection_genes@.len()
                    && final(self).connection_genes@ == old(self).connection_genes@.update(
                        k,
                        (ConnectionGene {
                            weight: final(self).connection_genes@[k].weight,
                            ..old(self).connection_genes@[k]
                        }),
                    )
                    && -crate::WEIGHT_ONE <= final(self).connection_genes@[k].weight
                        <= crate::WEIGHT_ONE,
    {
        if self.connection_genes.len() == 0 {
            return;
        }
        let k = crate::rng::random_below(self.connection_genes.len());
        let w = crate::rng::random_weight();
        self.set_connection_weight(k, w);
        proof {
            assert(self.connection_genes@ == old(self).connection_genes@.update(
                k as int,
                (ConnectionGene {
                    weight: self.connection_genes@[k as int].weight,
                    ..old(self).connection_genes@[k as int]
                }),
            ));
            assert(-crate::WEIGHT_ONE <= self.connection_genes@[k as int].weight
                <= crate::WEIGHT_ONE);
        }
    }

    /// Indices of the nodes that are not inputs.
    fn non_input_nodes(&self) -> (r: Vec<usize>)
        ensures
            forall|m: int| 0 <= m < r@.len()
                ==> (#[trigger] r@[m]) < self.node_genes@.len()
                    && self.node_genes@[r@[m] as int].kind != NodeKind::Input,
            r@.len() == 0 ==> !self.has_non_input_node(),
    {
        let mut r: Vec<usize> = Vec::new();
        let mut p: usize = 0;
        while p < self.node_genes.len()
            invariant
                p <= self.node_genes@.len(),
                forall|m: int| 0 <= m < r@.len()
                    ==> (#[trigger] r@[m]) < self.node_genes@.len()
                        && self.node_genes@[r@[m] as int].kind != NodeKind::Input,
                forall|q: int| 0 <= q < p && (#[trigger] self.node_genes@[q]).kind != NodeKind::Input
                    ==> r@.len() > 0,
            decreases self.node_genes@.len() - p,
        {
            if !matches!(self.node_genes[p].kind, NodeKind::Input) {
                r.push(p);
            }
            p += 1;
        }
        r
    }

    /// Replaces node `p` with the given gene, keeping the graph shape.
    fn set_node_gene(&mut self, p: usize, g: NodeGene)
        requires
            old(self).wf(),
            p < old(self).node_genes@.len(),
            g.kind == old(self).node_genes@[p as int].kind,
            -crate::WEIGHT_LIMIT <= g.bias <= crate::WEIGHT_LIMIT,
        ensures
            final(self).wf(),
            final(self).same_shape_as(old(self)),
            final(self).connection_genes@ == old(self).connection_genes@,
            final(self).node_genes@ == old(self).node_genes@.update(p as int, g),
    {
        self.node_genes[p] = g;
        proof {
            assert forall|k: int| 0 <= k < self.connection_genes@.len()
                implies (#[trigger] self.connection_genes@[k]).from < self.node_genes@.len()
                    && self.connection_genes@[k].to < self.node_genes@.len()
                    && self.node_genes@[self.connection_genes@[k].from as int].kind != NodeKind::Output
                    && self.node_genes@[self.connection_genes@[k].to as int].kind != NodeKind::Input by {
                let c = self.connection_genes@[k];
                assert(old(self).node_genes@[c.from as int].kind != NodeKind::Output);
                assert(old(self).node_genes@[c.to as int].kind != NodeKind::Input);
                assert(self.node_genes@[c.from as int].kind == old(self).node_genes@[c.from as int].kind);
                assert(self.node_genes@[c.to as int].kind == old(self).node_genes@[c.to as int].kind);
            }
        }
    }

    /// Nudges the bias of a uniformly drawn non-input node by at most the
    /// configured perturbation; a no-op when every node is an input.
    pub fn mutate_bias_perturb(&mut self, config: &Configuration)
        requires
            old(self).wf(),
            config.wf(),
        ensures
            final(self).wf(),
            final(self).same_shape_as(old(self)),
            final(self).connection_genes@ == old(self).connection_genes@,
            !old(self).has_non_input_node()
                ==> final(self).node_genes@ == old(self).node_genes@,
            final(self).node_genes@.len() == old(self).node_genes@.len(),
            forall|p: int| 0 <= p < final(self).node_genes@.len()
                ==> (NodeGene { bias: 0, ..#[trigger] final(self).node_genes@[p] })
                    == (NodeGene { bias: 0, ..old(self).node_genes@[p] }),
            old(self).has_non_input_node()
                ==> exists|p: int|
                    #![trigger old(self).node_genes@[p]]
                    0 <= p < old(self).node_genes@.len()
                    && old(self).node_genes@[p].kind != NodeKind::Input
                    && final(self).node_genes@ == old(self).node_genes@.update(
                        p,
                        (NodeGene {
                            bias: final(self).node_genes@[p].bias,
                            ..old(self).node_genes@[p]
                        }),
                    )
                    && -config.bias_perturbation
                        <= final(self).node_genes@[p].bias - old(self).node_genes@[p].bias
                        <= config.bias_perturbation,
    {
        let targets = self.non_input_nodes();
        if targets.len() == 0 {
            return;
        }
        let p = targets[crate::rng::random_below(targets.len())];
        let delta = crate::rng::random_within(config.bias_perturbation);
        let mut g = self.node_genes[p];
        proof {
            assert(-crate::WEIGHT_LIMIT <= g.bias <= crate::WEIGHT_LIMIT);
        }
        g.bias = crate::clamp_weight(g.bias + delta);
        self.set_node_gene(p, g);
        proof {
            assert(self.node_genes@ == old(self).node_genes@.update(
                p as int,
                (NodeGene {
                    bias: self.node_genes@[p as int].bias,
                    ..old(self).node_genes@[p as int]
                }),
            ));
            assert(-config.bias_perturbation
                <= self.node_genes@[p as int].bias - old(self).node_genes@[p as int].bias
                <= config.bias_perturbation);
        }
    }

    /// Replaces the bias of a uniformly drawn non-input node with a fresh
    /// draw within one unit of zero; a no-op when every node is an input.
    pub fn mutate_bias_replace(&mut self)
        requires
            old(self).wf(),
        ensures
            final(self).wf(),
            final(self).same_shape_as(old(self)),
            final(self).connection_genes@ == old(self).connection_genes@,
            !old(self).has_non_input_node()
                ==> final(self).node_genes@ == old(self).node_genes@,
            final(self).node_genes@.len() == old(self).node_genes@.len(),
            forall|p: int| 0 <= p < final(self).node_genes@.len()
                ==> (NodeGene { bias: 0, ..#[trigger] final(self).node_genes@[p] })
                    == (NodeGene { bias: 0, ..old(self).node_genes@[p] }),
            old(self).has_non_input_node()
                ==> exists|p: int|
                    #![trigger old(self).node_genes@[p]]
                    0 <= p < old(self).node_genes@.len()
                    && old(self).node_genes@[p].kind != NodeKind::Input
                    && final(self).node_genes@ == old(self).node_genes@.update(
                        p,
                        (NodeGene {
                            bias: final(self).node_genes@[p].bias,
                            ..old(self).node_genes@[p]
                        }),
                    )
                    && -crate::WEIGHT_ONE <= final(self).node_genes@[p].bias <= crate::WEIGHT_ONE,
    {
        let targets = self.non_input_nodes();
        if targets.len() == 0 {
            return;
        }
        let p = targets[crate::rng::random_below(targets.len())];
        let mut g = self.node_genes[p];
        g.bias = crate::rng::random_weight();
        self.set_node_gene(p, g);
        proof {
            assert(self.node_genes@ == old(self).node_genes@.update(
                p as int,
                (NodeGene {
                    bias: self.node_genes@[p as int].bias,
                    ..old(self).node_genes@[p as int]
                }),
            ));
        }
    }

    /// Disables a uniformly drawn enabled connection; a no-op when none
    /// is enabled.
    pub fn mutate_disable_connection(&mut self)
        requires
            old(self).wf(),
        ensures
            final(self).wf(),
            final(self).same_shape_as(old(self)),
            final(self).node_genes@ == old(self).node_genes@,
            !old(self).has_enabled_connection()
                ==> final(self).connection_genes@ == old(self).connection_genes@,
            final(self).connection_genes@ == old(self).connection_genes@
                || exists|k: int| 0 <= k < old(self).connection_genes@.len()
                    && !(#[trigger] old(self).connection_genes@[k]).disabled
                    && final(self).connection_genes@ == old(self).connection_genes@.update(
                        k,
                        ConnectionGene { disabled: true, ..old(self).connection_genes@[k] },
                    ),
    {
        let mut enabled: Vec<usize> = Vec::new();
        let mut k: usize = 0;
        while k < self.connection_genes.len()
            invariant
                k <= self.connection_genes@.len(),
                self == old(self),
                forall|m: int| 0 <= m < enabled@.len()
                    ==> (#[trigger] enabled@[m]) < self.connection_genes@.len()
                        && !self.connection_genes@[enabled@[m] as int].disabled,
                forall|k2: int| 0 <= k2 < k && !(#[trigger] self.connection_genes@[k2]).disabled
                    ==> enabled@.len() > 0,
            decreases self.connection_genes@.len() - k,
        {
            if !self.connection_genes[k].disabled {
                enabled.push(k);
            }
            k += 1;
        }
        if enabled.len() == 0 {
            return;
        }
        let chosen = enabled[crate::rng::random_below(enabled.len())];
        self.disable_connection(chosen);
    }

    /// Resamples the activation tag of a uniformly drawn non-input node;
    /// a no-op when every node is an input.
    pub fn mutate_change_activation(&mut self)
        requires
            old(self).wf(),
        ensures
            final(self).wf(),
            final(self).same_shape_as(old(self)),
            final(self).connection_genes@ == old(self).connection_genes@,
            !old(self).has_non_input_node()
                ==> final(self).node_genes@ == old(self).node_genes@,
            final(self).node_genes@.len() == old(self).node_genes@.len(),
            forall|p: int| 0 <= p < final(self).node_genes@.len()
                ==> (NodeGene { activation: ActivationKind::Identity, ..#[trigger] final(self).node_genes@[p] })
                    == (NodeGene { activation: ActivationKind::Identity, ..old(self).node_genes@[p] }),
            old(self).has_non_input_node()
                ==> exists|p: int|
                    #![trigger old(self).node_genes@[p]]
                    0 <= p < old(self).node_genes@.len()
                    && old(self).node_genes@[p].kind != NodeKind::Input
                    && final(self).node_genes@ == old(self).node_genes@.update(
                        p,
                        (NodeGene {
                            activation: final(self).node_genes@[p].activation,
                            ..old(self).node_genes@[p]
                        }),
                    ),
    {
        let targets = self.non_input_nodes();
        if targets.len() == 0 {
            return;
        }
        let p = targets[crate::rng::random_below(targets.len())];
        let roll = crate::rng::random_below(4);
        let tag = if roll == 0 {
            ActivationKind::Identity
        } else if roll == 1 {
            ActivationKind::Sigmoid
        } else if roll == 2 {
            ActivationKind::Tanh
        } else {
            ActivationKind::Relu
        };
        let mut g = self.node_genes[p];
        g.activation = tag;
        self.set_node_gene(p, g);
        proof {
            assert(self.node_genes@ == old(self).node_genes@.update(
                p as int,
                (NodeGene {
                    activation: self.node_genes@[p as int].activation,
                    ..old(self).node_genes@[p as int]
                }),
            ));
        }
    }

    /// Resamples the aggregation tag of a uniformly drawn non-input node;
    /// a no-op when every node is an input.
    pub fn mutate_change_aggregation(&mut self)
        requires
            old(self).wf(),
        ensures
            final(self).wf(),
            final(self).same_shape_as(old(self)),
            final(self).connection_genes@ == old(self).connection_genes@,
            !old(self).has_non_input_node()
                ==> final(self).node_genes@ == old(self).node_genes@,
            final(self).node_genes@.len() == old(self).node_genes@.len(),
            forall|p: int| 0 <= p < final(self).node_genes@.len()
                ==> (NodeGene { aggregation: AggregationKind::Sum, ..#[trigger] final(self).node_genes@[p] })
                    == (NodeGene { aggregation: AggregationKind::Sum, ..old(self).node_genes@[p] }),
            old(self).has_non_input_node()
                ==> exists|p: int|
                    #![trigger old(self).node_genes@[p]]
                    0 <= p < old(self).node_genes@.len()
                    && old(self).node_genes@[p].kind != NodeKind::Input
                    && final(self).node_genes@ == old(self).node_genes@.update(
                        p,
                        (NodeGene {
                            aggregation: final(self).node_genes@[p].aggregation,
                            ..old(self).node_genes@[p]
                        }),
                    ),
    {
        let targets = self.non_input_nodes();
        if targets.len() == 0 {
            return;
        }
        let p = targets[crate::rng::random_below(targets.len())];
        let roll = crate::rng::random_below(5);
        let tag = if roll == 0 {
            AggregationKind::Sum
        } else if roll == 1 {
            AggregationKind::Product
        } else if roll == 2 {
            AggregationKind::Max
        } else if roll == 3 {
            AggregationKind::Min
        } else {
            AggregationKind::Mean
        };
        let mut g = self.node_genes[p];
        g.aggregation = tag;
        self.set_node_gene(p, g);
        proof {
            assert(self.node_genes@ == old(self).node_genes@.update(
                p as int,
                (NodeGene {
                    aggregation: self.node_genes@[p as int].aggregation,
                    ..old(self).node_genes@[p as int]
                }),
            ));
        }
    }

    /// Applies one mutation operator of the given kind, best-effort: on a
    /// genome without a valid target for that kind, the genome is
    /// unchanged.
    pub fn mutate(&mut self, kind: MutationKind, reg: &mut InnovationRegistry, config: &Configuration)
        requires
            old(self).wf(),
            old(reg).wf(),
            old(self).consistent_with(old(reg)),
            config.wf(),
        ensures
            final(self).wf(),
            final(reg).wf(),
            final(self).consistent_with(final(reg)),
            crate::innovation::extends(*final(reg), *old(reg)),
            final(self).same_shape_as(old(self)),
            old(self).layout_wf() ==> final(self).layout_wf(),
            kind == MutationKind::AddConnection && !old(self).has_connection_candidate()
                ==> final(self).connection_genes@ == old(self).connection_genes@
                    && final(self).node_genes@ == old(self).node_genes@,
            kind == MutationKind::AddNode && !old(self).has_enabled_connection()
                ==> final(self).connection_genes@ == old(self).connection_genes@
                    && final(self).node_genes@ == old(self).node_genes@,
            (kind == MutationKind::WeightPerturb || kind == MutationKind::WeightReplace)
                && old(self).connection_genes@.len() == 0
                ==> final(self).connection_genes@ == old(self).connection_genes@
                    && final(self).node_genes@ == old(self).node_genes@,
            kind == MutationKind::DisableConnection && !old(self).has_enabled_connection()
                ==> final(self).connection_genes@ == old(self).connection_genes@
                    && final(self).node_genes@ == old(self).node_genes@,
            (kind == MutationKind::BiasPerturb || kind == MutationKind::BiasReplace
                    || kind == MutationKind::ChangeActivation || kind == MutationKind::ChangeAggregation)
                && !old(self).has_non_input_node()
                ==> final(self).connection_genes@ == old(self).connection_genes@
                    && final(self).node_genes@ == old(self).node_genes@,
    {
        match kind {
            MutationKind::AddConnection => self.mutate_add_connection(reg),
            MutationKind::AddNode => self.mutate_add_node(reg),
            MutationKind::WeightPerturb => self.mutate_weight_perturb(config),
            MutationKind::WeightReplace => self.mutate_weight_replace(),
            MutationKind::BiasPerturb => self.mutate_bias_perturb(config),
            MutationKind::BiasReplace => self.mutate_bias_replace(),
            MutationKind::DisableConnection => self.mutate_disable_connection(),
            MutationKind::ChangeActivation => self.mutate_change_activation(),
            MutationKind::ChangeAggregation => self.mutate_change_aggregation(),
        }
        proof {
            if old(self).layout_wf() {
                let on = old(self).node_genes@;
                let nn = self.node_genes@;
                if nn == on {
                } else if nn.len() == on.len() {
                    // Only biases or tags changed: kinds are untouched.
                    assert forall|p: int| 0 <= p < nn.len()
                        implies (#[trigger] nn[p]).kind == on[p].kind by {
                        assert(0 <= p < self.node_genes@.len());
                    }
                    assert(self.layout_wf());
                } else {
                    // A split appended one hidden node at the end.
                    assert(nn == on.push(NodeGene {
                        kind: NodeKind::Hidden,
                        bias: 0,
                        activation: ActivationKind::Sigmoid,
                        aggregation: AggregationKind::Sum,
                    }));
                    assert forall|p: int| 0 <= p < nn.len()
                        implies (#[trigger] nn[p]).kind == (if p < self.inputs {
                            NodeKind::Input
                        } else if p < self.inputs + self.outputs {
                            NodeKind::Output
                        } else {
                            NodeKind::Hidden
                        }) by {
                        if p < on.len() {
                            assert(nn[p] == on[p]);
                        }
                    }
                    assert(self.layout_wf());
                }
            }
        }
    }
}

} // verus!
