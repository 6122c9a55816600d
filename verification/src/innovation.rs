//! The innovation registry: a run-wide memo assigning one stable number to
//! each structural pair `(from, to)` ever created.

use vstd::prelude::*;

verus! {

/// The registry is the list of pairs in the order their numbers were
/// issued; the innovation number of a pair is its index.
pub struct InnovationRegistry {
    pub pairs: Vec<(usize, usize)>,
}

impl InnovationRegistry {
    /// Entries are never repeated, so each pair has exactly one number.
    pub open spec fn wf(&self) -> bool {
        self.pairs@.no_duplicates()
    }

    /// An empty registry.
    pub fn new() -> (r: InnovationRegistry)
        ensures
            r.wf(),
            r.pairs@.len() == 0,
    {
        InnovationRegistry { pairs: Vec::new() }
    }

    /// A registry pre-seeded with the pairs of a fully-connected network of
    /// `inputs` inputs and `outputs` outputs, in the order `Genome::new`
    /// numbers them: pair `(i, inputs + j)` holds number `i * outputs + j`.
    pub fn seeded(inputs: usize, outputs: usize) -> (r: InnovationRegistry)
        requires
            inputs + outputs <= usize::MAX,
            inputs * outputs <= usize::MAX,
        ensures
            r.wf(),
            r.pairs@.len() == inputs * outputs,
            forall|k: int| 0 <= k < r.pairs@.len()
                ==> (#[trigger] r.pairs@[k]).0 as int == k / (outputs as int)
                    && r.pairs@[k].1 as int == inputs + k % (outputs as int),
    {
        let mut pairs: Vec<(usize, usize)> = Vec::new();
        let mut i: usize = 0;
        while i < inputs
            invariant
                i <= inputs,
                inputs + outputs <= usize::MAX,
                inputs * outputs <= usize::MAX,
                pairs@.len() == i * outputs,
                forall|k: int| 0 <= k < pairs@.len()
                    ==> (#[trigger] pairs@[k]).0 as int == k / (outputs as int)
                        && pairs@[k].1 as int == inputs + k % (outputs as int),
            decreases inputs - i,
        {
            let mut j: usize = 0;
            proof {
                assert(i * outputs + outputs <= inputs * outputs) by (nonlinear_arith)
                    requires i < inputs, 0 <= outputs,
                {}
            }
            while j < outputs
                invariant
                    j <= outputs,
                    i < inputs,
                    inputs + outputs <= usize::MAX,
                    inputs * outputs <= usize::MAX,
                    i * outputs + outputs <= inputs * outputs,
                    pairs@.len() == i * outputs + j,
                    forall|k: int| 0 <= k < pairs@.len()
                        ==> (#[trigger] pairs@[k]).0 as int == k / (outputs as int)
                            && pairs@[k].1 as int == inputs + k % (outputs as int),
                decreases outputs - j,
            {
                proof {
                    assert((i * outputs + j) / (outputs as int) == i as int
                        && (i * outputs + j) % (outputs as int) == j as int) by (nonlinear_arith)
                        requires 0 <= j < outputs, 0 <= i,
                    {}
                }
                pairs.push((i, inputs + j));
                j += 1;
            }
            proof {
                assert((i + 1) * outputs == i * outputs + outputs) by (nonlinear_arith) {}
            }
            i += 1;
        }
        proof {
            assert forall|k1: int, k2: int|
                0 <= k1 < pairs@.len() && 0 <= k2 < pairs@.len() && k1 != k2
                implies pairs@[k1] != pairs@[k2] by {
                assert(outputs as int * (k1 / (outputs as int)) + k1 % (outputs as int) == k1) by (nonlinear_arith)
                    requires outputs > 0,
                {}
                assert(outputs as int * (k2 / (outputs as int)) + k2 % (outputs as int) == k2) by (nonlinear_arith)
                    requires outputs > 0,
                {}
            }
        }
        InnovationRegistry { pairs }
    }

    /// The innovation number of `(from, to)`: the number already on record,
    /// or a fresh one, recorded now, if the pair is new.
    pub fn innovation_for(&mut self, from: usize, to: usize) -> (r: u64)
        requires
            old(self).wf(),
        ensures
            final(self).wf(),
            r < final(self).pairs@.len(),
            final(self).pairs@[r as int] == (from, to),
            old(self).pairs@.contains((from, to)) ==> final(self).pairs@ == old(self).pairs@,
            !old(self).pairs@.contains((from, to))
                ==> final(self).pairs@ == old(self).pairs@.push((from, to))
                    && r == old(self).pairs@.len(),
            forall|k: int| 0 <= k < old(self).pairs@.len()
                ==> #[trigger] final(self).pairs@[k] == old(self).pairs@[k],
            extends(*final(self), *old(self)),
    {
        let mut k: usize = 0;
        while k < self.pairs.len()
            invariant
                k <= self.pairs@.len(),
                self == old(self),
                old(self).wf(),
                forall|m: int| 0 <= m < k ==> #[trigger] self.pairs@[m] != (from, to),
            decreases self.pairs@.len() - k,
        {
            let (a, b) = self.pairs[k];
            if a == from && b == to {
                return k as u64;
            }
            k += 1;
        }
        proof {
            assert(!self.pairs@.contains((from, to)));
        }
        self.pairs.push((from, to));
        proof {
            assert forall|k1: int, k2: int|
                0 <= k1 < self.pairs@.len() && 0 <= k2 < self.pairs@.len() && k1 != k2
                implies self.pairs@[k1] != self.pairs@[k2] by {
                if k1 < self.pairs@.len() - 1 && k2 < self.pairs@.len() - 1 {
                    assert(old(self).pairs@[k1] != old(self).pairs@[k2]);
                } else if k1 == self.pairs@.len() - 1 {
                    assert(old(self).pairs@[k2] != (from, to));
                } else {
                    assert(old(self).pairs@[k1] != (from, to));
                }
            }
        }
        (self.pairs.len() - 1) as u64
    }
}

/// `new` carries every entry of `old`, in place, and possibly more.
pub open spec fn extends(new: InnovationRegistry, old: InnovationRegistry) -> bool {
    &&& new.pairs@.len() >= old.pairs@.len()
    &&& forall|k: int| 0 <= k < old.pairs@.len() ==> #[trigger] new.pairs@[k] == old.pairs@[k]
}

pub proof fn lemma_extends_trans(a: InnovationRegistry, b: InnovationRegistry, c: InnovationRegistry)
    requires
        extends(c, b),
        extends(b, a),
    ensures
        extends(c, a),
{
}

/// Law: within one registry, innovation numbers and structural pairs
/// determine each other — equal pairs have equal numbers and equal
/// numbers belong to equal pairs.
pub proof fn lemma_innovation_unique(reg: InnovationRegistry, k1: int, k2: int)
    requires
        reg.wf(),
        0 <= k1 < reg.pairs@.len(),
        0 <= k2 < reg.pairs@.len(),
    ensures
        reg.pairs@[k1] == reg.pairs@[k2] <==> k1 == k2,
{
}

} // verus!
