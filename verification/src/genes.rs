//! Node and connection genes: the atoms a genome is made of.

use vstd::prelude::*;

verus! {

/// Role of a node in the network.
#[derive(Clone, Copy, Debug, PartialEq, Eq, Structural)]
pub enum NodeKind {
    Input,
    Hidden,
    Output,
}

/// Activation function tag; the network collaborator interprets it.
#[derive(Clone, Copy, Debug, PartialEq, Eq, Structural)]
pub enum ActivationKind {
    Identity,
    Sigmoid,
    Tanh,
    Relu,
}

/// Aggregation function tag; the network collaborator interprets it.
#[derive(Clone, Copy, Debug, PartialEq, Eq, Structural)]
pub enum AggregationKind {
    Sum,
    Product,
    Max,
    Min,
    Mean,
}

/// A node gene. The bias is a fixed-point value in thousandths.
#[derive(Clone, Copy, Debug, PartialEq, Eq, Structural)]
pub struct NodeGene {
    pub kind: NodeKind,
    pub bias: i64,
    pub activation: ActivationKind,
    pub aggregation: AggregationKind,
}

impl NodeGene {
    /// A fresh node of the given kind with the default tags and zero bias.
    pub fn new(kind: NodeKind) -> (r: NodeGene)
        ensures
            r.kind == kind,
            r.bias == 0,
            r.activation == ActivationKind::Sigmoid,
            r.aggregation == AggregationKind::Sum,
    {
        NodeGene { kind, bias: 0, activation: ActivationKind::Sigmoid, aggregation: AggregationKind::Sum }
    }
}

/// A connection gene. The weight is a fixed-point value in thousandths;
/// `innovation` is the historical marking issued by the innovation registry.
#[derive(Clone, Copy, Debug, PartialEq, Eq, Structural)]
pub struct ConnectionGene {
    pub from: usize,
    pub to: usize,
    pub weight: i64,
    pub disabled: bool,
    pub innovation: u64,
}

impl ConnectionGene {
    /// A fresh enabled connection with a weight of one whole unit.
    pub fn new(from: usize, to: usize, innovation: u64) -> (r: ConnectionGene)
        ensures
            r.from == from,
            r.to == to,
            r.weight == crate::WEIGHT_ONE,
            !r.disabled,
            r.innovation == innovation,
    {
        ConnectionGene { from, to, weight: crate::WEIGHT_ONE, disabled: false, innovation }
    }

    pub fn innovation_number(&self) -> (r: u64)
        ensures
            r == self.innovation,
    {
        self.innovation
    }
}

} // verus!
