use vstd::prelude::*;

use crate::vecset::Gene;
use crate::NodeType;

verus! {

/// Encoding for a node of a network. Coordinates are fixed-point values in
/// thousandths, both within `0..=1000`; they order nodes left to right for
/// the add-connection operator. A node gene is immutable once created.
#[derive(Clone, Copy, Debug, PartialEq, Eq, Structural)]
pub struct NodeGene {
    pub node_type: NodeType,
    pub innovation_number: u64,
    pub x: u64,
    pub y: u64,
}

impl Gene for NodeGene {
    open spec fn marker(&self) -> u64 {
        self.innovation_number
    }

    fn get_innov(&self) -> (r: u64) {
        self.innovation_number
    }
}

impl NodeGene {
    /// Constructs a fully specified node gene.
    pub fn new(node_type: NodeType, innovation_number: u64, x: u64, y: u64) -> (r: NodeGene)
        ensures
            r.node_type() == node_type,
            r.marker() == innovation_number,
            r.x() == x,
            r.y() == y,
    {
        NodeGene { node_type, innovation_number, x, y }
    }

    pub open spec fn node_type(&self) -> NodeType {
        self.node_type
    }

    pub open spec fn x(&self) -> u64 {
        self.x
    }

    pub open spec fn y(&self) -> u64 {
        self.y
    }

    pub fn get_nodetype(&self) -> (r: NodeType)
        ensures
            r == self.node_type(),
    {
        self.node_type
    }

    pub fn get_x(&self) -> (r: u64)
        ensures
            r == self.x(),
    {
        self.x
    }

    pub fn get_y(&self) -> (r: u64)
        ensures
            r == self.y(),
    {
        self.y
    }
}

} // verus!
