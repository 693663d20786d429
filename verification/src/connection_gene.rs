use vstd::prelude::*;

use crate::config::MAX_NODES;
use crate::rng::rand_weight;
use crate::vecset::Gene;

verus! {

/// Encoding for a directed connection between two nodes. The identity
/// (marker and endpoints) is immutable; the weight (thousandths) and the
/// enabled flag may change over a genome's lifetime.
#[derive(Clone, Copy, Debug, PartialEq, Eq, Structural)]
pub struct ConnectionGene {
    pub innovation_number: u64,
    pub weight: i64,
    pub enabled: bool,
    pub from: u64,
    pub to: u64,
}

impl Gene for ConnectionGene {
    open spec fn marker(&self) -> u64 {
        self.innovation_number
    }

    fn get_innov(&self) -> (r: u64) {
        self.innovation_number
    }
}

/// A value that identifies a connection by its endpoints alone, independent
/// of the order in which genomes discovered it: injective as long as both
/// markers stay below `MAX_NODES`.
pub open spec fn spec_conn_hashcode(from: u64, to: u64) -> u64
    recommends
        from < MAX_NODES,
        to < MAX_NODES,
{
    (from * MAX_NODES + to + 1) as u64
}

/// Computes the structural hash code of a connection's endpoint pair.
pub fn conn_hashcode(from_node_inno: u64, to_node_inno: u64) -> (r: u64)
    requires
        from_node_inno < MAX_NODES,
        to_node_inno < MAX_NODES,
    ensures
        r == spec_conn_hashcode(from_node_inno, to_node_inno),
{
    proof {
        assert(from_node_inno * MAX_NODES <= (MAX_NODES - 1) * MAX_NODES) by (nonlinear_arith)
            requires
                from_node_inno < MAX_NODES,
        {
        }
    }
    from_node_inno * MAX_NODES + to_node_inno + 1
}

/// Equal hash codes mean equal endpoint pairs.
pub proof fn lemma_conn_hashcode_injective(f1: u64, t1: u64, f2: u64, t2: u64)
    requires
        f1 < MAX_NODES,
        t1 < MAX_NODES,
        f2 < MAX_NODES,
        t2 < MAX_NODES,
        spec_conn_hashcode(f1, t1) == spec_conn_hashcode(f2, t2),
    ensures
        f1 == f2,
        t1 == t2,
{
    assert(f1 * MAX_NODES + t1 == f2 * MAX_NODES + t2) by (nonlinear_arith)
        requires
            f1 < MAX_NODES,
            t1 < MAX_NODES,
            f2 < MAX_NODES,
            t2 < MAX_NODES,
            spec_conn_hashcode(f1, t1) == spec_conn_hashcode(f2, t2),
    {
    }
    assert(f1 == f2 && t1 == t2) by (nonlinear_arith)
        requires
            f1 < MAX_NODES,
            t1 < MAX_NODES,
            f2 < MAX_NODES,
            t2 < MAX_NODES,
            f1 * MAX_NODES + t1 == f2 * MAX_NODES + t2,
    {
    }
}

impl ConnectionGene {
    /// Constructs a connection gene with a random weight drawn from
    /// `-max_weight..max_weight` (thousandths), enabled.
    pub fn new(innovation_number: u64, from: u64, to: u64, max_weight: i64) -> (r: ConnectionGene)
        requires
            max_weight >= 1,
        ensures
            r.marker() == innovation_number,
            r.from() == from,
            r.to() == to,
            r.enabled(),
            -max_weight <= r.weight() < max_weight,
    {
        ConnectionGene {
            innovation_number,
            weight: rand_weight(max_weight),
            enabled: true,
            from,
            to,
        }
    }

    /// Constructs a connection gene where every field is specified.
    pub fn new_explicit(innovation_number: u64, weight: i64, enabled: bool, from: u64, to: u64) -> (r:
        ConnectionGene)
        ensures
            r.marker() == innovation_number,
            r.weight() == weight,
            r.enabled() == enabled,
            r.from() == from,
            r.to() == to,
    {
        ConnectionGene { innovation_number, weight, enabled, from, to }
    }

    /// The structural hash code of this connection's endpoints.
    pub fn hashcode(&self) -> (r: u64)
        requires
            self.from() < MAX_NODES,
            self.to() < MAX_NODES,
        ensures
            r == spec_conn_hashcode(self.from(), self.to()),
    {
        conn_hashcode(self.from, self.to)
    }

    pub open spec fn weight(&self) -> i64 {
        self.weight
    }

    pub open spec fn enabled(&self) -> bool {
        self.enabled
    }

    pub open spec fn from(&self) -> u64 {
        self.from
    }

    pub open spec fn to(&self) -> u64 {
        self.to
    }

    pub fn get_weight(&self) -> (r: i64)
        ensures
            r == self.weight(),
    {
        self.weight
    }

    pub fn is_enabled(&self) -> (r: bool)
        ensures
            r == self.enabled(),
    {
        self.enabled
    }

    pub fn get_from(&self) -> (r: u64)
        ensures
            r == self.from(),
    {
        self.from
    }

    pub fn get_to(&self) -> (r: u64)
        ensures
            r == self.to(),
    {
        self.to
    }

    pub fn set_weight(&mut self, weight: i64)
        ensures
            *final(self) == (ConnectionGene { weight, ..*old(self) }),
    {
        self.weight = weight;
    }

    pub fn set_enabled(&mut self, enabled: bool)
        ensures
            *final(self) == (ConnectionGene { enabled, ..*old(self) }),
    {
        self.enabled = enabled;
    }
}

} // verus!
