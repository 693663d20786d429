use vstd::prelude::*;

use std::collections::HashMap;

use crate::connection_gene::ConnectionGene;
use crate::genome::Genome;
use crate::node_gene::NodeGene;
use crate::pools::node_pool_wf;
use crate::vecset::{contains_marker, Gene};
use crate::NodeType;

verus! {

broadcast use vstd::std_specs::hash::group_hash_axioms, vstd::set::group_set_axioms;

/// The six nodes of the hand-built XOR network: two inputs, a bias, the
/// output, and two hidden nodes.
pub open spec fn xor_nodes() -> Seq<NodeGene> {
    seq![
        (NodeGene { node_type: NodeType::Input, innovation_number: 0, x: 0, y: 750 }),
        (NodeGene { node_type: NodeType::Input, innovation_number: 1, x: 0, y: 500 }),
        (NodeGene { node_type: NodeType::Bias, innovation_number: 2, x: 0, y: 100 }),
        (NodeGene { node_type: NodeType::Output, innovation_number: 3, x: 1000, y: 500 }),
        (NodeGene { node_type: NodeType::Hidden, innovation_number: 4, x: 500, y: 750 }),
        (NodeGene { node_type: NodeType::Hidden, innovation_number: 5, x: 500, y: 500 }),
    ]
}

/// The nine connections of the hand-built XOR network, with the weights
/// (in thousandths) that make it compute XOR exactly.
pub open spec fn xor_conns() -> Seq<ConnectionGene> {
    seq![
        (ConnectionGene { innovation_number: 0, weight: 20000, enabled: true, from: 0, to: 4 }),
        (ConnectionGene { innovation_number: 1, weight: -20000i64, enabled: true, from: 0, to: 5 }),
        (ConnectionGene { innovation_number: 2, weight: 20000, enabled: true, from: 1, to: 4 }),
        (ConnectionGene { innovation_number: 3, weight: -20000i64, enabled: true, from: 1, to: 5 }),
        (ConnectionGene { innovation_number: 4, weight: 20000, enabled: true, from: 4, to: 3 }),
        (ConnectionGene { innovation_number: 5, weight: 20000, enabled: true, from: 5, to: 3 }),
        (ConnectionGene { innovation_number: 6, weight: 10000, enabled: true, from: 2, to: 4 }),
        (ConnectionGene { innovation_number: 7, weight: -30000i64, enabled: true, from: 2, to: 5 }),
        (ConnectionGene { innovation_number: 8, weight: 30000, enabled: true, from: 2, to: 3 }),
    ]
}

/// The endpoint pairs that `xor_rand_connect` wires, in marker order.
pub open spec fn xor_rand_pairs() -> Seq<(u64, u64)> {
    seq![
        (0u64, 4u64),
        (0u64, 5u64),
        (1u64, 4u64),
        (1u64, 5u64),
        (4u64, 3u64),
        (5u64, 3u64),
        (2u64, 3u64),
        (2u64, 4u64),
        (2u64, 5u64),
    ]
}

impl Genome {
    /// Adds the nine XOR connections with their hand-picked weights; expects
    /// the six XOR nodes and no connections yet.
    pub fn xor_connect(&mut self)
        requires
            old(self)@.wf(),
            old(self)@.bounded(),
            old(self)@.conns.len() == 0,
            forall|m: u64| 0 <= m < 6 ==> contains_marker(old(self)@.nodes, m),
        ensures
            final(self)@.nodes == old(self)@.nodes,
            final(self)@.conns == xor_conns(),
            final(self)@.wf(),
            final(self)@.closed(),
            final(self)@.bounded(),
    {
        self.connections.push_max(ConnectionGene::new_explicit(0, 20000, true, 0, 4));
        self.connections.push_max(ConnectionGene::new_explicit(1, -20000, true, 0, 5));
        self.connections.push_max(ConnectionGene::new_explicit(2, 20000, true, 1, 4));
        self.connections.push_max(ConnectionGene::new_explicit(3, -20000, true, 1, 5));
        self.connections.push_max(ConnectionGene::new_explicit(4, 20000, true, 4, 3));
        self.connections.push_max(ConnectionGene::new_explicit(5, 20000, true, 5, 3));
        self.connections.push_max(ConnectionGene::new_explicit(6, 10000, true, 2, 4));
        self.connections.push_max(ConnectionGene::new_explicit(7, -30000, true, 2, 5));
        self.connections.push_max(ConnectionGene::new_explicit(8, 30000, true, 2, 3));
        proof {
            assert(self@.conns =~= xor_conns());
            assert forall|i: int|
                0 <= i < self@.conns.len() implies contains_marker(
                self@.nodes,
                #[trigger] self@.conns[i].from(),
            ) && contains_marker(self@.nodes, self@.conns[i].to()) by {
                assert(self@.conns[i].from() < 6 && self@.conns[i].to() < 6);
            }
        }
    }

    /// Adds the nine XOR connections with fresh random weights; expects the
    /// six XOR nodes and no connections yet.
    pub fn xor_rand_connect(&mut self)
        requires
            old(self)@.wf(),
            old(self)@.bounded(),
            old(self)@.conns.len() == 0,
            forall|m: u64| 0 <= m < 6 ==> contains_marker(old(self)@.nodes, m),
        ensures
            final(self)@.nodes == old(self)@.nodes,
            final(self)@.wf(),
            final(self)@.closed(),
            final(self)@.bounded(),
            final(self)@.conns.len() == 9,
            forall|i: int|
                0 <= i < 9 ==> (#[trigger] final(self)@.conns[i]).marker() == i
                    && final(self)@.conns[i].from() == xor_rand_pairs()[i].0
                    && final(self)@.conns[i].to() == xor_rand_pairs()[i].1,
    {
        // the customary magnitude bound on fresh weights, 5.0
        self.connections.push_max(ConnectionGene::new(0, 0, 4, 5000));
        self.connections.push_max(ConnectionGene::new(1, 0, 5, 5000));
        self.connections.push_max(ConnectionGene::new(2, 1, 4, 5000));
        self.connections.push_max(ConnectionGene::new(3, 1, 5, 5000));
        self.connections.push_max(ConnectionGene::new(4, 4, 3, 5000));
        self.connections.push_max(ConnectionGene::new(5, 5, 3, 5000));
        self.connections.push_max(ConnectionGene::new(6, 2, 3, 5000));
        self.connections.push_max(ConnectionGene::new(7, 2, 4, 5000));
        self.connections.push_max(ConnectionGene::new(8, 2, 5, 5000));
        proof {
            assert forall|i: int|
                0 <= i < self@.conns.len() implies contains_marker(
                self@.nodes,
                #[trigger] self@.conns[i].from(),
            ) && contains_marker(self@.nodes, self@.conns[i].to()) by {
                assert(self@.conns[i].from() < 6 && self@.conns[i].to() < 6);
            }
        }
    }

    /// The complete hand-built XOR genome: six nodes, nine weighted
    /// connections.
    pub fn new_init_xor() -> (r: Genome)
        ensures
            r@.nodes == xor_nodes(),
            r@.conns == xor_conns(),
            r@.wf(),
            r@.closed(),
            r@.bounded(),
    {
        let mut g = Genome::new();
        g.nodes.push_max(NodeGene::new(NodeType::Input, 0, 0, 750));
        g.nodes.push_max(NodeGene::new(NodeType::Input, 1, 0, 500));
        g.nodes.push_max(NodeGene::new(NodeType::Bias, 2, 0, 100));
        g.nodes.push_max(NodeGene::new(NodeType::Output, 3, 1000, 500));
        g.nodes.push_max(NodeGene::new(NodeType::Hidden, 4, 500, 750));
        g.nodes.push_max(NodeGene::new(NodeType::Hidden, 5, 500, 500));
        proof {
            assert(g@.nodes =~= xor_nodes());
            assert forall|m: u64| 0 <= m < 6 implies contains_marker(g@.nodes, m) by {
                assert(g@.nodes[m as int].marker() == m);
            }
        }
        g.xor_connect();
        g
    }
}

impl NodeGene {
    /// A node registry holding exactly the six XOR nodes, keyed by marker:
    /// the fixed input, bias and output templates and the two hidden nodes.
    pub fn xor_node_gene_pool() -> (r: HashMap<u64, NodeGene>)
        ensures
            node_pool_wf(r@, 4),
            forall|m: u64| 0 <= m < 6 ==> #[trigger] r@.contains_key(m),
            forall|m: u64| 0 <= m < 6 ==> (#[trigger] r@[m]).marker() == m,
    {
        let mut pool: HashMap<u64, NodeGene> = HashMap::new();
        pool.insert(0, NodeGene::new(NodeType::Input, 0, 0, 750));
        pool.insert(1, NodeGene::new(NodeType::Input, 1, 0, 500));
        pool.insert(2, NodeGene::new(NodeType::Bias, 2, 0, 100));
        pool.insert(3, NodeGene::new(NodeType::Output, 3, 1000, 500));
        pool.insert(4, NodeGene::new(NodeType::Hidden, 4, 500, 750));
        pool.insert(5, NodeGene::new(NodeType::Hidden, 5, 500, 500));
        proof {
            let p = pool@;
            assert forall|k1: u64, k2: u64|
                p.contains_key(k1) && p.contains_key(k2) && k1 != k2 implies (
            #[trigger] p[k1]).marker() != (#[trigger] p[k2]).marker() by {
                assert(k1 < 6 && k2 < 6);
                assert(p[k1].marker() == k1 && p[k2].marker() == k2);
            }
            assert forall|k: u64| p.contains_key(k) implies (#[trigger] p[k]).marker()
                < p.dom().len() by {
                assert(p.dom() =~= set![0u64, 1u64, 2u64, 3u64, 4u64, 5u64]);
                lemma_xor_pool_len(p.dom());
            }
            assert(p.dom().finite());
            assert(4 <= p.dom().len()) by {
                assert(p.dom() =~= set![0u64, 1u64, 2u64, 3u64, 4u64, 5u64]);
                lemma_xor_pool_len(p.dom());
            }
        }
        pool
    }
}

/// The six-marker set has six elements.
proof fn lemma_xor_pool_len(s: Set<u64>)
    requires
        s == set![0u64, 1u64, 2u64, 3u64, 4u64, 5u64],
    ensures
        s.len() == 6,
        s.finite(),
{
    broadcast use vstd::set::group_set_axioms;

    assert(s.len() == 6) by {
        let s0 = Set::<u64>::empty();
        let s1 = s0.insert(0u64);
        let s2 = s1.insert(1u64);
        let s3 = s2.insert(2u64);
        let s4 = s3.insert(3u64);
        let s5 = s4.insert(4u64);
        let s6 = s5.insert(5u64);
        assert(s6 =~= s);
        assert(s1.len() == 1);
        assert(s2.len() == 2);
        assert(s3.len() == 3);
        assert(s4.len() == 4);
        assert(s5.len() == 5);
        assert(s6.len() == 6);
    }
}

} // verus!
