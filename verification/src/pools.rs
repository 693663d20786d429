use vstd::prelude::*;

use std::collections::HashMap;

use crate::config::MAX_NODES;
use crate::connection_gene::{
    lemma_conn_hashcode_injective, spec_conn_hashcode, conn_hashcode, ConnectionGene,
};
use crate::node_gene::NodeGene;
use crate::vecset::Gene;
use crate::NodeType;

verus! {

broadcast use vstd::std_specs::hash::group_hash_axioms, vstd::set::group_set_axioms;

/// Invariant of the node registry: the first `ibo` markers are the fixed
/// input, bias and output templates keyed by their own marker; every marker
/// is below `MAX_NODES`, below the registry's size, and used only once.
pub open spec fn node_pool_wf(p: Map<u64, NodeGene>, ibo: int) -> bool {
    &&& p.dom().finite()
    &&& ibo <= p.dom().len()
    &&& forall|i: int| 0 <= i < ibo ==> #[trigger] p.contains_key(i as u64)
    &&& forall|i: int| 0 <= i < ibo ==> (#[trigger] p[i as u64]).marker() == i
    &&& forall|k: u64| p.contains_key(k) ==> (#[trigger] p[k]).marker() < MAX_NODES
    &&& forall|k: u64| p.contains_key(k) ==> (#[trigger] p[k]).marker() < p.dom().len()
    &&& forall|k1: u64, k2: u64|
        p.contains_key(k1) && p.contains_key(k2) && k1 != k2 ==> (#[trigger] p[k1]).marker() != (
        #[trigger] p[k2]).marker()
}

/// Invariant of the connection registry: every entry sits under the hash
/// code of its endpoints, endpoints stay below `MAX_NODES`, templates are
/// enabled, and markers are below the registry's size and used only once.
pub open spec fn conn_pool_wf(p: Map<u64, ConnectionGene>) -> bool {
    &&& p.dom().finite()
    &&& forall|k: u64|
        p.contains_key(k) ==> {
            &&& k == spec_conn_hashcode((#[trigger] p[k]).from(), p[k].to())
            &&& p[k].from() < MAX_NODES
            &&& p[k].to() < MAX_NODES
            &&& p[k].enabled()
        }
    &&& forall|k: u64| p.contains_key(k) ==> (#[trigger] p[k]).marker() < p.dom().len()
    &&& forall|k1: u64, k2: u64|
        p.contains_key(k1) && p.contains_key(k2) && k1 != k2 ==> (#[trigger] p[k1]).marker() != (
        #[trigger] p[k2]).marker()
}

/// Every entry of the older map sits unchanged in the newer one: registries
/// only grow, and what they hand out never changes.
pub open spec fn map_extends<V>(new: Map<u64, V>, old: Map<u64, V>) -> bool {
    forall|k: u64| #[trigger] old.contains_key(k) ==> new.contains_key(k) && new[k] == old[k]
}

pub proof fn lemma_map_extends_trans<V>(a: Map<u64, V>, b: Map<u64, V>, c: Map<u64, V>)
    requires
        map_extends(b, a),
        map_extends(c, b),
    ensures
        map_extends(c, a),
{
    assert forall|k: u64| #[trigger] a.contains_key(k) implies c.contains_key(k) && c[k]
        == a[k] by {
        assert(b.contains_key(k) && b[k] == a[k]);
    }
}

/// The marker that asking the connection registry for the given endpoints
/// yields: the existing template's, or the next free one.
pub open spec fn registry_marker(p: Map<u64, ConnectionGene>, from: u64, to: u64) -> int {
    let key = spec_conn_hashcode(from, to);
    if p.contains_key(key) {
        p[key].marker() as int
    } else {
        p.dom().len() as int
    }
}

/// The connection registry after asking it for the given endpoints, where
/// `c` is the template the call returned.
pub open spec fn registry_after(
    p: Map<u64, ConnectionGene>,
    from: u64,
    to: u64,
    c: ConnectionGene,
) -> Map<u64, ConnectionGene> {
    let key = spec_conn_hashcode(from, to);
    if p.contains_key(key) {
        p
    } else {
        p.insert(key, c)
    }
}

/// Looks the endpoint pair up in the connection registry; the first caller
/// creates the template (with a random weight) and assigns the next marker,
/// later callers retrieve a copy of what the first caller created.
pub fn get_or_create_connection(
    pool: &mut HashMap<u64, ConnectionGene>,
    from: u64,
    to: u64,
    max_weight: i64,
) -> (c: ConnectionGene)
    requires
        conn_pool_wf(old(pool)@),
        from < MAX_NODES,
        to < MAX_NODES,
        max_weight >= 1,
    ensures
        conn_pool_wf(final(pool)@),
        c.from() == from,
        c.to() == to,
        c.enabled(),
        c.marker() == registry_marker(old(pool)@, from, to),
        final(pool)@ == registry_after(old(pool)@, from, to, c),
        old(pool)@.contains_key(spec_conn_hashcode(from, to)) ==> c == old(pool)@[
            spec_conn_hashcode(from, to)
        ],
        forall|k: u64|
            final(pool)@.contains_key(k) ==> old(pool)@.contains_key(k) || k
                == spec_conn_hashcode(from, to),
        map_extends(final(pool)@, old(pool)@),
{
    let key = conn_hashcode(from, to);
    match pool.get(&key) {
        Some(c) => *c,
        None => {
            let marker = pool.len() as u64;
            let c = ConnectionGene::new(marker, from, to, max_weight);
            pool.insert(key, c);
            proof {
                let p0 = old(pool)@;
                let p1 = pool@;
                assert(p1 == p0.insert(key, c));
                assert(p1.dom() == p0.dom().insert(key));
                assert(p1.dom().len() == p0.dom().len() + 1);
                assert forall|k1: u64, k2: u64|
                    p1.contains_key(k1) && p1.contains_key(k2) && k1 != k2 implies (
                #[trigger] p1[k1]).marker() != (#[trigger] p1[k2]).marker() by {
                    if k1 != key && k2 != key {
                        assert(p1[k1] == p0[k1] && p1[k2] == p0[k2]);
                    } else if k1 == key {
                        assert(p0[k2].marker() < p0.dom().len());
                    } else {
                        assert(p0[k1].marker() < p0.dom().len());
                    }
                }
            }
            c
        },
    }
}

/// Seeds one explicit connection template, as the debugging constructors
/// do; an endpoint pair already present is left exactly as it is.
pub fn seed_connection_template(
    pool: &mut HashMap<u64, ConnectionGene>,
    from: u64,
    to: u64,
    weight: i64,
)
    requires
        conn_pool_wf(old(pool)@),
        from < MAX_NODES,
        to < MAX_NODES,
    ensures
        conn_pool_wf(final(pool)@),
        map_extends(final(pool)@, old(pool)@),
{
    let key = conn_hashcode(from, to);
    if !pool.contains_key(&key) {
        let marker = pool.len() as u64;
        let c = ConnectionGene::new_explicit(marker, weight, true, from, to);
        pool.insert(key, c);
        proof {
            let p0 = old(pool)@;
            let p1 = pool@;
            assert(p1 == p0.insert(key, c));
            assert(p1.dom() == p0.dom().insert(key));
            assert(p1.dom().len() == p0.dom().len() + 1);
            assert forall|k1: u64, k2: u64|
                p1.contains_key(k1) && p1.contains_key(k2) && k1 != k2 implies (
            #[trigger] p1[k1]).marker() != (#[trigger] p1[k2]).marker() by {
                if k1 != key && k2 != key {
                    assert(p1[k1] == p0[k1] && p1[k2] == p0[k2]);
                } else if k1 == key {
                    assert(p0[k2].marker() < p0.dom().len());
                } else {
                    assert(p0[k1].marker() < p0.dom().len());
                }
            }
        }
    }
}

/// Looks a node template up by its structural identity (the marker of the
/// split connection shifted past the fixed nodes); the first caller creates
/// the hidden-node template at the given coordinates and assigns the next
/// marker.
pub fn get_or_create_node(pool: &mut HashMap<u64, NodeGene>, guid: u64, x: u64, y: u64, ibo: usize) -> (n:
    NodeGene)
    requires
        node_pool_wf(old(pool)@, ibo as int),
        guid >= ibo,
        old(pool)@.dom().len() < MAX_NODES,
    ensures
        node_pool_wf(final(pool)@, ibo as int),
        old(pool)@.contains_key(guid) ==> n == old(pool)@[guid] && final(pool)@ == old(pool)@,
        !old(pool)@.contains_key(guid) ==> {
            &&& n.marker() == old(pool)@.dom().len()
            &&& n.node_type() == NodeType::Hidden
            &&& n.x() == x
            &&& n.y() == y
            &&& final(pool)@ == old(pool)@.insert(guid, n)
        },
        final(pool)@.contains_key(guid) && n == final(pool)@[guid],
        n.marker() < MAX_NODES,
        map_extends(final(pool)@, old(pool)@),
{
    match pool.get(&guid) {
        Some(n) => *n,
        None => {
            let marker = pool.len() as u64;
            let n = NodeGene::new(NodeType::Hidden, marker, x, y);
            pool.insert(guid, n);
            proof {
                let p0 = old(pool)@;
                let p1 = pool@;
                assert(p1 == p0.insert(guid, n));
                assert(p1.dom() == p0.dom().insert(guid));
                assert(p1.dom().len() == p0.dom().len() + 1);
                assert forall|i: int| 0 <= i < ibo implies #[trigger] p1.contains_key(
                    i as u64,
                ) by {
                    assert(p0.contains_key(i as u64));
                }
                assert forall|i: int| 0 <= i < ibo implies (#[trigger] p1[i as u64]).marker()
                    == i by {
                    assert(p0.contains_key(i as u64));
                    let e = p0[i as u64];
                    assert(guid != i as u64);
                    assert(p1[i as u64] == p0[i as u64]);
                }
                assert forall|k1: u64, k2: u64|
                    p1.contains_key(k1) && p1.contains_key(k2) && k1 != k2 implies (
                #[trigger] p1[k1]).marker() != (#[trigger] p1[k2]).marker() by {
                    if k1 != guid && k2 != guid {
                        assert(p1[k1] == p0[k1] && p1[k2] == p0[k2]);
                    } else if k1 == guid {
                        assert(p0[k2].marker() < p0.dom().len());
                    } else {
                        assert(p0[k1].marker() < p0.dom().len());
                    }
                }
            }
            n
        },
    }
}

/// Two genomes that independently perform the same structural mutation
/// converge to the same marker: after one of them has asked the registry for
/// an endpoint pair, any later request for the same pair yields the marker
/// the first request yielded.
pub proof fn lemma_same_mutation_same_marker(
    p: Map<u64, ConnectionGene>,
    from: u64,
    to: u64,
    c: ConnectionGene,
)
    requires
        conn_pool_wf(p),
        from < MAX_NODES,
        to < MAX_NODES,
        c.from() == from,
        c.to() == to,
        c.marker() == registry_marker(p, from, to),
    ensures
        registry_marker(registry_after(p, from, to, c), from, to) == registry_marker(p, from, to),
{
    broadcast use vstd::set::group_set_axioms;

    let key = spec_conn_hashcode(from, to);
    if !p.contains_key(key) {
        let p1 = p.insert(key, c);
        assert(p1.contains_key(key));
        assert(p1[key] == c);
    }
}

/// A mutation of a different structure yields a different marker: after the
/// registry answered one endpoint pair, a request for any other pair that no
/// genome has discovered yet yields a marker distinct from the first.
pub proof fn lemma_unrelated_mutation_differs(
    p: Map<u64, ConnectionGene>,
    from: u64,
    to: u64,
    c: ConnectionGene,
    from2: u64,
    to2: u64,
)
    requires
        conn_pool_wf(p),
        from < MAX_NODES,
        to < MAX_NODES,
        from2 < MAX_NODES,
        to2 < MAX_NODES,
        !(from2 == from && to2 == to),
        !p.contains_key(spec_conn_hashcode(from2, to2)),
        c.from() == from,
        c.to() == to,
        c.marker() == registry_marker(p, from, to),
    ensures
        registry_marker(registry_after(p, from, to, c), from2, to2) != registry_marker(
            p,
            from,
            to,
        ),
{
    broadcast use vstd::set::group_set_axioms;

    let key = spec_conn_hashcode(from, to);
    let key2 = spec_conn_hashcode(from2, to2);
    assert(key != key2) by {
        if key == key2 {
            lemma_conn_hashcode_injective(from, to, from2, to2);
        }
    }
    if p.contains_key(key) {
        assert(registry_after(p, from, to, c) == p);
        assert(p[key].marker() < p.dom().len());
    } else {
        let p1 = p.insert(key, c);
        assert(p1.dom() == p.dom().insert(key));
        assert(p1.dom().len() == p.dom().len() + 1);
        assert(!p1.contains_key(key2));
    }
}

} // verus!
