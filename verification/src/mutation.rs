use vstd::prelude::*;

use std::collections::HashMap;

use crate::config::{Config, MAX_NODES};
use crate::connection_gene::{
    conn_hashcode, lemma_conn_hashcode_injective, spec_conn_hashcode, ConnectionGene,
};
use crate::crossover::lemma_lookup_is_element;
use crate::genome::{aligned_gene, conn_aligned, Genome, GenomeView};
use crate::node_gene::NodeGene;
use crate::pools::{
    conn_pool_wf, get_or_create_connection, get_or_create_node, lemma_map_extends_trans,
    map_extends, node_pool_wf,
};
use crate::rng::{rand_chance, rand_index, rand_weight};
use crate::vecset::{
    contains_marker, lemma_lookup_contains, lemma_lookup_unique, lemma_remove_marker,
    lemma_sorted_insert, lookup_marker, remove_marker, sorted_insert, Gene,
};
use crate::NodeType;

verus! {

broadcast use vstd::std_specs::hash::group_hash_axioms, vstd::set::group_set_axioms;

/// The genome invariants every mutation operator expects and preserves.
pub open spec fn genome_ok(gv: GenomeView, cp: Map<u64, ConnectionGene>) -> bool {
    &&& gv.wf()
    &&& gv.closed()
    &&& gv.bounded()
    &&& conn_aligned(gv, cp)
}

/// What a successful add-node mutation did, witnessed by the marker `m` of
/// the split connection: that connection (which was enabled) is removed; a
/// hidden node for the split sits in the genome; two connections are added,
/// one from the split gene's source into the new node carrying weight 1.0,
/// one from the new node to the split gene's target carrying the split
/// gene's weight; a node created by this very split sits at the coordinate
/// midpoint of the split gene's endpoints.
pub open spec fn add_node_effect(
    old_g: GenomeView,
    new_g: GenomeView,
    np_old: Map<u64, NodeGene>,
    np_new: Map<u64, NodeGene>,
    cp_new: Map<u64, ConnectionGene>,
    m: u64,
    cfg: &Config,
) -> bool {
    &&& contains_marker(old_g.conns, m)
    &&& lookup_marker(old_g.conns, m) is Some
    &&& {
        let c = lookup_marker(old_g.conns, m)->Some_0;
        let guid = (cfg.spec_io_count() + c.marker()) as u64;
        &&& c.enabled()
        &&& np_new.contains_key(guid)
        &&& {
            let nn = np_new[guid];
            let k1 = spec_conn_hashcode(c.from(), nn.marker());
            let k2 = spec_conn_hashcode(nn.marker(), c.to());
            &&& cp_new.contains_key(k1)
            &&& cp_new.contains_key(k2)
            &&& {
                let c1 = (ConnectionGene { weight: 1000, ..cp_new[k1] });
                let c2 = (ConnectionGene { weight: c.weight(), ..cp_new[k2] });
                &&& c1.from() == c.from() && c1.to() == nn.marker()
                &&& c2.from() == nn.marker() && c2.to() == c.to()
                &&& new_g.nodes == sorted_insert(old_g.nodes, nn)
                &&& new_g.conns == sorted_insert(
                    sorted_insert(remove_marker(old_g.conns, m), c1),
                    c2,
                )
                &&& (!np_old.contains_key(guid) ==> {
                    let nf = lookup_marker(old_g.nodes, c.from())->Some_0;
                    let nt = lookup_marker(old_g.nodes, c.to())->Some_0;
                    &&& nn.node_type() == NodeType::Hidden
                    &&& nn.x() == (nf.x() + nt.x()) / 2
                    &&& nn.y() == (nf.y() + nt.y()) / 2
                })
            }
        }
    }
}

/// Mutates a new node into a genome by splitting one of its enabled
/// connections whose source is not the bias node: the split connection is
/// removed and replaced by a hidden node (created in the registry, or reused
/// where another genome already made the same split) with a connection into
/// it of weight 1.0 and a connection out of it carrying the old weight.
/// Picks candidates at random with a bounded number of retries; fails (and
/// leaves the genome and both registries unchanged) if the genome has no
/// connections or no suitable candidate was drawn. A success adds at most
/// one node template and two connection templates to the registries.
#[verifier::rlimit(100)]
pub fn mutate_new_node(
    g: &mut Genome,
    node_pool: &mut HashMap<u64, NodeGene>,
    conn_pool: &mut HashMap<u64, ConnectionGene>,
    cfg: &Config,
) -> (r: bool)
    requires
        cfg.wf(),
        genome_ok(old(g)@, old(conn_pool)@),
        node_pool_wf(old(node_pool)@, cfg.spec_io_count()),
        conn_pool_wf(old(conn_pool)@),
    ensures
        genome_ok(final(g)@, final(conn_pool)@),
        node_pool_wf(final(node_pool)@, cfg.spec_io_count()),
        conn_pool_wf(final(conn_pool)@),
        map_extends(final(node_pool)@, old(node_pool)@),
        map_extends(final(conn_pool)@, old(conn_pool)@),
        !r ==> final(g)@ == old(g)@ && final(node_pool)@ == old(node_pool)@ && final(conn_pool)@
            == old(conn_pool)@,
        r ==> final(node_pool)@.dom().len() <= old(node_pool)@.dom().len() + 1,
        r ==> final(conn_pool)@.dom().len() <= old(conn_pool)@.dom().len() + 2,
        old(g)@.conns.len() == 0 ==> !r,
        r ==> exists|m: u64|
            add_node_effect(
                old(g)@,
                final(g)@,
                old(node_pool)@,
                final(node_pool)@,
                final(conn_pool)@,
                m,
                cfg,
            ),
{
    if g.connections.len() == 0 {
        return false;
    }
    if node_pool.len() >= MAX_NODES as usize {
        return false;
    }
    let ghost old_g = g@;
    let ghost old_np = node_pool@;
    let ghost old_cp = conn_pool@;
    let ibo = cfg.io_count();
    let max_iter = cfg.max_iter;
    let mut iter: usize = 0;
    while iter <= max_iter
        invariant
            cfg.wf(),
            g@ == old_g,
            node_pool@ == old_np,
            conn_pool@ == old_cp,
            old_g == old(g)@,
            old_np == old(node_pool)@,
            old_cp == old(conn_pool)@,
            genome_ok(old_g, old_cp),
            node_pool_wf(old_np, cfg.spec_io_count()),
            conn_pool_wf(old_cp),
            old_np.dom().len() < MAX_NODES,
            old_g.conns.len() > 0,
            ibo == cfg.spec_io_count(),
        decreases max_iter - iter + 1,
    {
        let m = g.connections.rand_innov();
        let c = *g.connections.get_by_innov(m);
        proof {
            lemma_lookup_contains(g@.conns, m);
            lemma_lookup_is_element(g@.conns, m);
            let i = choose|i: int| 0 <= i < g@.conns.len() && g@.conns[i] == c;
            assert(contains_marker(g@.nodes, c.from()));
            assert(contains_marker(g@.nodes, c.to()));
            assert(aligned_gene(g@.conns[i], old_cp));
        }
        let from_gene = *g.nodes.get_by_innov(c.get_from());
        let is_bias = match from_gene.get_nodetype() {
            NodeType::Bias => true,
            _ => false,
        };
        if c.is_enabled() && !is_bias && c.get_innov() < MAX_NODES {
            let to_gene = *g.nodes.get_by_innov(c.get_to());
            let guid = ibo as u64 + c.get_innov();
            let midx = (((from_gene.get_x() as u128) + (to_gene.get_x() as u128)) / 2) as u64;
            let midy = (((from_gene.get_y() as u128) + (to_gene.get_y() as u128)) / 2) as u64;
            if conn_pool.len() as u64 >= u64::MAX - 1 {
                return false;
            }
            // the markers the registry would hand out, computed without
            // writing it, so a rejected draw leaves the registries untouched
            let nn_marker: u64 = match node_pool.get(&guid) {
                Some(n) => n.get_innov(),
                None => node_pool.len() as u64,
            };
            proof {
                assert(nn_marker < MAX_NODES);
            }
            if nn_marker == c.get_from() || nn_marker == c.get_to() || g.nodes.contains_innov(
                nn_marker,
            ) {
                // the registry's template collides with what the genome
                // already holds (a foreign or repeated split); the draw fails
                return false;
            }
            let k1 = conn_hashcode(c.get_from(), nn_marker);
            let k2 = conn_hashcode(nn_marker, c.get_to());
            let m1: u64;
            let k1_fresh: bool;
            match conn_pool.get(&k1) {
                Some(t) => {
                    m1 = t.get_innov();
                    k1_fresh = false;
                },
                None => {
                    m1 = conn_pool.len() as u64;
                    k1_fresh = true;
                },
            }
            let m2: u64 = match conn_pool.get(&k2) {
                Some(t) => t.get_innov(),
                None => if k1_fresh {
                    conn_pool.len() as u64 + 1
                } else {
                    conn_pool.len() as u64
                },
            };
            proof {
                let kc = spec_conn_hashcode(c.from(), c.to());
                if k1 == kc {
                    lemma_conn_hashcode_injective(c.from(), nn_marker, c.from(), c.to());
                }
                if k2 == kc {
                    lemma_conn_hashcode_injective(nn_marker, c.to(), c.from(), c.to());
                }
                if k1 == k2 {
                    lemma_conn_hashcode_injective(c.from(), nn_marker, nn_marker, c.to());
                }
            }
            if g.connections.contains_innov(m1) || g.connections.contains_innov(m2) {
                // the genome already carries a gene of this split; the draw
                // fails rather than overwrite it
                return false;
            }
            let nn = get_or_create_node(node_pool, guid, midx, midy, ibo);
            proof {
                assert(nn.marker() == nn_marker);
            }
            let c1t = get_or_create_connection(
                conn_pool,
                c.get_from(),
                nn.get_innov(),
                cfg.weight_random_max,
            );
            let ghost cp_a = conn_pool@;
            let c2t = get_or_create_connection(
                conn_pool,
                nn.get_innov(),
                c.get_to(),
                cfg.weight_random_max,
            );
            proof {
                assert(c1t.marker() == m1);
                assert(c2t.marker() == m2) by {
                    if k1_fresh {
                        assert(cp_a == old_cp.insert(k1, c1t));
                        assert(cp_a.dom() == old_cp.dom().insert(k1));
                        assert(cp_a.dom().len() == old_cp.dom().len() + 1);
                    } else {
                        assert(cp_a == old_cp);
                    }
                }
            }
            let mut c1 = c1t;
            c1.set_weight(1000);
            let mut c2 = c2t;
            c2.set_weight(c.get_weight());
            proof {
                // the two fresh markers are not the split gene's, and differ
                let kc = spec_conn_hashcode(c.from(), c.to());
                let k1 = spec_conn_hashcode(c.from(), nn.marker());
                let k2 = spec_conn_hashcode(nn.marker(), c.to());
                assert(old_cp.contains_key(kc) && old_cp[kc].marker() == c.marker());
                assert(cp_a.contains_key(kc) && cp_a[kc] == old_cp[kc]);
                assert(conn_pool@.contains_key(kc) && conn_pool@[kc] == cp_a[kc]);
                assert(conn_pool@[kc].marker() == c.marker());
                assert(cp_a.contains_key(k1) && cp_a[k1] == c1t);
                assert(conn_pool@.contains_key(k1) && conn_pool@[k1] == c1t);
                assert(conn_pool@.contains_key(k2) && conn_pool@[k2] == c2t);
                assert forall|ii: int| 0 <= ii < old_g.conns.len() implies aligned_gene(
                    #[trigger] old_g.conns[ii],
                    conn_pool@,
                ) by {
                    assert(aligned_gene(old_g.conns[ii], old_cp));
                    let kk = spec_conn_hashcode(old_g.conns[ii].from(), old_g.conns[ii].to());
                    assert(cp_a.contains_key(kk) && cp_a[kk] == old_cp[kk]);
                    assert(conn_pool@.contains_key(kk) && conn_pool@[kk] == cp_a[kk]);
                }
                if k1 == kc {
                    lemma_conn_hashcode_injective(c.from(), nn.marker(), c.from(), c.to());
                }
                if k2 == kc {
                    lemma_conn_hashcode_injective(nn.marker(), c.to(), c.from(), c.to());
                }
                if k1 == k2 {
                    lemma_conn_hashcode_injective(c.from(), nn.marker(), nn.marker(), c.to());
                }
                assert(c1.marker() != c.marker());
                assert(c2.marker() != c.marker());
                assert(c1.marker() != c2.marker());
                assert(!contains_marker(g@.conns, c1.marker()));
                assert(!contains_marker(g@.conns, c2.marker()));
                // the registries grew by at most the split's own templates
                assert(node_pool@.dom().len() <= old_np.dom().len() + 1) by {
                    if !old_np.contains_key(guid) {
                        assert(node_pool@.dom() == old_np.dom().insert(guid));
                    }
                }
                assert(conn_pool@.dom().len() <= old_cp.dom().len() + 2) by {
                    if !cp_a.contains_key(k2) {
                        assert(conn_pool@.dom() == cp_a.dom().insert(k2));
                    }
                    if k1_fresh {
                        assert(cp_a.dom() == old_cp.dom().insert(k1));
                    }
                }
            }
            let ghost conns0 = g@.conns;
            g.connections.remove(m);
            proof {
                lemma_remove_marker(conns0, m);
                assert(!contains_marker(g@.conns, c1.marker()));
                assert(!contains_marker(g@.conns, c2.marker()));
                lemma_sorted_insert(g@.conns, c1);
            }
            let ghost conns1 = remove_marker(conns0, m);
            g.connections.insert_sorted(c1);
            proof {
                assert(g@.conns == sorted_insert(conns1, c1));
                assert(!contains_marker(g@.conns, c2.marker()));
                lemma_sorted_insert(g@.conns, c2);
            }
            g.connections.insert_sorted(c2);
            proof {
                lemma_sorted_insert(g@.nodes, nn);
            }
            g.nodes.insert_sorted(nn);
            proof {
                lemma_add_node_ok(
                    old_g,
                    g@,
                    old_np,
                    node_pool@,
                    conn_pool@,
                    m,
                    c,
                    nn,
                    c1,
                    c2,
                    cfg,
                );
                assert(add_node_effect(old_g, g@, old_np, node_pool@, conn_pool@, m, cfg));
            }
            return true;
        }
        if iter == max_iter {
            return false;
        }
        iter += 1;
    }
    false
}

/// The pieces assembled by a successful split make a well-formed, closed,
/// bounded, registry-aligned genome and witness `add_node_effect`.
#[verifier::rlimit(100)]
proof fn lemma_add_node_ok(
    old_g: GenomeView,
    new_g: GenomeView,
    np_old: Map<u64, NodeGene>,
    np_new: Map<u64, NodeGene>,
    cp_new: Map<u64, ConnectionGene>,
    m: u64,
    c: ConnectionGene,
    nn: NodeGene,
    c1: ConnectionGene,
    c2: ConnectionGene,
    cfg: &Config,
)
    requires
        cfg.wf(),
        old_g.wf(),
        old_g.closed(),
        old_g.bounded(),
        conn_aligned(old_g, cp_new),
        conn_pool_wf(cp_new),
        lookup_marker(old_g.conns, m) == Option::Some(c),
        contains_marker(old_g.conns, m),
        c.marker() == m,
        c.enabled(),
        nn.marker() < MAX_NODES,
        nn.marker() != c.from(),
        nn.marker() != c.to(),
        !contains_marker(old_g.nodes, nn.marker()),
        np_new.contains_key((cfg.spec_io_count() + c.marker()) as u64),
        np_new[(cfg.spec_io_count() + c.marker()) as u64] == nn,
        !np_old.contains_key((cfg.spec_io_count() + c.marker()) as u64) ==> {
            &&& nn.node_type() == NodeType::Hidden
            &&& nn.x() == (lookup_marker(old_g.nodes, c.from())->Some_0.x() + lookup_marker(
                old_g.nodes,
                c.to(),
            )->Some_0.x()) / 2
            &&& nn.y() == (lookup_marker(old_g.nodes, c.from())->Some_0.y() + lookup_marker(
                old_g.nodes,
                c.to(),
            )->Some_0.y()) / 2
        },
        cp_new.contains_key(spec_conn_hashcode(c.from(), nn.marker())),
        cp_new.contains_key(spec_conn_hashcode(nn.marker(), c.to())),
        c1 == (ConnectionGene {
            weight: 1000,
            ..cp_new[spec_conn_hashcode(c.from(), nn.marker())]
        }),
        c2 == (ConnectionGene {
            weight: c.weight(),
            ..cp_new[spec_conn_hashcode(nn.marker(), c.to())]
        }),
        c1.from() == c.from() && c1.to() == nn.marker(),
        c2.from() == nn.marker() && c2.to() == c.to(),
        !contains_marker(remove_marker(old_g.conns, m), c1.marker()),
        !contains_marker(sorted_insert(remove_marker(old_g.conns, m), c1), c2.marker()),
        new_g.nodes == sorted_insert(old_g.nodes, nn),
        new_g.conns == sorted_insert(sorted_insert(remove_marker(old_g.conns, m), c1), c2),
    ensures
        new_g.wf(),
        new_g.closed(),
        new_g.bounded(),
        conn_aligned(new_g, cp_new),
        add_node_effect(old_g, new_g, np_old, np_new, cp_new, m, cfg),
{
    let conns1 = remove_marker(old_g.conns, m);
    let conns2 = sorted_insert(conns1, c1);
    lemma_remove_marker(old_g.conns, m);
    lemma_sorted_insert(conns1, c1);
    lemma_sorted_insert(conns2, c2);
    lemma_sorted_insert(old_g.nodes, nn);
    // the split gene is one of the old genome's, so its endpoints are nodes
    lemma_lookup_is_element(old_g.conns, m);
    let jc = choose|j: int| 0 <= j < old_g.conns.len() && old_g.conns[j] == c;
    assert(old_g.conns[jc].from() == c.from() && old_g.conns[jc].to() == c.to());
    assert(contains_marker(old_g.nodes, c.from()));
    assert(contains_marker(old_g.nodes, c.to()));
    // well-formedness of both gene lists
    assert(new_g.wf());
    // every gene of the new connection list is an old gene, c1, or c2
    assert forall|i: int|
        0 <= i < new_g.conns.len() implies #[trigger] new_g.conns[i] == c1 || new_g.conns[i] == c2
            || (contains_marker(old_g.conns, new_g.conns[i].marker()) && new_g.conns[i]
            == lookup_marker(old_g.conns, new_g.conns[i].marker())->Some_0) by {
        let gene = new_g.conns[i];
        let mk = gene.marker();
        lemma_lookup_unique(new_g.conns, i);
        assert(lookup_marker(new_g.conns, mk) == Option::Some(gene));
        if mk == c2.marker() {
            assert(lookup_marker(new_g.conns, mk) == Option::Some(c2));
        } else {
            assert(lookup_marker(new_g.conns, mk) == lookup_marker(conns2, mk));
            if mk == c1.marker() {
                assert(lookup_marker(conns2, mk) == Option::Some(c1));
            } else {
                assert(lookup_marker(conns2, mk) == lookup_marker(conns1, mk));
                assert(lookup_marker(conns1, mk) == Option::Some(gene));
                lemma_lookup_contains(conns1, mk);
                assert(contains_marker(conns1, mk));
                assert(mk != m);
                assert(lookup_marker(conns1, mk) == lookup_marker(old_g.conns, mk));
                lemma_lookup_contains(old_g.conns, mk);
            }
        }
    }
    // closedness: the old endpoints stay present, the new node joins them
    assert forall|mk: u64| contains_marker(old_g.nodes, mk) implies contains_marker(
        new_g.nodes,
        mk,
    ) by {}
    assert(contains_marker(new_g.nodes, nn.marker()));
    assert forall|i: int|
        0 <= i < new_g.conns.len() implies contains_marker(
        new_g.nodes,
        #[trigger] new_g.conns[i].from(),
    ) && contains_marker(new_g.nodes, new_g.conns[i].to()) by {
        let gene = new_g.conns[i];
        if gene == c1 {
            assert(contains_marker(old_g.nodes, c.from()));
        } else if gene == c2 {
            assert(contains_marker(old_g.nodes, c.to()));
        } else {
            lemma_lookup_contains(old_g.conns, gene.marker());
            lemma_lookup_is_element(old_g.conns, gene.marker());
            let j = choose|j: int| 0 <= j < old_g.conns.len() && old_g.conns[j] == gene;
            assert(contains_marker(old_g.nodes, old_g.conns[j].from()));
        }
    }
    // boundedness
    assert forall|i: int|
        0 <= i < new_g.nodes.len() implies (#[trigger] new_g.nodes[i].marker()) < MAX_NODES by {
        if new_g.nodes[i] == nn {
        } else {
            assert(contains_marker(old_g.nodes, new_g.nodes[i].marker()));
            let j = choose|j: int|
                0 <= j < old_g.nodes.len() && old_g.nodes[j].marker() == new_g.nodes[i].marker();
        }
    }
    // alignment: old genes were aligned, the new genes mirror their templates
    assert forall|i: int| 0 <= i < new_g.conns.len() implies aligned_gene(
        #[trigger] new_g.conns[i],
        cp_new,
    ) by {
        let gene = new_g.conns[i];
        if gene == c1 {
            assert(contains_marker(old_g.nodes, c.from()));
            let j = choose|j: int| 0 <= j < old_g.nodes.len() && old_g.nodes[j].marker() == c.from();
            assert(old_g.nodes[j].marker() < MAX_NODES);
        } else if gene == c2 {
            assert(contains_marker(old_g.nodes, c.to()));
            let j = choose|j: int| 0 <= j < old_g.nodes.len() && old_g.nodes[j].marker() == c.to();
            assert(old_g.nodes[j].marker() < MAX_NODES);
        } else {
            lemma_lookup_contains(old_g.conns, gene.marker());
            lemma_lookup_is_element(old_g.conns, gene.marker());
            let j = choose|j: int| 0 <= j < old_g.conns.len() && old_g.conns[j] == gene;
            assert(aligned_gene(old_g.conns[j], cp_new));
        }
    }
    assert(lookup_marker(old_g.conns, m)->Some_0 == c);
}

/// What a successful add-connection mutation did, witnessed by the two node
/// markers it connected: both nodes sit in the genome, the source lies
/// strictly left of the target, no path connected them before (so the new
/// edge is neither a duplicate nor transitively implied), and exactly the
/// registry's gene for the pair was inserted.
pub open spec fn add_conn_effect(
    old_g: GenomeView,
    new_g: GenomeView,
    cp_new: Map<u64, ConnectionGene>,
    f: u64,
    t: u64,
) -> bool {
    &&& contains_marker(old_g.nodes, f)
    &&& contains_marker(old_g.nodes, t)
    &&& lookup_marker(old_g.nodes, f)->Some_0.x() < lookup_marker(old_g.nodes, t)->Some_0.x()
    &&& !old_g.connected(f, t)
    &&& cp_new.contains_key(spec_conn_hashcode(f, t))
    &&& new_g.nodes == old_g.nodes
    &&& new_g.conns == sorted_insert(old_g.conns, cp_new[spec_conn_hashcode(f, t)])
    &&& cp_new[spec_conn_hashcode(f, t)].from() == f
    &&& cp_new[spec_conn_hashcode(f, t)].to() == t
}

/// Mutates a new connection into a genome between two random nodes, ordered
/// by ascending x coordinate, rejecting pairs at equal x and pairs that are
/// already connected directly or through intermediaries. Retries a bounded
/// number of times and fails (leaving the genome unchanged) when no valid
/// pair was drawn, leaving the genome and the registry unchanged; the
/// registry supplies the gene, so independent discoveries of the same pair
/// carry the same marker, and a success adds at most one template.
#[verifier::rlimit(100)]
pub fn mutate_new_conn(
    g: &mut Genome,
    conn_pool: &mut HashMap<u64, ConnectionGene>,
    cfg: &Config,
) -> (r: bool)
    requires
        cfg.wf(),
        genome_ok(old(g)@, old(conn_pool)@),
        conn_pool_wf(old(conn_pool)@),
    ensures
        genome_ok(final(g)@, final(conn_pool)@),
        conn_pool_wf(final(conn_pool)@),
        map_extends(final(conn_pool)@, old(conn_pool)@),
        !r ==> final(g)@ == old(g)@ && final(conn_pool)@ == old(conn_pool)@,
        r ==> final(conn_pool)@.dom().len() <= old(conn_pool)@.dom().len() + 1,
        r ==> exists|f: u64, t: u64|
            add_conn_effect(old(g)@, final(g)@, final(conn_pool)@, f, t),
{
    if g.nodes.len() == 0 || g.nodes.len() > 46340 {
        return false;
    }
    let ghost old_g = g@;
    let ghost old_cp = conn_pool@;
    let max_iter = cfg.max_iter;
    let mut iter: usize = 0;
    while iter <= max_iter
        invariant
            cfg.wf(),
            g@ == old_g,
            conn_pool@ == old_cp,
            old_g == old(g)@,
            old_cp == old(conn_pool)@,
            genome_ok(old_g, old_cp),
            conn_pool_wf(old_cp),
            0 < old_g.nodes.len() <= 46340,
        decreases max_iter - iter + 1,
    {
        let a = g.nodes.rand_innov();
        let b = g.nodes.rand_innov();
        let ax = g.nodes.get_by_innov(a).get_x();
        let bx = g.nodes.get_by_innov(b).get_x();
        if ax != bx {
            let (from_innov, to_innov) = if ax < bx {
                (a, b)
            } else {
                (b, a)
            };
            if !g.is_connected(from_innov, to_innov) {
                proof {
                    let i = choose|i: int|
                        0 <= i < old_g.nodes.len() && old_g.nodes[i].marker() == from_innov;
                    let j = choose|j: int|
                        0 <= j < old_g.nodes.len() && old_g.nodes[j].marker() == to_innov;
                    assert(old_g.nodes[i].marker() < MAX_NODES);
                    assert(old_g.nodes[j].marker() < MAX_NODES);
                }
                let newc = get_or_create_connection(
                    conn_pool,
                    from_innov,
                    to_innov,
                    cfg.weight_random_max,
                );
                proof {
                    // a genome gene with the template's marker would be this
                    // very edge, which `is_connected` has excluded
                    if contains_marker(old_g.conns, newc.marker()) {
                        let i = choose|i: int|
                            0 <= i < old_g.conns.len() && old_g.conns[i].marker() == newc.marker();
                        let gene = old_g.conns[i];
                        assert(aligned_gene(gene, conn_pool@));
                        let kg = spec_conn_hashcode(gene.from(), gene.to());
                        let kn = spec_conn_hashcode(from_innov, to_innov);
                        assert(conn_pool@[kg].marker() == gene.marker());
                        assert(conn_pool@[kn].marker() == newc.marker());
                        if kg != kn {
                            assert(conn_pool@[kg].marker() != conn_pool@[kn].marker());
                        }
                        lemma_conn_hashcode_injective(
                            gene.from(),
                            gene.to(),
                            from_innov,
                            to_innov,
                        );
                        assert(old_g.conns[i].from() == from_innov && old_g.conns[i].to()
                            == to_innov);
                        assert(old_g.has_edge(from_innov, to_innov));
                        let p = seq![from_innov, to_innov];
                        assert(old_g.is_path(p)) by {
                            assert(p[0] == from_innov && p[1] == to_innov);
                            assert(p.len() == 2);
                        }
                        assert(p.first() == from_innov && p.last() == to_innov);
                        assert(old_g.connected(from_innov, to_innov));
                    }
                    lemma_sorted_insert(old_g.conns, newc);
                }
                g.connections.insert_sorted(newc);
                proof {
                    let new_g = g@;
                    assert forall|i: int|
                        0 <= i < new_g.conns.len() implies contains_marker(
                        new_g.nodes,
                        #[trigger] new_g.conns[i].from(),
                    ) && contains_marker(new_g.nodes, new_g.conns[i].to()) && aligned_gene(
                        new_g.conns[i],
                        conn_pool@,
                    ) by {
                        let gene = new_g.conns[i];
                        if gene == newc {
                        } else {
                            let mk = gene.marker();
                            lemma_lookup_unique(new_g.conns, i);
                            assert(lookup_marker(new_g.conns, mk) == Option::Some(gene));
                            assert(mk != newc.marker()) by {
                                if mk == newc.marker() {
                                    assert(lookup_marker(new_g.conns, mk) == Option::Some(
                                        newc,
                                    ));
                                }
                            }
                            assert(lookup_marker(new_g.conns, mk) == lookup_marker(
                                old_g.conns,
                                mk,
                            ));
                            lemma_lookup_contains(old_g.conns, mk);
                            lemma_lookup_is_element(old_g.conns, mk);
                            let j = choose|j: int|
                                0 <= j < old_g.conns.len() && old_g.conns[j] == gene;
                            assert(contains_marker(old_g.nodes, old_g.conns[j].from()));
                            assert(aligned_gene(old_g.conns[j], old_cp));
                        }
                    }
                    assert(add_conn_effect(old_g, g@, conn_pool@, from_innov, to_innov));
                }
                return true;
            }
        }
        if iter == max_iter {
            return false;
        }
        iter += 1;
    }
    false
}

/// Toggles the enabled flag of one random connection; does nothing on a
/// genome without connections.
pub fn mutate_conn_enabled(g: &mut Genome)
    requires
        old(g)@.wf(),
    ensures
        final(g)@.wf(),
        final(g)@.nodes == old(g)@.nodes,
        old(g)@.conns.len() == 0 ==> final(g)@ == old(g)@,
        old(g)@.conns.len() > 0 ==> exists|i: int|
            0 <= i < old(g)@.conns.len() && final(g)@.conns == old(g)@.conns.update(
                i,
                (ConnectionGene { enabled: !(#[trigger] old(g)@.conns[i]).enabled(), ..old(g)@.conns[i] }),
            ),
        same_conn_identities(old(g)@, final(g)@),
{
    if g.connections.len() > 0 {
        let i = g.connections.rand_position();
        let mut c = *g.connections.get(i);
        let flipped = !c.is_enabled();
        c.set_enabled(flipped);
        g.connections.update_at(i, c);
        proof {
            assert(c == (ConnectionGene {
                enabled: !old(g)@.conns[i as int].enabled(),
                ..old(g)@.conns[i as int]
            }));
            assert(g@.conns == old(g)@.conns.update(i as int, c));
        }
    }
}

/// Sets the weight of one random connection to a fresh random value within
/// the configured magnitude; does nothing on a genome without connections.
pub fn mutate_weight_random(g: &mut Genome, cfg: &Config)
    requires
        cfg.wf(),
        old(g)@.wf(),
    ensures
        final(g)@.wf(),
        final(g)@.nodes == old(g)@.nodes,
        old(g)@.conns.len() == 0 ==> final(g)@ == old(g)@,
        same_conn_identities(old(g)@, final(g)@),
        old(g)@.conns.len() > 0 ==> exists|i: int|
            0 <= i < old(g)@.conns.len() && -cfg.weight_random_max <= (#[trigger] final(g)@.conns[i]).weight() < cfg.weight_random_max && final(g)@.conns == old(g)@.conns.update(
                i,
                (ConnectionGene { weight: final(g)@.conns[i].weight(), ..old(g)@.conns[i] }),
            ),
{
    if g.connections.len() > 0 {
        let i = g.connections.rand_position();
        let mut c = *g.connections.get(i);
        let w = rand_weight(cfg.weight_random_max);
        c.set_weight(w);
        g.connections.update_at(i, c);
        proof {
            assert(g@.conns == old(g)@.conns.update(i as int, c));
            assert(g@.conns[i as int] == c);
            assert(c == (ConnectionGene {
                weight: g@.conns[i as int].weight(),
                ..old(g)@.conns[i as int]
            }));
        }
    }
}

/// The weight after a multiplicative shift: scaled by `1000 - pct` or kept,
/// with the magnitude rounded toward zero.
pub open spec fn shifted_weight(w: int, pct: int, shrink: bool) -> int {
    let fac = if shrink {
        1000 - pct
    } else {
        1000
    };
    let mag = abs_spec(w) * fac / 1000;
    if w < 0 {
        -mag
    } else {
        mag
    }
}

pub open spec fn abs_spec(w: int) -> int {
    if w < 0 {
        -w
    } else {
        w
    }
}

/// Multiplicatively perturbs the weight of one random connection: a coin
/// flip either scales the magnitude down by the configured percentage or
/// leaves it unchanged. Does nothing on a genome without connections.
pub fn mutate_weight_shift(g: &mut Genome, cfg: &Config)
    requires
        cfg.wf(),
        old(g)@.wf(),
    ensures
        final(g)@.wf(),
        final(g)@.nodes == old(g)@.nodes,
        old(g)@.conns.len() == 0 ==> final(g)@ == old(g)@,
        same_conn_identities(old(g)@, final(g)@),
        old(g)@.conns.len() > 0 ==> exists|i: int|
            0 <= i < old(g)@.conns.len() && final(g)@.conns == old(g)@.conns.update(
                i,
                (ConnectionGene { weight: (#[trigger] final(g)@.conns[i]).weight(), ..old(g)@.conns[i] }),
            ) && (final(g)@.conns[i].weight() == shifted_weight(
                old(g)@.conns[i].weight() as int,
                cfg.weight_shift_max_pct as int,
                true,
            ) || final(g)@.conns[i].weight() == shifted_weight(
                old(g)@.conns[i].weight() as int,
                cfg.weight_shift_max_pct as int,
                false,
            )),
{
    if g.connections.len() > 0 {
        let i = g.connections.rand_position();
        let mut c = *g.connections.get(i);
        let w = c.get_weight();
        let shrink = rand_index(2) == 0;
        let fac: u128 = if shrink {
            (1000 - cfg.weight_shift_max_pct) as u128
        } else {
            1000
        };
        let mag: u128 = if w < 0 {
            (-(w as i128)) as u128
        } else {
            w as u128
        };
        let new_w: i64 = if fac == 1000 {
            proof {
                assert(mag * 1000 / 1000 == mag) by (nonlinear_arith);
            }
            w
        } else {
            proof {
                assert(mag * fac <= mag * 1000) by (nonlinear_arith)
                    requires
                        fac <= 1000,
                        mag >= 0,
                {
                }
                assert(mag * 1000 <= 0x8000_0000_0000_0000u128 * 1000) by (nonlinear_arith)
                    requires
                        mag <= 0x8000_0000_0000_0000u128,
                {
                }
            }
            let shifted: u128 = mag * fac / 1000;
            proof {
                assert(mag * fac < mag * 1000 || mag == 0) by (nonlinear_arith)
                    requires
                        fac < 1000,
                        mag >= 0,
                {
                }
                assert(mag * fac / 1000 < mag || (mag == 0 && mag * fac / 1000 == 0))
                    by (nonlinear_arith)
                    requires
                        mag * fac < mag * 1000 || mag == 0,
                        mag * fac >= 0,
                {
                }
            }
            if w < 0 {
                -(shifted as i64)
            } else {
                shifted as i64
            }
        };
        c.set_weight(new_w);
        g.connections.update_at(i, c);
        proof {
            assert(new_w == shifted_weight(
                w as int,
                cfg.weight_shift_max_pct as int,
                shrink,
            ));
            assert(g@.conns == old(g)@.conns.update(i as int, c));
            assert(g@.conns[i as int] == c);
            assert(c == (ConnectionGene {
                weight: g@.conns[i as int].weight(),
                ..old(g)@.conns[i as int]
            }));
        }
    }
}

/// The two genomes hold the same nodes and connections of the same identity
/// (marker and endpoints) in the same order: only weights or enabled flags
/// may differ.
pub open spec fn same_conn_identities(a: GenomeView, b: GenomeView) -> bool {
    &&& a.nodes == b.nodes
    &&& a.conns.len() == b.conns.len()
    &&& forall|i: int|
        0 <= i < a.conns.len() ==> (#[trigger] a.conns[i]).marker() == b.conns[i].marker()
            && a.conns[i].from() == b.conns[i].from() && a.conns[i].to() == b.conns[i].to()
}

/// Changing only weights or enabled flags keeps every genome invariant.
pub proof fn lemma_identity_update_ok(
    old_g: GenomeView,
    new_g: GenomeView,
    cp: Map<u64, ConnectionGene>,
)
    requires
        genome_ok(old_g, cp),
        new_g.wf(),
        same_conn_identities(old_g, new_g),
    ensures
        genome_ok(new_g, cp),
{
    assert forall|k: int|
        0 <= k < new_g.conns.len() implies contains_marker(
        new_g.nodes,
        #[trigger] new_g.conns[k].from(),
    ) && contains_marker(new_g.nodes, new_g.conns[k].to()) && aligned_gene(
        new_g.conns[k],
        cp,
    ) by {
        assert(contains_marker(old_g.nodes, old_g.conns[k].from()));
        assert(aligned_gene(old_g.conns[k], cp));
    }
}


/// A genome after the optional add-node step: unchanged, or split once.
pub open spec fn node_phase(x: GenomeView, y: GenomeView, cfg: &Config) -> bool {
    y == x || exists|np0: Map<u64, NodeGene>, np1: Map<u64, NodeGene>, cp1: Map<
        u64,
        ConnectionGene,
    >, m: u64| add_node_effect(x, y, np0, np1, cp1, m, cfg)
}

/// A genome after the optional add-connection step: unchanged, or extended
/// by one registry gene between unconnected nodes.
pub open spec fn conn_phase(x: GenomeView, y: GenomeView) -> bool {
    y == x || exists|cp2: Map<u64, ConnectionGene>, f: u64, t: u64| add_conn_effect(x, y, cp2, f, t)
}

/// Everything one pass of the mutation phase can do to a genome: a phase
/// that may retouch weights and enabled flags but keeps every gene's
/// identity, then at most one add-node split, then at most one added
/// connection. The registry states inside are existential; the operators'
/// own contracts pin them against the engine's registries.
pub open spec fn mutated_by_operators(g0: GenomeView, g1: GenomeView, cfg: &Config) -> bool {
    exists|ga: GenomeView, gb: GenomeView|
        #![trigger node_phase(ga, gb, cfg)]
        same_conn_identities(g0, ga) && node_phase(ga, gb, cfg) && conn_phase(gb, g1)
}

/// A genome's gene identities match themselves.
pub proof fn lemma_same_identities_refl(a: GenomeView)
    ensures
        same_conn_identities(a, a),
{
}

/// Gene-identity preservation composes.
pub proof fn lemma_same_identities_trans(a: GenomeView, b: GenomeView, c: GenomeView)
    requires
        same_conn_identities(a, b),
        same_conn_identities(b, c),
    ensures
        same_conn_identities(a, c),
{
    assert forall|i: int|
        0 <= i < a.conns.len() implies (#[trigger] a.conns[i]).marker() == c.conns[i].marker()
            && a.conns[i].from() == c.conns[i].from() && a.conns[i].to() == c.conns[i].to() by {
        assert(a.conns[i].marker() == b.conns[i].marker());
        assert(b.conns[i].marker() == c.conns[i].marker());
    }
}

/// Applies each mutation operator to the genome independently, with its
/// configured probability; the result differs from the input only by the
/// operators' effects.
pub fn mutate_genome(
    g: &mut Genome,
    node_pool: &mut HashMap<u64, NodeGene>,
    conn_pool: &mut HashMap<u64, ConnectionGene>,
    cfg: &Config,
)
    requires
        cfg.wf(),
        genome_ok(old(g)@, old(conn_pool)@),
        node_pool_wf(old(node_pool)@, cfg.spec_io_count()),
        conn_pool_wf(old(conn_pool)@),
    ensures
        genome_ok(final(g)@, final(conn_pool)@),
        node_pool_wf(final(node_pool)@, cfg.spec_io_count()),
        conn_pool_wf(final(conn_pool)@),
        map_extends(final(node_pool)@, old(node_pool)@),
        map_extends(final(conn_pool)@, old(conn_pool)@),
        mutated_by_operators(old(g)@, final(g)@, cfg),
{
    if rand_chance() < cfg.m_weight_shift {
        let ghost g0 = g@;
        mutate_weight_shift(g, cfg);
        proof {
            lemma_identity_update_ok(g0, g@, conn_pool@);
            lemma_same_identities_refl(old(g)@);
            lemma_same_identities_trans(old(g)@, g0, g@);
        }
    }
    if rand_chance() < cfg.m_weight_random {
        let ghost g0 = g@;
        mutate_weight_random(g, cfg);
        proof {
            lemma_identity_update_ok(g0, g@, conn_pool@);
            lemma_same_identities_refl(old(g)@);
            if old(g)@ != g0 {
            }
            lemma_same_identities_trans(old(g)@, g0, g@);
        }
    }
    if rand_chance() < cfg.m_conn_enabled {
        let ghost g0 = g@;
        mutate_conn_enabled(g);
        proof {
            lemma_identity_update_ok(g0, g@, conn_pool@);
            lemma_same_identities_refl(old(g)@);
            lemma_same_identities_trans(old(g)@, g0, g@);
        }
    }
    let ghost ga = g@;
    proof {
        lemma_same_identities_refl(old(g)@);
        assert(same_conn_identities(old(g)@, ga));
    }
    let ghost np_before = node_pool@;
    if rand_chance() < cfg.m_node {
        mutate_new_node(g, node_pool, conn_pool, cfg);
    }
    let ghost gb = g@;
    let ghost cp_mid = conn_pool@;
    proof {
        assert(node_phase(ga, gb, cfg)) by {
            if gb != ga {
                let m = choose|m: u64|
                    add_node_effect(ga, gb, np_before, node_pool@, conn_pool@, m, cfg);
                assert(add_node_effect(ga, gb, np_before, node_pool@, conn_pool@, m, cfg));
            }
        }
    }
    if rand_chance() < cfg.m_conn {
        mutate_new_conn(g, conn_pool, cfg);
    }
    proof {
        lemma_map_extends_trans(old(conn_pool)@, cp_mid, conn_pool@);
        assert(conn_phase(gb, g@)) by {
            if g@ != gb {
                let (f, t) = choose|f: u64, t: u64| add_conn_effect(gb, g@, conn_pool@, f, t);
                assert(add_conn_effect(gb, g@, conn_pool@, f, t));
            }
        }
        assert(mutated_by_operators(old(g)@, g@, cfg));
    }
}

} // verus!
