use vstd::prelude::*;

use std::collections::HashMap;

use crate::config::{Config, MAX_NODES};
use crate::connection_gene::{spec_conn_hashcode, conn_hashcode, ConnectionGene};
use crate::node_gene::NodeGene;
use crate::pools::{node_pool_wf, conn_pool_wf};
use crate::vecset::{contains_marker, markers_sorted, lookup_marker, sorted_insert, Gene, VecSet};

verus! {

broadcast use vstd::std_specs::hash::group_hash_axioms;

/// The mathematical content of a genome: its two marker-ordered gene lists.
pub ghost struct GenomeView {
    pub nodes: Seq<NodeGene>,
    pub conns: Seq<ConnectionGene>,
}

impl GenomeView {
    /// Markers strictly ascend within each gene list; the genome invariant.
    pub open spec fn wf(&self) -> bool {
        &&& markers_sorted(self.nodes)
        &&& markers_sorted(self.conns)
    }

    /// Every connection endpoint names a node the genome holds.
    pub open spec fn closed(&self) -> bool {
        forall|i: int|
            0 <= i < self.conns.len() ==> contains_marker(
                self.nodes,
                #[trigger] self.conns[i].from(),
            ) && contains_marker(self.nodes, self.conns[i].to())
    }

    /// All node markers stay below the bound the connection hash codes need.
    pub open spec fn bounded(&self) -> bool {
        forall|i: int| 0 <= i < self.nodes.len() ==> (#[trigger] self.nodes[i].marker())
            < MAX_NODES
    }

    /// A directed edge between two node markers, irrespective of the enabled
    /// flag.
    pub open spec fn has_edge(&self, from: u64, to: u64) -> bool {
        exists|i: int|
            0 <= i < self.conns.len() && (#[trigger] self.conns[i]).from() == from
                && self.conns[i].to() == to
    }

    /// A directed path of one or more edges along the given node markers.
    pub open spec fn is_path(&self, p: Seq<u64>) -> bool {
        &&& p.len() >= 2
        &&& forall|i: int| 0 <= i < p.len() - 1 ==> self.has_edge(#[trigger] p[i], p[i + 1])
    }

    /// A directed path of at least one edge leads from one marker to another.
    pub open spec fn connected(&self, from: u64, to: u64) -> bool {
        exists|p: Seq<u64>| self.is_path(p) && p.first() == from && p.last() == to
    }
}

/// An encoding for a neural network: a duplicate-free, marker-ordered node
/// set and connection set, with the mutation, crossover and speciation
/// machinery built around it.
pub struct Genome {
    pub nodes: VecSet<NodeGene>,
    pub connections: VecSet<ConnectionGene>,
}

impl View for Genome {
    type V = GenomeView;

    open spec fn view(&self) -> GenomeView {
        GenomeView { nodes: self.nodes@, conns: self.connections@ }
    }
}

impl Clone for Genome {
    fn clone(&self) -> (r: Self)
        ensures
            r@ == self@,
    {
        Genome { nodes: self.nodes.clone(), connections: self.connections.clone() }
    }
}

impl Genome {
    /// Constructs a genome with zero connections and zero nodes.
    pub fn new() -> (r: Genome)
        ensures
            r@.nodes == Seq::<NodeGene>::empty(),
            r@.conns == Seq::<ConnectionGene>::empty(),
            r@.wf(),
            r@.closed(),
            r@.bounded(),
    {
        Genome { nodes: VecSet::new(), connections: VecSet::new() }
    }

    /// Constructs a genome holding clones of the input, bias and output node
    /// templates of the registry, and no connections.
    pub fn new_init(node_pool: &HashMap<u64, NodeGene>, cfg: &Config) -> (r: Genome)
        requires
            cfg.wf(),
            node_pool_wf(node_pool@, cfg.spec_io_count()),
        ensures
            r@.wf(),
            r@.closed(),
            r@.bounded(),
            r@.conns == Seq::<ConnectionGene>::empty(),
            r@.nodes.len() == cfg.spec_io_count(),
            forall|j: int|
                0 <= j < cfg.spec_io_count() ==> #[trigger] r@.nodes[j] == node_pool@[j as u64],
    {
        let ibo = cfg.io_count();
        let mut nodes = VecSet::<NodeGene>::new();
        let mut i: usize = 0;
        while i < ibo
            invariant
                cfg.wf(),
                node_pool_wf(node_pool@, ibo as int),
                ibo == cfg.spec_io_count(),
                i <= ibo,
                nodes.wf(),
                nodes@.len() == i,
                forall|j: int| 0 <= j < i ==> #[trigger] nodes@[j] == node_pool@[j as u64],
                forall|j: int| 0 <= j < i ==> (#[trigger] nodes@[j]).marker() == j,
            decreases ibo - i,
        {
            let g = *node_pool.get(&(i as u64)).unwrap();
            proof {
                assert(node_pool@.contains_key(i as u64));
                assert(g == node_pool@[i as u64]);
                assert(g.marker() == i);
                assert(!contains_marker(nodes@, g.marker()));
                if nodes@.len() > 0 {
                    assert(nodes@.last().marker() < g.marker());
                    assert(sorted_insert(nodes@, g) == nodes@.push(g));
                } else {
                    assert(sorted_insert(nodes@, g) =~= nodes@.push(g));
                }
            }
            nodes.push(g);
            i += 1;
        }
        Genome { nodes, connections: VecSet::new() }
    }

    /// Constructs a genome with the input, bias and output nodes and a clone
    /// of the registry's connection template from each input or bias node to
    /// each output node.
    pub fn new_fully_connected(
        node_pool: &HashMap<u64, NodeGene>,
        conn_pool: &HashMap<u64, ConnectionGene>,
        cfg: &Config,
    ) -> (r: Genome)
        requires
            cfg.wf(),
            node_pool_wf(node_pool@, cfg.spec_io_count()),
            conn_pool_wf(conn_pool@),
            fully_connected_pool(conn_pool@, cfg),
        ensures
            r@.wf(),
            r@.closed(),
            r@.bounded(),
            r@.nodes.len() == cfg.spec_io_count(),
            forall|j: int|
                0 <= j < cfg.spec_io_count() ==> #[trigger] r@.nodes[j] == node_pool@[j as u64],
            r@.conns.len() == cfg.spec_input_count() * cfg.outputs,
            forall|j: int|
                0 <= j < r@.conns.len() ==> (#[trigger] r@.conns[j]).enabled()
                    && r@.conns[j].from() < cfg.spec_input_count() && cfg.spec_input_count()
                    <= r@.conns[j].to() < cfg.spec_io_count(),
            conn_aligned(r@, conn_pool@),
    {
        let base = Genome::new_init(node_pool, cfg);
        let nodes = base.nodes;
        let ib = cfg.inputs + if cfg.bias { 1 } else { 0 };
        let ibo = cfg.io_count();
        let mut conns = VecSet::<ConnectionGene>::new();
        let mut from: usize = 0;
        while from < ib
            invariant
                cfg.wf(),
                conn_pool_wf(conn_pool@),
                fully_connected_pool(conn_pool@, cfg),
                ib == cfg.spec_input_count(),
                ibo == cfg.spec_io_count(),
                from <= ib,
                conns.wf(),
                conns@.len() == from * cfg.outputs,
                forall|j: int|
                    0 <= j < conns@.len() ==> (#[trigger] conns@[j]).enabled() && conns@[j].from()
                        < cfg.spec_input_count() && cfg.spec_input_count() <= conns@[j].to() < cfg.spec_io_count(),
                forall|j: int|
                    0 <= j < conns@.len() ==> (#[trigger] conns@[j]).marker() < from * cfg.outputs,
                forall|j: int| 0 <= j < conns@.len() ==> aligned_gene(#[trigger] conns@[j], conn_pool@),
            decreases ib - from,
        {
            let mut t: usize = 0;
            while t < cfg.outputs
                invariant
                    cfg.wf(),
                    conn_pool_wf(conn_pool@),
                    fully_connected_pool(conn_pool@, cfg),
                    ib == cfg.spec_input_count(),
                    ibo == cfg.spec_io_count(),
                    from < ib,
                    t <= cfg.outputs,
                    conns.wf(),
                    conns@.len() == from * cfg.outputs + t,
                    forall|j: int|
                        0 <= j < conns@.len() ==> (#[trigger] conns@[j]).enabled()
                            && conns@[j].from() < cfg.spec_input_count() && cfg.spec_input_count()
                            <= conns@[j].to() < cfg.spec_io_count(),
                    forall|j: int|
                        0 <= j < conns@.len() ==> (#[trigger] conns@[j]).marker() < from
                            * cfg.outputs + t,
                    forall|j: int| 0 <= j < conns@.len() ==> aligned_gene(#[trigger] conns@[j], conn_pool@),
                decreases cfg.outputs - t,
            {
                proof {
                    mul_bounds(from as int, ib as int, cfg.outputs as int);
                }
                let to = ib + t;
                let key = conn_hashcode(from as u64, to as u64);
                proof {
                    assert(conn_pool@.contains_key(key));
                }
                let c = *conn_pool.get(&key).unwrap();
                proof {
                    assert(c == conn_pool@[key]);
                    assert(aligned_gene(c, conn_pool@)) by {
                        assert(key == spec_conn_hashcode(c.from(), c.to()));
                    }
                    assert(c.marker() == from * cfg.outputs + t);
                    assert(!contains_marker(conns@, c.marker()));
                    if conns@.len() > 0 {
                        assert(conns@.last().marker() < c.marker());
                        assert(sorted_insert(conns@, c) == conns@.push(c));
                    } else {
                        assert(sorted_insert(conns@, c) =~= conns@.push(c));
                    }
                }
                conns.push(c);
                t += 1;
            }
            from += 1;
            proof {
                assert(from * cfg.outputs == (from - 1) * cfg.outputs + cfg.outputs) by (nonlinear_arith);
            }
        }
        let r = Genome { nodes, connections: conns };
        proof {
            assert forall|i: int| 0 <= i < r@.conns.len() implies contains_marker(
                r@.nodes,
                #[trigger] r@.conns[i].from(),
            ) && contains_marker(r@.nodes, r@.conns[i].to()) by {
                let f = r@.conns[i].from();
                let t2 = r@.conns[i].to();
                assert(r@.nodes[f as int].marker() == f);
                assert(r@.nodes[t2 as int].marker() == t2);
            }
        }
        r
    }

    pub fn get_nodes(&self) -> (r: &VecSet<NodeGene>)
        ensures
            r@ == self@.nodes,
    {
        &self.nodes
    }

    pub fn get_connections(&self) -> (r: &VecSet<ConnectionGene>)
        ensures
            r@ == self@.conns,
    {
        &self.connections
    }

    /// Whether the genome holds the input, bias and output nodes a network
    /// of the given shape needs.
    pub fn has_ibo(&self, cfg: &Config) -> (r: bool)
        requires
            cfg.wf(),
            self@.wf(),
        ensures
            r == forall|m: u64| 0 <= m < cfg.spec_io_count() ==> contains_marker(self@.nodes, m),
    {
        let ibo = cfg.io_count();
        let mut res = true;
        let mut i: usize = 0;
        while i < ibo
            invariant
                self@.wf(),
                ibo == cfg.spec_io_count(),
                i <= ibo,
                res == forall|m: u64| 0 <= m < i ==> contains_marker(self@.nodes, m),
            decreases ibo - i,
        {
            if !self.nodes.contains_innov(i as u64) {
                res = false;
            }
            i += 1;
        }
        res
    }
}

/// A connection gene matches the registry: the registry holds its endpoint
/// pair, under the same marker.
pub open spec fn aligned_gene(c: ConnectionGene, cp: Map<u64, ConnectionGene>) -> bool {
    &&& c.from() < MAX_NODES
    &&& c.to() < MAX_NODES
    &&& cp.contains_key(spec_conn_hashcode(c.from(), c.to()))
    &&& cp[spec_conn_hashcode(c.from(), c.to())].marker() == c.marker()
}

/// Every connection of the genome came from the registry: same endpoints,
/// same marker. All genomes of a run satisfy this against the run's registry,
/// which is what makes markers align across genomes.
pub open spec fn conn_aligned(gv: GenomeView, cp: Map<u64, ConnectionGene>) -> bool {
    forall|i: int| 0 <= i < gv.conns.len() ==> aligned_gene(#[trigger] gv.conns[i], cp)
}

/// The conditions a connection registry meets exactly when it was seeded for
/// a fully connected start: one template from each input or bias node to each
/// output node, markers counted off in that order.
pub open spec fn fully_connected_pool(p: Map<u64, ConnectionGene>, cfg: &Config) -> bool {
    forall|f: int, t: int|
        #![trigger spec_conn_hashcode(f as u64, t as u64)]
        0 <= f < cfg.spec_input_count() && cfg.spec_input_count() <= t < cfg.spec_io_count() ==> {
            &&& p.contains_key(spec_conn_hashcode(f as u64, t as u64))
            &&& p[spec_conn_hashcode(f as u64, t as u64)].from() == f
            &&& p[spec_conn_hashcode(f as u64, t as u64)].to() == t
            &&& p[spec_conn_hashcode(f as u64, t as u64)].marker() == f * cfg.outputs + (t
                - cfg.spec_input_count())
            &&& p[spec_conn_hashcode(f as u64, t as u64)].enabled()
        }
}

/// Gene lists aligned with one registry agree on marker structure: two genes
/// with the same marker name the same endpoints, because the registry uses
/// each marker only once.
pub proof fn lemma_aligned_consistent(
    a: Seq<ConnectionGene>,
    b: Seq<ConnectionGene>,
    cp: Map<u64, ConnectionGene>,
)
    requires
        crate::pools::conn_pool_wf(cp),
        forall|i: int| 0 <= i < a.len() ==> aligned_gene(#[trigger] a[i], cp),
        forall|i: int| 0 <= i < b.len() ==> aligned_gene(#[trigger] b[i], cp),
    ensures
        crate::crossover::marker_consistent(a, b),
{
    assert forall|i: int, j: int|
        0 <= i < a.len() && 0 <= j < b.len() && (#[trigger] a[i]).marker() == (
        #[trigger] b[j]).marker() implies a[i].from() == b[j].from() && a[i].to() == b[j].to() by {
        assert(aligned_gene(a[i], cp));
        assert(aligned_gene(b[j], cp));
        let ka = spec_conn_hashcode(a[i].from(), a[i].to());
        let kb = spec_conn_hashcode(b[j].from(), b[j].to());
        assert(ka == kb) by {
            if ka != kb {
                assert(cp[ka].marker() != cp[kb].marker());
            }
        }
        crate::connection_gene::lemma_conn_hashcode_injective(
            a[i].from(),
            a[i].to(),
            b[j].from(),
            b[j].to(),
        );
    }
}

/// Bounds on a product of bounded non-negative factors.
pub proof fn mul_bounds(a: int, amax: int, b: int)
    requires
        0 <= a < amax,
        0 <= b,
    ensures
        a * b + b <= amax * b,
        (a + 1) * b == a * b + b,
    decreases b,
{
    assert(a * b + b <= amax * b) by (nonlinear_arith)
        requires
            0 <= a < amax,
            0 <= b,
    {
    }
    assert((a + 1) * b == a * b + b) by (nonlinear_arith);
}

impl Config {
    /// Count of the input and bias nodes, the markers `0..input_count()`.
    pub open spec fn spec_input_count(&self) -> int {
        self.inputs + if self.bias {
            1int
        } else {
            0int
        }
    }

    pub fn input_count(&self) -> (r: usize)
        requires
            self.wf(),
        ensures
            r == self.spec_input_count(),
    {
        self.inputs + if self.bias {
            1usize
        } else {
            0usize
        }
    }

    /// Count of the input, bias and output nodes, the markers every genome
    /// starts from.
    pub open spec fn spec_io_count(&self) -> int {
        self.spec_input_count() + self.outputs
    }

    pub fn io_count(&self) -> (r: usize)
        requires
            self.wf(),
        ensures
            r == self.spec_io_count(),
    {
        self.input_count() + self.outputs
    }
}

} // verus!
