use vstd::prelude::*;

use crate::connection_gene::ConnectionGene;
use crate::genome::{Genome, GenomeView};
use crate::rng::rand_index;
use crate::vecset::{
    contains_marker, lemma_lookup_contains, lemma_lookup_unique, lookup_marker, markers_sorted,
    Gene, VecSet,
};

verus! {

/// Some element of the sequence is this very gene.
pub open spec fn contains_gene<T: Gene>(s: Seq<T>, g: T) -> bool {
    exists|i: int| 0 <= i < s.len() && s[i] == g
}

/// What a marker looks up is an element of the sequence.
pub proof fn lemma_lookup_is_element<T: Gene>(s: Seq<T>, m: u64)
    requires
        lookup_marker(s, m) is Some,
    ensures
        contains_gene(s, lookup_marker(s, m)->Some_0),
    decreases s.len(),
{
    if s.len() > 0 {
        if s.last().marker() == m {
            assert(s[s.len() - 1] == lookup_marker(s, m)->Some_0);
        } else {
            lemma_lookup_is_element(s.drop_last(), m);
            let i = choose|i: int|
                0 <= i < s.drop_last().len() && s.drop_last()[i] == lookup_marker(s, m)->Some_0;
            assert(s[i] == lookup_marker(s, m)->Some_0);
        }
    }
}

/// Two gene lists agree on the structure of shared markers: genes with the
/// same marker have the same endpoints. The registries guarantee this for
/// every pair of genomes of one run.
pub open spec fn marker_consistent(a: Seq<ConnectionGene>, b: Seq<ConnectionGene>) -> bool {
    forall|i: int, j: int|
        0 <= i < a.len() && 0 <= j < b.len() && (#[trigger] a[i]).marker() == (
        #[trigger] b[j]).marker() ==> a[i].from() == b[j].from() && a[i].to() == b[j].to()
}

/// Everything crossover promises of a child, as one predicate: the child
/// carries the fitter parent's node set whole and exactly the fitter
/// parent's connection markers, and every one of its genes is one of the
/// parents' genes.
pub open spec fn crossover_shape(
    child: GenomeView,
    a: GenomeView,
    b: GenomeView,
    a_fitter: bool,
) -> bool {
    &&& child.nodes == (if a_fitter {
        a.nodes
    } else {
        b.nodes
    })
    &&& child.conns.len() == (if a_fitter {
        a.conns.len()
    } else {
        b.conns.len()
    })
    &&& forall|m: u64|
        contains_marker(child.conns, m) <==> contains_marker(
            if a_fitter {
                a.conns
            } else {
                b.conns
            },
            m,
        )
    &&& forall|i: int|
        0 <= i < child.conns.len() ==> contains_gene(a.conns, #[trigger] child.conns[i])
            || contains_gene(b.conns, child.conns[i])
}

/// Creates a new genome from two parents. The child takes the fitter
/// parent's node set whole; for every connection marker of the fitter parent
/// the child holds either parent's gene (picked at random where both carry
/// the marker), so disjoint and excess genes come from the fitter parent
/// alone and the child's marker order follows the fitter parent's.
pub fn crossover(g1: &Genome, g2: &Genome, g1_fitter_than_g2: bool) -> (child: Genome)
    requires
        g1@.wf(),
        g2@.wf(),
    ensures
        child@.wf(),
        child@.nodes == if g1_fitter_than_g2 {
            g1@.nodes
        } else {
            g2@.nodes
        },
        child@.conns.len() == if g1_fitter_than_g2 {
            g1@.conns.len()
        } else {
            g2@.conns.len()
        },
        forall|m: u64|
            contains_marker(child@.conns, m) <==> contains_marker(
                if g1_fitter_than_g2 {
                    g1@.conns
                } else {
                    g2@.conns
                },
                m,
            ),
        forall|i: int|
            0 <= i < child@.conns.len() ==> contains_gene(g1@.conns, #[trigger] child@.conns[i])
                || contains_gene(g2@.conns, child@.conns[i]),
        (g1@.closed() && g2@.closed() && marker_consistent(g1@.conns, g2@.conns))
            ==> child@.closed(),
        (if g1_fitter_than_g2 {
            g1@
        } else {
            g2@
        }).bounded() ==> child@.bounded(),
        crossover_shape(child@, g1@, g2@, g1_fitter_than_g2),
{
    let (fit, weak): (&Genome, &Genome) = if g1_fitter_than_g2 {
        (g1, g2)
    } else {
        (g2, g1)
    };
    let ghost fv = fit@;
    let ghost wv = weak@;
    let nodes = fit.nodes.clone();
    let mut conns = VecSet::<ConnectionGene>::new();
    let n = fit.connections.len();
    let mut i: usize = 0;
    while i < n
        invariant
            fv.wf(),
            wv.wf(),
            fit@ == fv,
            weak@ == wv,
            n == fv.conns.len(),
            i <= n,
            conns.wf(),
            conns@.len() == i,
            forall|k: int|
                0 <= k < i ==> (#[trigger] conns@[k]).marker() == fv.conns[k].marker(),
            forall|k: int|
                0 <= k < i ==> (#[trigger] conns@[k]) == fv.conns[k] || (contains_marker(
                    wv.conns,
                    fv.conns[k].marker(),
                ) && conns@[k] == lookup_marker(wv.conns, fv.conns[k].marker())->Some_0),
        decreases n - i,
    {
        let c = *fit.connections.get(i);
        let m = c.get_innov();
        let pick: ConnectionGene = if weak.connections.contains_innov(m) {
            if rand_index(2) == 0 {
                c
            } else {
                *weak.connections.get_by_innov(m)
            }
        } else {
            c
        };
        proof {
            assert(pick.marker() == fv.conns[i as int].marker());
            if conns@.len() > 0 {
                assert(conns@.last().marker() == fv.conns[i - 1].marker());
                assert(fv.conns[i - 1].marker() < fv.conns[i as int].marker());
            }
        }
        conns.push_max(pick);
        i += 1;
    }
    let child = Genome { nodes, connections: conns };
    proof {
        let cv = child@;
        assert(cv.nodes == fv.nodes);
        assert forall|m: u64| contains_marker(cv.conns, m) implies contains_marker(
            fv.conns,
            m,
        ) by {
            let k = choose|k: int| 0 <= k < cv.conns.len() && cv.conns[k].marker() == m;
            assert(fv.conns[k].marker() == m);
        }
        assert forall|m: u64| contains_marker(fv.conns, m) implies contains_marker(
            cv.conns,
            m,
        ) by {
            let k = choose|k: int| 0 <= k < fv.conns.len() && fv.conns[k].marker() == m;
            assert(cv.conns[k].marker() == m);
        }
        assert forall|k: int|
            0 <= k < cv.conns.len() implies contains_gene(g1@.conns, #[trigger] cv.conns[k])
            || contains_gene(g2@.conns, cv.conns[k]) by {
            if cv.conns[k] == fv.conns[k] {
                assert(contains_gene(fv.conns, cv.conns[k]));
            } else {
                lemma_lookup_contains(wv.conns, fv.conns[k].marker());
                lemma_lookup_is_element(wv.conns, fv.conns[k].marker());
            }
        }
        if g1@.closed() && g2@.closed() && marker_consistent(g1@.conns, g2@.conns) {
            assert forall|k: int|
                0 <= k < cv.conns.len() implies contains_marker(
                cv.nodes,
                #[trigger] cv.conns[k].from(),
            ) && contains_marker(cv.nodes, cv.conns[k].to()) by {
                if cv.conns[k] == fv.conns[k] {
                } else {
                    let wc = lookup_marker(wv.conns, fv.conns[k].marker())->Some_0;
                    lemma_lookup_contains(wv.conns, fv.conns[k].marker());
                    lemma_lookup_is_element(wv.conns, fv.conns[k].marker());
                    let jw = choose|j: int| 0 <= j < wv.conns.len() && wv.conns[j] == wc;
                    assert(wv.conns[jw].marker() == fv.conns[k].marker());
                    if g1_fitter_than_g2 {
                        assert(fv.conns[k].from() == wv.conns[jw].from() && fv.conns[k].to()
                            == wv.conns[jw].to());
                    } else {
                        assert(wv.conns[jw].from() == fv.conns[k].from() && wv.conns[jw].to()
                            == fv.conns[k].to());
                    }
                    assert(cv.conns[k].from() == fv.conns[k].from());
                    assert(cv.conns[k].to() == fv.conns[k].to());
                }
            }
        }
    }
    child
}

} // verus!
