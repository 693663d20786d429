use vstd::prelude::*;

use crate::config::Config;
use crate::connection_gene::ConnectionGene;
use crate::genome::{Genome, GenomeView};
use crate::vecset::{
    contains_marker, lemma_lookup_contains, lemma_lookup_unique, lookup_marker, markers_sorted,
    Gene, VecSet,
};

verus! {

/// The subsequence of the enabled connection genes, in marker order. The
/// distance walk skips disabled genes on both sides alike, so that the
/// measure stays symmetric even when the two genomes disable different genes.
pub open spec fn enabled_only(s: Seq<ConnectionGene>) -> Seq<ConnectionGene>
    decreases s.len(),
{
    if s.len() == 0 {
        Seq::empty()
    } else {
        let p = enabled_only(s.drop_last());
        if s.last().enabled() {
            p.push(s.last())
        } else {
            p
        }
    }
}

pub open spec fn abs_i(x: int) -> int {
    if x < 0 {
        -x
    } else {
        x
    }
}

/// How many genes of `a` find a gene of the same marker in `b`.
pub open spec fn match_count(a: Seq<ConnectionGene>, b: Seq<ConnectionGene>) -> int
    decreases a.len(),
{
    if a.len() == 0 {
        0
    } else {
        match_count(a.drop_last(), b) + if lookup_marker(b, a.last().marker()) is Some {
            1int
        } else {
            0int
        }
    }
}

/// The summed absolute weight difference over the matching genes of `a` and
/// `b`, in thousandths.
pub open spec fn weight_diff_sum(a: Seq<ConnectionGene>, b: Seq<ConnectionGene>) -> int
    decreases a.len(),
{
    if a.len() == 0 {
        0
    } else {
        weight_diff_sum(a.drop_last(), b) + match lookup_marker(b, a.last().marker()) {
            Option::Some(c) => abs_i(a.last().weight() - c.weight()),
            Option::None => 0,
        }
    }
}

/// How many genes of `a` lack a partner in `b` and lie above (`above`) or at
/// or below (`!above`) the marker cap.
pub open spec fn unmatched_count(
    a: Seq<ConnectionGene>,
    b: Seq<ConnectionGene>,
    cap: int,
    above: bool,
) -> int
    decreases a.len(),
{
    if a.len() == 0 {
        0
    } else {
        unmatched_count(a.drop_last(), b, cap, above) + if lookup_marker(
            b,
            a.last().marker(),
        ) is None && ((a.last().marker() > cap) == above) {
            1int
        } else {
            0int
        }
    }
}

/// The largest marker of a marker-sorted sequence, `-1` when it is empty.
pub open spec fn max_marker(s: Seq<ConnectionGene>) -> int {
    if s.len() == 0 {
        -1
    } else {
        s.last().marker() as int
    }
}

/// Excess genes: enabled genes of either side without a partner, past the
/// shorter side's largest enabled marker.
pub open spec fn spec_excess(a: Seq<ConnectionGene>, b: Seq<ConnectionGene>) -> int {
    let cap = if max_marker(a) <= max_marker(b) {
        max_marker(a)
    } else {
        max_marker(b)
    };
    unmatched_count(a, b, cap, true) + unmatched_count(b, a, cap, true)
}

/// Disjoint genes: enabled genes of either side without a partner, at or
/// below the shorter side's largest enabled marker.
pub open spec fn spec_disjoint(a: Seq<ConnectionGene>, b: Seq<ConnectionGene>) -> int {
    let cap = if max_marker(a) <= max_marker(b) {
        max_marker(a)
    } else {
        max_marker(b)
    };
    unmatched_count(a, b, cap, false) + unmatched_count(b, a, cap, false)
}

/// The genetic distance between two genomes, in thousandths:
/// `c1 * excess / n + c2 * disjoint / n + c3 * mean_weight_diff`, where `n`
/// is the larger enabled-gene count (at least 1) and every term is computed
/// over the enabled genes only, with flooring integer division.
pub open spec fn spec_distance(g1: GenomeView, g2: GenomeView, cfg: &Config) -> int {
    let a = enabled_only(g1.conns);
    let b = enabled_only(g2.conns);
    let n = if a.len() <= b.len() {
        b.len() as int
    } else {
        a.len() as int
    };
    let n1 = if n == 0 {
        1int
    } else {
        n
    };
    let m = match_count(a, b);
    let m1 = if m == 0 {
        1int
    } else {
        m
    };
    cfg.c1 * spec_excess(a, b) / n1 + cfg.c2 * spec_disjoint(a, b) / n1 + cfg.c3 * (weight_diff_sum(
        a,
        b,
    ) / m1) / 1000
}

/// A value clamped into `u64`.
pub open spec fn clamp_u64(d: int) -> int {
    if d > u64::MAX {
        u64::MAX as int
    } else {
        d
    }
}

/// `enabled_only` keeps the marker order and represents exactly the enabled
/// genes of its input.
pub proof fn lemma_enabled_only(s: Seq<ConnectionGene>)
    requires
        markers_sorted(s),
    ensures
        markers_sorted(enabled_only(s)),
        enabled_only(s).len() <= s.len(),
        forall|i: int|
            0 <= i < enabled_only(s).len() ==> (#[trigger] enabled_only(s)[i]).enabled(),
        forall|i: int|
            0 <= i < enabled_only(s).len() ==> contains_marker(
                s,
                (#[trigger] enabled_only(s)[i]).marker(),
            ),
        forall|i: int|
            0 <= i < s.len() && (#[trigger] s[i]).enabled() ==> contains_marker(
                enabled_only(s),
                s[i].marker(),
            ),
        forall|m: u64|
            contains_marker(enabled_only(s), m) ==> lookup_marker(enabled_only(s), m)
                == lookup_marker(s, m),
    decreases s.len(),
{
    if s.len() == 0 {
    } else {
        let s0 = s.drop_last();
        let e0 = enabled_only(s0);
        lemma_enabled_only(s0);
        let e = enabled_only(s);
        assert forall|i: int| 0 <= i < e0.len() implies e0[i].marker() < s.last().marker() by {
            assert(contains_marker(s0, e0[i].marker()));
            let j = choose|j: int| 0 <= j < s0.len() && s0[j].marker() == e0[i].marker();
            assert(s[j].marker() < s.last().marker());
        }
        if s.last().enabled() {
            assert(e == e0.push(s.last()));
            assert(markers_sorted(e)) by {
                assert forall|i: int, j: int| 0 <= i < j < e.len() implies e[i].marker()
                    < e[j].marker() by {
                    if j < e.len() - 1 {
                        assert(e[i] == e0[i] && e[j] == e0[j]);
                    } else {
                        assert(e[i] == e0[i]);
                    }
                }
            }
            assert forall|i: int|
                0 <= i < e.len() implies contains_marker(s, (#[trigger] e[i]).marker()) by {
                if i < e0.len() {
                    assert(contains_marker(s0, e0[i].marker()));
                    let j = choose|j: int| 0 <= j < s0.len() && s0[j].marker() == e0[i].marker();
                    assert(s[j].marker() == e[i].marker());
                } else {
                    assert(e[i] == s.last());
                    assert(s[s.len() - 1].marker() == e[i].marker());
                }
            }
            assert forall|i: int|
                0 <= i < s.len() && (#[trigger] s[i]).enabled() implies contains_marker(
                e,
                s[i].marker(),
            ) by {
                if i < s.len() - 1 {
                    assert(s0[i] == s[i]);
                    assert(contains_marker(e0, s[i].marker()));
                    let j = choose|j: int| 0 <= j < e0.len() && e0[j].marker() == s[i].marker();
                    assert(e[j].marker() == s[i].marker());
                } else {
                    assert(e[e.len() - 1].marker() == s[i].marker());
                }
            }
            assert forall|m: u64| contains_marker(e, m) implies lookup_marker(e, m)
                == lookup_marker(s, m) by {
                assert(e.drop_last() =~= e0);
                if m == s.last().marker() {
                } else {
                    let i = choose|i: int| 0 <= i < e.len() && e[i].marker() == m;
                    assert(i < e0.len());
                    assert(e0[i].marker() == m);
                    assert(contains_marker(e0, m));
                    assert(lookup_marker(e0, m) == lookup_marker(s0, m));
                }
            }
        } else {
            assert(e == e0);
            assert forall|i: int|
                0 <= i < e.len() implies contains_marker(s, (#[trigger] e[i]).marker()) by {
                assert(contains_marker(s0, e0[i].marker()));
                let j = choose|j: int| 0 <= j < s0.len() && s0[j].marker() == e0[i].marker();
                assert(s[j].marker() == e[i].marker());
            }
            assert forall|i: int|
                0 <= i < s.len() && (#[trigger] s[i]).enabled() implies contains_marker(
                e,
                s[i].marker(),
            ) by {
                assert(i < s.len() - 1);
                assert(s0[i] == s[i]);
            }
            assert forall|m: u64| contains_marker(e, m) implies lookup_marker(e, m)
                == lookup_marker(s, m) by {
                assert(lookup_marker(e0, m) == lookup_marker(s0, m));
                let i = choose|i: int| 0 <= i < e.len() && e[i].marker() == m;
                assert(contains_marker(s0, m));
                let j = choose|j: int| 0 <= j < s0.len() && s0[j].marker() == m;
                assert(s[j].marker() < s.last().marker());
            }
        }
    }
}

/// Against an empty partner, nothing matches.
proof fn lemma_stats_empty(b: Seq<ConnectionGene>)
    ensures
        match_count(b, Seq::<ConnectionGene>::empty()) == 0,
        weight_diff_sum(b, Seq::<ConnectionGene>::empty()) == 0,
    decreases b.len(),
{
    if b.len() > 0 {
        lemma_stats_empty(b.drop_last());
    }
}

/// Appending one gene of a fresh marker to the partner list adds exactly that
/// gene's own match and weight contribution.
proof fn lemma_stats_push_partner(b: Seq<ConnectionGene>, a: Seq<ConnectionGene>, x: ConnectionGene)
    requires
        markers_sorted(b),
        !contains_marker(a, x.marker()),
    ensures
        match_count(b, a.push(x)) == match_count(b, a) + if lookup_marker(b, x.marker()) is Some {
            1int
        } else {
            0int
        },
        weight_diff_sum(b, a.push(x)) == weight_diff_sum(b, a) + match lookup_marker(
            b,
            x.marker(),
        ) {
            Option::Some(c) => abs_i(c.weight() - x.weight()),
            Option::None => 0,
        },
    decreases b.len(),
{
    let a1 = a.push(x);
    assert(a1.last() == x);
    assert(a1.drop_last() =~= a);
    if b.len() == 0 {
        lemma_lookup_contains(b, x.marker());
    } else {
        let b0 = b.drop_last();
        let cb = b.last();
        if cb.marker() == x.marker() {
            assert(lookup_marker(b, x.marker()) == Option::Some(cb));
            assert(lookup_marker(a1, cb.marker()) == Option::Some(x));
            assert(lookup_marker(a, cb.marker()) is None) by {
                lemma_lookup_contains(a, cb.marker());
            }
            assert(lookup_marker(b0, x.marker()) is None) by {
                lemma_lookup_contains(b0, x.marker());
                if contains_marker(b0, x.marker()) {
                    let i = choose|i: int| 0 <= i < b0.len() && b0[i].marker() == x.marker();
                    assert(b[i].marker() < b.last().marker());
                }
            }
            lemma_stats_push_partner(b0, a, x);
        } else {
            assert(lookup_marker(a1, cb.marker()) == lookup_marker(a, cb.marker()));
            assert(lookup_marker(b, x.marker()) == lookup_marker(b0, x.marker()));
            lemma_stats_push_partner(b0, a, x);
        }
    }
}

/// The matching statistics are symmetric between marker-sorted gene lists.
pub proof fn lemma_stats_symmetric(a: Seq<ConnectionGene>, b: Seq<ConnectionGene>)
    requires
        markers_sorted(a),
        markers_sorted(b),
    ensures
        match_count(a, b) == match_count(b, a),
        weight_diff_sum(a, b) == weight_diff_sum(b, a),
    decreases a.len(),
{
    if a.len() == 0 {
        lemma_stats_empty(b);
        assert(a =~= Seq::<ConnectionGene>::empty());
    } else {
        let a0 = a.drop_last();
        let x = a.last();
        assert(!contains_marker(a0, x.marker())) by {
            if contains_marker(a0, x.marker()) {
                let i = choose|i: int| 0 <= i < a0.len() && a0[i].marker() == x.marker();
                assert(a[i].marker() < a.last().marker());
            }
        }
        lemma_stats_symmetric(a0, b);
        lemma_stats_push_partner(b, a0, x);
        assert(a0.push(x) =~= a);
    }
}

/// Genes whose markers all find a partner leave no unmatched count, match
/// everywhere, and (against a partner holding the same genes) no weight
/// difference.
proof fn lemma_stats_total(a: Seq<ConnectionGene>, b: Seq<ConnectionGene>, cap: int, above: bool)
    requires
        forall|i: int|
            0 <= i < a.len() ==> lookup_marker(b, (#[trigger] a[i]).marker()) == Option::Some(
                a[i],
            ),
    ensures
        unmatched_count(a, b, cap, above) == 0,
        match_count(a, b) == a.len(),
        weight_diff_sum(a, b) == 0,
    decreases a.len(),
{
    if a.len() > 0 {
        let a0 = a.drop_last();
        assert forall|i: int|
            0 <= i < a0.len() implies lookup_marker(b, (#[trigger] a0[i]).marker())
            == Option::Some(a0[i]) by {
            assert(a0[i] == a[i]);
        }
        lemma_stats_total(a0, b, cap, above);
        assert(lookup_marker(b, a.last().marker()) == Option::Some(a.last()));
    }
}

/// The distance is never negative.
pub proof fn lemma_distance_nonneg(g1: GenomeView, g2: GenomeView, cfg: &Config)
    ensures
        0 <= spec_distance(g1, g2, cfg),
        0 <= clamp_u64(spec_distance(g1, g2, cfg)) <= u64::MAX,
{
    let a = enabled_only(g1.conns);
    let b = enabled_only(g2.conns);
    lemma_wds_bound(a, b);
    lemma_wds_bound(b, a);
    let n = if a.len() <= b.len() {
        b.len() as int
    } else {
        a.len() as int
    };
    let n1 = if n == 0 {
        1int
    } else {
        n
    };
    let m = match_count(a, b);
    let m1 = if m == 0 {
        1int
    } else {
        m
    };
    assert(spec_excess(a, b) >= 0);
    assert(spec_disjoint(a, b) >= 0);
    assert(cfg.c1 * spec_excess(a, b) >= 0) by (nonlinear_arith)
        requires
            cfg.c1 >= 0,
            spec_excess(a, b) >= 0,
    {
    }
    assert(cfg.c2 * spec_disjoint(a, b) >= 0) by (nonlinear_arith)
        requires
            cfg.c2 >= 0,
            spec_disjoint(a, b) >= 0,
    {
    }
    assert(weight_diff_sum(a, b) >= 0);
    assert(weight_diff_sum(a, b) / m1 >= 0) by (nonlinear_arith)
        requires
            weight_diff_sum(a, b) >= 0,
            m1 >= 1,
    {
    }
    assert(cfg.c3 * (weight_diff_sum(a, b) / m1) >= 0) by (nonlinear_arith)
        requires
            cfg.c3 >= 0,
            weight_diff_sum(a, b) / m1 >= 0,
    {
    }
    assert(cfg.c1 * spec_excess(a, b) / n1 >= 0) by (nonlinear_arith)
        requires
            cfg.c1 * spec_excess(a, b) >= 0,
            n1 >= 1,
    {
    }
    assert(cfg.c2 * spec_disjoint(a, b) / n1 >= 0) by (nonlinear_arith)
        requires
            cfg.c2 * spec_disjoint(a, b) >= 0,
            n1 >= 1,
    {
    }
    assert(cfg.c3 * (weight_diff_sum(a, b) / m1) / 1000 >= 0) by (nonlinear_arith)
        requires
            cfg.c3 * (weight_diff_sum(a, b) / m1) >= 0,
    {
    }
}

/// The distance is symmetric in its two genomes.
pub proof fn lemma_distance_symmetric(g1: GenomeView, g2: GenomeView, cfg: &Config)
    requires
        g1.wf(),
        g2.wf(),
    ensures
        spec_distance(g1, g2, cfg) == spec_distance(g2, g1, cfg),
{
    let a = enabled_only(g1.conns);
    let b = enabled_only(g2.conns);
    lemma_enabled_only(g1.conns);
    lemma_enabled_only(g2.conns);
    lemma_stats_symmetric(a, b);
}

/// The distance from a genome to itself is zero.
pub proof fn lemma_distance_self(g: GenomeView, cfg: &Config)
    requires
        g.wf(),
    ensures
        spec_distance(g, g, cfg) == 0,
{
    let a = enabled_only(g.conns);
    lemma_enabled_only(g.conns);
    assert forall|i: int|
        0 <= i < a.len() implies lookup_marker(a, (#[trigger] a[i]).marker()) == Option::Some(
        a[i],
    ) by {
        lemma_lookup_unique(a, i);
    }
    let cap = max_marker(a);
    lemma_stats_total(a, a, cap, true);
    lemma_stats_total(a, a, cap, false);
    assert(spec_excess(a, a) == 0);
    assert(spec_disjoint(a, a) == 0);
    assert(weight_diff_sum(a, a) == 0);
    let n = a.len() as int;
    let n1 = if n == 0 {
        1int
    } else {
        n
    };
    let m = match_count(a, a);
    let m1 = if m == 0 {
        1int
    } else {
        m
    };
    assert(cfg.c1 * 0 == 0) by (nonlinear_arith);
    assert(cfg.c2 * 0 == 0) by (nonlinear_arith);
    assert(cfg.c3 * 0 == 0) by (nonlinear_arith);
    assert(0int / n1 == 0) by (nonlinear_arith)
        requires
            n1 >= 1,
    {
    }
    assert(0int / m1 == 0) by (nonlinear_arith)
        requires
            m1 >= 1,
    {
    }
    assert(0int / 1000 == 0) by (nonlinear_arith);
}

/// A product grows with its left factor.
proof fn mul_le(a: int, b: int, k: int)
    requires
        0 <= a <= b,
        0 <= k,
    ensures
        a * k <= b * k,
{
    assert(a * k <= b * k) by (nonlinear_arith)
        requires
            0 <= a <= b,
            0 <= k,
    {
    }
}

/// The weight-difference sum stays below the match count times the largest
/// difference one pair of weights can show.
proof fn lemma_wds_bound(a: Seq<ConnectionGene>, b: Seq<ConnectionGene>)
    ensures
        0 <= match_count(a, b) <= a.len(),
        0 <= weight_diff_sum(a, b) <= match_count(a, b) * 0x1_0000_0000_0000_0000,
        forall|cap: int, above: bool| 0 <= #[trigger] unmatched_count(a, b, cap, above) <= a.len(),
    decreases a.len(),
{
    if a.len() == 0 {
    } else {
        lemma_wds_bound(a.drop_last(), b);
        let m0 = match_count(a.drop_last(), b);
        assert((m0 + 1) * 0x1_0000_0000_0000_0000 == m0 * 0x1_0000_0000_0000_0000
            + 0x1_0000_0000_0000_0000) by (nonlinear_arith);
        match lookup_marker(b, a.last().marker()) {
            Option::Some(c) => {
                assert(abs_i(a.last().weight() - c.weight()) < 0x1_0000_0000_0000_0000);
            },
            Option::None => {},
        }
        assert forall|cap: int, above: bool|
            0 <= #[trigger] unmatched_count(a, b, cap, above) <= a.len() by {
            assert(0 <= unmatched_count(a.drop_last(), b, cap, above) <= a.drop_last().len());
        }
    }
}

/// The subsequence of enabled genes, as a vector.
fn enabled_conns(v: &VecSet<ConnectionGene>) -> (r: Vec<ConnectionGene>)
    ensures
        r@ == enabled_only(v@),
{
    let mut acc: Vec<ConnectionGene> = Vec::new();
    let mut i: usize = 0;
    while i < v.len()
        invariant
            i <= v@.len(),
            acc@ == enabled_only(v@.take(i as int)),
        decreases v@.len() - i,
    {
        let c = *v.get(i);
        proof {
            assert(v@.take(i + 1).drop_last() =~= v@.take(i as int));
            assert(v@.take(i + 1).last() == v@[i as int]);
        }
        if c.is_enabled() {
            acc.push(c);
        }
        i += 1;
    }
    proof {
        assert(v@.take(v@.len() as int) =~= v@);
    }
    acc
}

/// The absolute difference of two weights, exact in `u128`.
fn weight_abs_diff(w1: i64, w2: i64) -> (r: u128)
    ensures
        r == abs_i(w1 - w2),
{
    let d: i128 = (w1 as i128) - (w2 as i128);
    if d < 0 {
        (-d) as u128
    } else {
        d as u128
    }
}

/// Returns the similarity measure of two genomes over their nodes,
/// connections and weights, used to decide which species a genome belongs
/// to: exactly `spec_distance`, in thousandths, clamped into `u64`.
#[verifier::rlimit(100)]
pub fn distance(g1: &Genome, g2: &Genome, cfg: &Config) -> (r: u64)
    requires
        g1@.wf(),
        g2@.wf(),
        cfg.wf(),
    ensures
        r == clamp_u64(spec_distance(g1@, g2@, cfg)),
{
    let av = enabled_conns(&g1.connections);
    let bv = enabled_conns(&g2.connections);
    proof {
        lemma_enabled_only(g1@.conns);
        lemma_enabled_only(g2@.conns);
    }
    let aset = VecSet { vec: av };
    let bset = VecSet { vec: bv };
    let ghost a = aset@;
    let ghost b = bset@;

    // the excess cap: the smaller of the two largest enabled markers
    let amax: i128 = if aset.len() == 0 {
        -1
    } else {
        aset.get(aset.len() - 1).get_innov() as i128
    };
    let bmax: i128 = if bset.len() == 0 {
        -1
    } else {
        bset.get(bset.len() - 1).get_innov() as i128
    };
    let cap: i128 = if amax <= bmax {
        amax
    } else {
        bmax
    };
    proof {
        assert(amax == max_marker(a));
        assert(bmax == max_marker(b));
    }

    // first pass: matches, weight differences, and the unmatched genes of a
    let mut m_cnt: usize = 0;
    let mut wd: u128 = 0;
    let mut dj_a: usize = 0;
    let mut ex_a: usize = 0;
    let mut i: usize = 0;
    while i < aset.len()
        invariant
            markers_sorted(a),
            markers_sorted(b),
            aset@ == a,
            bset@ == b,
            i <= a.len(),
            cap == if max_marker(a) <= max_marker(b) {
                max_marker(a)
            } else {
                max_marker(b)
            },
            m_cnt == match_count(a.take(i as int), b),
            wd == weight_diff_sum(a.take(i as int), b),
            dj_a == unmatched_count(a.take(i as int), b, cap as int, false),
            ex_a == unmatched_count(a.take(i as int), b, cap as int, true),
        decreases a.len() - i,
    {
        let c = *aset.get(i);
        let marker = c.get_innov();
        proof {
            assert(a.take(i + 1).drop_last() =~= a.take(i as int));
            assert(a.take(i + 1).last() == a[i as int]);
            lemma_lookup_contains(b, marker);
            lemma_wds_bound(a.take(i as int), b);
            assert(a.take(i as int).len() <= a.len());
        }
        if bset.contains_innov(marker) {
            let partner = *bset.get_by_innov(marker);
            m_cnt += 1;
            proof {
                mul_le(m_cnt as int, a.len() as int, 0x1_0000_0000_0000_0000);
                assert(a.len() * 0x1_0000_0000_0000_0000 < u128::MAX) by (nonlinear_arith)
                    requires
                        a.len() < 0x1_0000_0000_0000_0000,
                {
                }
            }
            wd += weight_abs_diff(c.get_weight(), partner.get_weight());
        } else {
            if (marker as i128) > cap {
                ex_a += 1;
            } else {
                dj_a += 1;
            }
        }
        i += 1;
    }
    proof {
        assert(a.take(a.len() as int) =~= a);
    }

    // second pass: the unmatched genes of b
    let mut dj_b: usize = 0;
    let mut ex_b: usize = 0;
    let mut j: usize = 0;
    while j < bset.len()
        invariant
            markers_sorted(a),
            markers_sorted(b),
            aset@ == a,
            bset@ == b,
            j <= b.len(),
            cap == if max_marker(a) <= max_marker(b) {
                max_marker(a)
            } else {
                max_marker(b)
            },
            dj_b == unmatched_count(b.take(j as int), a, cap as int, false),
            ex_b == unmatched_count(b.take(j as int), a, cap as int, true),
        decreases b.len() - j,
    {
        let c = *bset.get(j);
        let marker = c.get_innov();
        proof {
            assert(b.take(j + 1).drop_last() =~= b.take(j as int));
            assert(b.take(j + 1).last() == b[j as int]);
            lemma_lookup_contains(a, marker);
            lemma_wds_bound(b.take(j as int), a);
        }
        if !aset.contains_innov(marker) {
            if (marker as i128) > cap {
                ex_b += 1;
            } else {
                dj_b += 1;
            }
        }
        j += 1;
    }
    proof {
        assert(b.take(b.len() as int) =~= b);
    }

    let alen = aset.len();
    let blen = bset.len();
    let n: u128 = if alen <= blen {
        blen as u128
    } else {
        alen as u128
    };
    let n1: u128 = if n == 0 {
        1
    } else {
        n
    };
    let m1: u128 = if m_cnt == 0 {
        1
    } else {
        m_cnt as u128
    };
    let excess: u128 = ex_a as u128 + ex_b as u128;
    let disjoint: u128 = dj_a as u128 + dj_b as u128;
    proof {
        lemma_wds_bound(a, b);
        mul_le(cfg.c1 as int, 1000000, excess as int);
        mul_le(cfg.c2 as int, 1000000, disjoint as int);
        // the mean weight difference is at most the largest single difference
        mul_le(m1 as int, m1 as int, 0x1_0000_0000_0000_0000);
        assert(wd <= m1 * 0x1_0000_0000_0000_0000);
        assert(wd / m1 <= 0x1_0000_0000_0000_0000) by (nonlinear_arith)
            requires
                m1 >= 1,
                wd <= m1 * 0x1_0000_0000_0000_0000u128,
        {
        }
        mul_le(cfg.c3 as int, 1000000, (wd / m1) as int);
    }
    let d: u128 = ((cfg.c1 as u128) * excess) / n1 + ((cfg.c2 as u128) * disjoint) / n1 + ((cfg.c3
        as u128) * (wd / m1)) / 1000;
    if d > u64::MAX as u128 {
        u64::MAX
    } else {
        d as u64
    }
}

/// The distance of two well-formed genomes, as the executable `distance`
/// reports it, does not depend on the order of its arguments, and is zero
/// between a genome and itself.
pub proof fn lemma_clamped_distance_laws(g1: GenomeView, g2: GenomeView, cfg: &Config)
    requires
        g1.wf(),
        g2.wf(),
    ensures
        clamp_u64(spec_distance(g1, g2, cfg)) == clamp_u64(spec_distance(g2, g1, cfg)),
        clamp_u64(spec_distance(g1, g1, cfg)) == 0,
{
    lemma_distance_symmetric(g1, g2, cfg);
    lemma_distance_self(g1, cfg);
}

} // verus!
