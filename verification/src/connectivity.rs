use vstd::prelude::*;

use crate::adjacency::{adj_dim, adj_entries, adj_get, adj_new, adj_set, AdjacencyMatrix};
use crate::genome::{Genome, GenomeView};
use crate::vecset::{contains_marker, Gene};

verus! {

/// How many entries of the sequence are set.
pub open spec fn count_true(s: Seq<bool>) -> int
    decreases s.len(),
{
    if s.len() == 0 {
        0
    } else {
        count_true(s.drop_last()) + if s.last() {
            1int
        } else {
            0int
        }
    }
}

proof fn lemma_count_true_bounds(s: Seq<bool>)
    ensures
        0 <= count_true(s) <= s.len(),
    decreases s.len(),
{
    if s.len() > 0 {
        lemma_count_true_bounds(s.drop_last());
    }
}

proof fn lemma_count_true_false_at(s: Seq<bool>, j: int)
    requires
        0 <= j < s.len(),
        !s[j],
    ensures
        count_true(s) < s.len(),
    decreases s.len(),
{
    if j == s.len() - 1 {
        lemma_count_true_bounds(s.drop_last());
    } else {
        lemma_count_true_false_at(s.drop_last(), j);
    }
}

proof fn lemma_count_true_update(s: Seq<bool>, j: int)
    requires
        0 <= j < s.len(),
        !s[j],
    ensures
        count_true(s.update(j, true)) == count_true(s) + 1,
    decreases s.len(),
{
    let s1 = s.update(j, true);
    if j == s.len() - 1 {
        assert(s1.drop_last() =~= s.drop_last());
        assert(s1.last());
    } else {
        assert(s1.drop_last() =~= s.drop_last().update(j, true));
        assert(s1.last() == s.last());
        lemma_count_true_update(s.drop_last(), j);
    }
}

/// A path to one marker extended by an edge reaches the edge's target.
proof fn lemma_connected_extend(v: GenomeView, from: u64, x: u64, y: u64)
    requires
        v.connected(from, x),
        v.has_edge(x, y),
    ensures
        v.connected(from, y),
{
    let p = choose|p: Seq<u64>| v.is_path(p) && p.first() == from && p.last() == x;
    let q = p.push(y);
    assert(v.is_path(q)) by {
        assert forall|i: int| 0 <= i < q.len() - 1 implies v.has_edge(#[trigger] q[i], q[i + 1]) by {
            if i < p.len() - 1 {
                assert(q[i] == p[i] && q[i + 1] == p[i + 1]);
            } else {
                assert(q[i] == p.last() && q[i + 1] == y);
            }
        }
    }
    assert(q.first() == from && q.last() == y);
}

/// Walking any path from the start, every node stays inside a set of node
/// indices that is closed under edges and avoids the target.
proof fn lemma_path_stuck(
    v: GenomeView,
    visited: Seq<bool>,
    start: int,
    t_idx: int,
    from: u64,
    to: u64,
    p: Seq<u64>,
    i: int,
)
    requires
        v.wf(),
        v.closed(),
        visited.len() == v.nodes.len(),
        0 <= start < v.nodes.len(),
        v.nodes[start].marker() == from,
        0 <= t_idx < v.nodes.len(),
        v.nodes[t_idx].marker() == to,
        !visited[t_idx],
        forall|u: int, w: int|
            0 <= u < v.nodes.len() && 0 <= w < v.nodes.len() && (u == start || visited[u])
                && #[trigger] v.has_edge(v.nodes[u].marker(), v.nodes[w].marker()) ==> visited[w]
                && w != t_idx,
        v.is_path(p),
        p.first() == from,
        0 <= i < p.len(),
    ensures
        exists|u: int|
            0 <= u < v.nodes.len() && (u == start || visited[u]) && (#[trigger] v.nodes[u]).marker()
                == p[i] && (i > 0 ==> p[i] != to),
    decreases i,
{
    if i == 0 {
        assert(v.nodes[start].marker() == p[0]);
    } else {
        lemma_path_stuck(v, visited, start, t_idx, from, to, p, i - 1);
        let u = choose|u: int|
            0 <= u < v.nodes.len() && (u == start || visited[u]) && (#[trigger] v.nodes[u]).marker()
                == p[i - 1] && (i - 1 > 0 ==> p[i - 1] != to);
        assert(v.has_edge(p[i - 1], p[i]));
        let e = choose|e: int|
            0 <= e < v.conns.len() && (#[trigger] v.conns[e]).from() == p[i - 1] && v.conns[e].to()
                == p[i];
        assert(contains_marker(v.nodes, v.conns[e].to()));
        let w = choose|w: int| 0 <= w < v.nodes.len() && v.nodes[w].marker() == p[i];
        assert(v.has_edge(v.nodes[u].marker(), v.nodes[w].marker()));
        assert(visited[w] && w != t_idx);
        assert(p[i] != to) by {
            if p[i] == to {
                // two distinct indices would carry the same marker
                assert(v.nodes[w].marker() == v.nodes[t_idx].marker());
                if w < t_idx {
                    assert(v.nodes[w].marker() < v.nodes[t_idx].marker());
                } else {
                    assert(v.nodes[t_idx].marker() < v.nodes[w].marker());
                }
            }
        }
    }
}

impl Genome {
    /// Whether a directed path of one or more connections leads from one
    /// node to another, irrespective of the enabled flags; used to reject
    /// duplicate or transitively implied connections.
    #[verifier::rlimit(100)]
    pub fn is_connected(&self, from_node_innov: u64, to_node_innov: u64) -> (r: bool)
        requires
            self@.wf(),
            self@.closed(),
            contains_marker(self@.nodes, from_node_innov),
            contains_marker(self@.nodes, to_node_innov),
            self@.nodes.len() <= 46340,
        ensures
            r == self@.connected(from_node_innov, to_node_innov),
    {
        let ghost v = self@;
        let n = self.nodes.len();
        proof {
            assert(n * n <= 46340 * 46340) by (nonlinear_arith)
                requires
                    n <= 46340,
            {
            }
        }

        // build the adjacency matrix over node positions
        let mut mat = adj_new(n);
        let cn = self.connections.len();
        let mut k: usize = 0;
        while k < cn
            invariant
                v.wf(),
                v.closed(),
                self@ == v,
                n == v.nodes.len(),
                cn == v.conns.len(),
                k <= cn,
                adj_dim(mat) == n,
                forall|fi: int, ti: int|
                    0 <= fi < n && 0 <= ti < n ==> (#[trigger] adj_entries(mat)[(fi, ti)] == 1u8
                        <==> edge_in_prefix(v, k as int, fi, ti)),
                forall|fi: int, ti: int|
                    0 <= fi < n && 0 <= ti < n ==> adj_entries(mat)[(fi, ti)] == 1u8 || adj_entries(
                        mat,
                    )[(fi, ti)] == 0u8,
            decreases cn - k,
        {
            let c = *self.connections.get(k);
            let fi = self.nodes.position_of_innov(c.get_from());
            let ti = self.nodes.position_of_innov(c.get_to());
            let ghost before = mat;
            adj_set(&mut mat, fi, ti);
            proof {
                assert forall|fi2: int, ti2: int| 0 <= fi2 < n && 0 <= ti2 < n implies (
                #[trigger] adj_entries(mat)[(fi2, ti2)] == 1u8 <==> edge_in_prefix(
                    v,
                    k + 1,
                    fi2,
                    ti2,
                )) by {
                    if fi2 == fi && ti2 == ti {
                        assert(edge_in_prefix(v, k + 1, fi2, ti2)) by {
                            assert(v.conns[k as int].from() == v.nodes[fi2].marker()
                                && v.conns[k as int].to() == v.nodes[ti2].marker());
                        }
                    } else {
                        assert(adj_entries(mat)[(fi2, ti2)] == adj_entries(before)[(fi2, ti2)]);
                        assert(edge_in_prefix(v, k + 1, fi2, ti2) <==> edge_in_prefix(
                            v,
                            k as int,
                            fi2,
                            ti2,
                        )) by {
                            if edge_in_prefix(v, k + 1, fi2, ti2) {
                                let e = choose|e: int|
                                    0 <= e < k + 1 && (#[trigger] v.conns[e]).from()
                                        == v.nodes[fi2].marker() && v.conns[e].to()
                                        == v.nodes[ti2].marker();
                                if e == k {
                                    // the new connection's endpoints sit at (fi, ti) alone
                                    position_unique(v, fi2, fi as int);
                                    position_unique(v, ti2, ti as int);
                                }
                            }
                        }
                    }
                }
            }
            k += 1;
        }
        proof {
            assert forall|fi: int, ti: int| 0 <= fi < n && 0 <= ti < n implies (
            #[trigger] adj_entries(mat)[(fi, ti)] == 1u8 <==> v.has_edge(
                v.nodes[fi].marker(),
                v.nodes[ti].marker(),
            )) by {
                if adj_entries(mat)[(fi, ti)] == 1u8 {
                    assert(edge_in_prefix(v, cn as int, fi, ti));
                }
                if v.has_edge(v.nodes[fi].marker(), v.nodes[ti].marker()) {
                    let e = choose|e: int|
                        0 <= e < v.conns.len() && (#[trigger] v.conns[e]).from()
                            == v.nodes[fi].marker() && v.conns[e].to() == v.nodes[ti].marker();
                    assert(edge_in_prefix(v, cn as int, fi, ti));
                }
            }
        }

        let start = self.nodes.position_of_innov(from_node_innov);
        let t_idx = self.nodes.position_of_innov(to_node_innov);
        let mut visited: Vec<bool> = Vec::new();
        let mut z: usize = 0;
        while z < n
            invariant
                z <= n,
                visited@.len() == z,
                forall|j: int| 0 <= j < z ==> !visited@[j],
            decreases n - z,
        {
            visited.push(false);
            z += 1;
        }
        proof {
            lemma_count_all_false(visited@);
        }
        let mut stack: Vec<usize> = Vec::new();
        stack.push(start);
        proof {
            assert(stack@[0] == start);
            assert(stack@.contains(start));
            assert forall|u: int, w: int|
                0 <= u < n && 0 <= w < n && (u == start || visited@[u]) && !stack@.contains(
                    u as usize,
                ) && #[trigger] v.has_edge(v.nodes[u].marker(), v.nodes[w].marker())
                implies visited@[w] && w != t_idx by {
                if u == start {
                    assert(stack@.contains(start));
                }
            }
        }

        while stack.len() > 0
            invariant
                v.wf(),
                v.closed(),
                self@ == v,
                n == v.nodes.len(),
                adj_dim(mat) == n,
                forall|fi: int, ti: int|
                    0 <= fi < n && 0 <= ti < n ==> (#[trigger] adj_entries(mat)[(fi, ti)] == 1u8
                        <==> v.has_edge(v.nodes[fi].marker(), v.nodes[ti].marker())),
                start < n,
                t_idx < n,
                v.nodes[start as int].marker() == from_node_innov,
                v.nodes[t_idx as int].marker() == to_node_innov,
                visited@.len() == n,
                count_true(visited@) <= n,
                !visited@[t_idx as int],
                forall|e: int| 0 <= e < stack@.len() ==> (#[trigger] stack@[e]) < n,
                forall|e: int|
                    0 <= e < stack@.len() ==> (#[trigger] stack@[e]) == start || visited@[stack@[e] as int],
                forall|u: int|
                    0 <= u < n && #[trigger] visited@[u] ==> v.connected(
                        from_node_innov,
                        v.nodes[u].marker(),
                    ),
                forall|u: int, w: int|
                    0 <= u < n && 0 <= w < n && (u == start || visited@[u]) && !stack@.contains(
                        u as usize,
                    ) && #[trigger] v.has_edge(v.nodes[u].marker(), v.nodes[w].marker())
                        ==> visited@[w] && w != t_idx,
            decreases 2 * (n - count_true(visited@)) + stack@.len(),
        {
            proof {
                lemma_count_true_bounds(visited@);
            }
            let ghost stack_before = stack@;
            let u = stack[stack.len() - 1];
            stack.pop();
            let ghost stack_after_pop = stack@;
            let ghost count_after_pop = count_true(visited@);
            proof {
                assert(stack_after_pop =~= stack_before.drop_last());
                assert(u == stack_before[stack_before.len() - 1]);
                assert forall|u2: int, w2: int|
                    0 <= u2 < n && 0 <= w2 < n && (u2 == start || visited@[u2]) && u2 != u
                        && !stack@.contains(u2 as usize) && #[trigger] v.has_edge(
                        v.nodes[u2].marker(),
                        v.nodes[w2].marker(),
                    ) implies visited@[w2] && w2 != t_idx by {
                    if stack_before.contains(u2 as usize) {
                        let i = choose|i: int|
                            0 <= i < stack_before.len() && stack_before[i] == u2 as usize;
                        assert(i < stack_before.len() - 1);
                        assert(stack@[i] == u2 as usize);
                        assert(stack@.contains(u2 as usize));
                    }
                }
            }
            let mut w: usize = 0;
            while w < n
                invariant
                    v.wf(),
                    v.closed(),
                    self@ == v,
                    n == v.nodes.len(),
                    adj_dim(mat) == n,
                    forall|fi: int, ti: int|
                        0 <= fi < n && 0 <= ti < n ==> (#[trigger] adj_entries(mat)[(fi, ti)]
                            == 1u8 <==> v.has_edge(v.nodes[fi].marker(), v.nodes[ti].marker())),
                    start < n,
                    t_idx < n,
                    u < n,
                    w <= n,
                    u == start || visited@[u as int],
                    v.nodes[start as int].marker() == from_node_innov,
                    v.nodes[t_idx as int].marker() == to_node_innov,
                    visited@.len() == n,
                    count_true(visited@) <= n,
                    !visited@[t_idx as int],
                    forall|e: int| 0 <= e < stack@.len() ==> (#[trigger] stack@[e]) < n,
                    forall|e: int|
                        0 <= e < stack@.len() ==> (#[trigger] stack@[e]) == start
                            || visited@[stack@[e] as int],
                    forall|u2: int|
                        0 <= u2 < n && #[trigger] visited@[u2] ==> v.connected(
                            from_node_innov,
                            v.nodes[u2].marker(),
                        ),
                    forall|u2: int, w2: int|
                        0 <= u2 < n && 0 <= w2 < n && (u2 == start || visited@[u2]) && u2 != u
                            && !stack@.contains(u2 as usize) && #[trigger] v.has_edge(
                            v.nodes[u2].marker(),
                            v.nodes[w2].marker(),
                        ) ==> visited@[w2] && w2 != t_idx,
                    forall|w2: int|
                        0 <= w2 < w && #[trigger] v.has_edge(
                            v.nodes[u as int].marker(),
                            v.nodes[w2].marker(),
                        ) ==> visited@[w2] && w2 != t_idx,
                    // each push marks a fresh node, so the search measure falls
                    count_true(visited@) >= count_after_pop,
                    stack@.len() - stack_after_pop.len() == count_true(visited@)
                        - count_after_pop,
                decreases n - w,
            {
                let has = adj_get(&mat, u, w);
                if has == 1 {
                    if w == t_idx {
                        proof {
                            assert(v.has_edge(
                                v.nodes[u as int].marker(),
                                v.nodes[t_idx as int].marker(),
                            ));
                            if u == start {
                                let p = seq![from_node_innov, to_node_innov];
                                assert(v.is_path(p)) by {
                                    assert(p[0] == from_node_innov && p[1] == to_node_innov);
                                }
                                assert(p.first() == from_node_innov && p.last()
                                    == to_node_innov);
                            } else {
                                lemma_connected_extend(
                                    v,
                                    from_node_innov,
                                    v.nodes[u as int].marker(),
                                    to_node_innov,
                                );
                            }
                        }
                        return true;
                    }
                    if !visited[w] {
                        proof {
                            if u == start && !visited@[u as int] {
                                let p = seq![from_node_innov, v.nodes[w as int].marker()];
                                assert(v.is_path(p)) by {
                                    assert(p[0] == from_node_innov && p[1] == v.nodes[w as int].marker());
                                }
                                assert(p.first() == from_node_innov);
                            } else {
                                lemma_connected_extend(
                                    v,
                                    from_node_innov,
                                    v.nodes[u as int].marker(),
                                    v.nodes[w as int].marker(),
                                );
                            }
                            lemma_count_true_false_at(visited@, w as int);
                            lemma_count_true_update(visited@, w as int);
                        }
                        let ghost visited_before = visited@;
                        let ghost stack_before_push = stack@;
                        visited.set(w, true);
                        stack.push(w);
                        proof {
                            assert(stack@ =~= stack_before_push.push(w));
                            assert(stack@[stack@.len() - 1] == w);
                            assert(stack@.contains(w));
                            assert(visited@ =~= visited_before.update(w as int, true));
                            assert forall|u2: int, w2: int|
                                0 <= u2 < n && 0 <= w2 < n && (u2 == start || visited@[u2]) && u2
                                    != u && !stack@.contains(u2 as usize) && #[trigger] v.has_edge(
                                    v.nodes[u2].marker(),
                                    v.nodes[w2].marker(),
                                ) implies visited@[w2] && w2 != t_idx by {
                                if u2 == w as int {
                                    assert(stack@.contains(w));
                                } else {
                                    if stack_before_push.contains(u2 as usize) {
                                        let i = choose|i: int|
                                            0 <= i < stack_before_push.len()
                                                && stack_before_push[i] == u2 as usize;
                                        assert(stack@[i] == u2 as usize);
                                        assert(stack@.contains(u2 as usize));
                                    } else {
                                        assert(visited_before[u2] == visited@[u2]);
                                        assert(visited_before[w2] && w2 != t_idx);
                                    }
                                }
                            }
                            assert forall|e: int|
                                0 <= e < stack@.len() implies (#[trigger] stack@[e]) == start
                                    || visited@[stack@[e] as int] by {
                                if e < stack@.len() - 1 {
                                    assert(stack@[e] == stack_before_push[e]);
                                    if stack_before_push[e] != start {
                                        assert(visited_before[stack_before_push[e] as int]);
                                    }
                                }
                            }
                        }
                    }
                }
                w += 1;
            }
        }
        proof {
            if v.connected(from_node_innov, to_node_innov) {
                let p = choose|p: Seq<u64>|
                    v.is_path(p) && p.first() == from_node_innov && p.last() == to_node_innov;
                lemma_path_stuck(
                    v,
                    visited@,
                    start as int,
                    t_idx as int,
                    from_node_innov,
                    to_node_innov,
                    p,
                    p.len() - 1,
                );
            }
        }
        false
    }
}

/// One of the first `k` connections runs between the nodes at the two
/// positions.
pub open spec fn edge_in_prefix(v: GenomeView, k: int, fi: int, ti: int) -> bool {
    exists|e: int|
        0 <= e < k && (#[trigger] v.conns[e]).from() == v.nodes[fi].marker() && v.conns[e].to()
            == v.nodes[ti].marker()
}

/// Two positions carrying the same marker coincide, markers being strictly
/// sorted.
proof fn position_unique(v: GenomeView, a: int, b: int)
    requires
        v.wf(),
        0 <= a < v.nodes.len(),
        0 <= b < v.nodes.len(),
        v.nodes[a].marker() == v.nodes[b].marker(),
    ensures
        a == b,
{
    if a < b {
        assert(v.nodes[a].marker() < v.nodes[b].marker());
    } else if b < a {
        assert(v.nodes[b].marker() < v.nodes[a].marker());
    }
}

proof fn lemma_count_all_false(s: Seq<bool>)
    requires
        forall|j: int| 0 <= j < s.len() ==> !s[j],
    ensures
        count_true(s) == 0,
    decreases s.len(),
{
    if s.len() > 0 {
        lemma_count_all_false(s.drop_last());
    }
}

} // verus!
