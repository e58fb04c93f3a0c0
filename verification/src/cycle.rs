//! The cycle detector: a depth-first traversal with an explicit stack of
//! pending frames and recursion-stack tracking. The result is proved sound
//! and complete: `has_cycle` returns true exactly when the graph holds a
//! cycle. Completeness rests on a finish order — nodes listed as the
//! traversal finishes them, every edge leading strictly backwards in that
//! order — and soundness on the traversal stack itself forming a path.

use vstd::prelude::*;
use crate::graph::{cyclic, edge, graph_wf, is_cycle, path_len, reachable_from};

verus! {

/// Node `v` is finished: discovered, and no longer on the traversal stack.
pub open spec fn finished(vis: Seq<bool>, stk: Seq<bool>, v: int) -> bool {
    0 <= v < vis.len() && vis[v] && !stk[v]
}

/// `ord` lists the finished nodes in finishing order, without repetition,
/// and every edge out of a listed node leads to a node finished strictly
/// earlier.
pub open spec fn finish_order_ok(
    g: Seq<Seq<i32>>,
    vis: Seq<bool>,
    stk: Seq<bool>,
    ord: Seq<int>,
) -> bool {
    &&& forall|i: int| 0 <= i < ord.len() ==> finished(vis, stk, #[trigger] ord[i])
    &&& forall|v: int| finished(vis, stk, v) ==> ord.contains(v)
    &&& forall|i: int, j: int| 0 <= i < j < ord.len() ==> ord[i] != ord[j]
    &&& forall|i: int, v: int|
        0 <= i < ord.len() && #[trigger] edge(g, ord[i], v) ==> exists|j: int|
            0 <= j < i && ord[j] == v
}

/// Some finish order covers the finished nodes.
pub open spec fn fin_ok(g: Seq<Seq<i32>>, vis: Seq<bool>, stk: Seq<bool>) -> bool {
    exists|ord: Seq<int>| finish_order_ok(g, vis, stk, ord)
}

/// The position of `v` in the order `ord`.
pub open spec fn order_idx(ord: Seq<int>, v: int) -> int {
    choose|j: int| 0 <= j < ord.len() && ord[j] == v
}

proof fn lemma_order_idx(ord: Seq<int>, v: int)
    requires
        ord.contains(v),
    ensures
        0 <= order_idx(ord, v) < ord.len(),
        ord[order_idx(ord, v)] == v,
{
    assert(exists|j: int| 0 <= j < ord.len() && ord[j] == v);
}

/// Only the finished set matters for a finish order: two states with the
/// same finished nodes share their orders.
proof fn lemma_same_finished(
    g: Seq<Seq<i32>>,
    vis1: Seq<bool>,
    stk1: Seq<bool>,
    vis2: Seq<bool>,
    stk2: Seq<bool>,
)
    requires
        fin_ok(g, vis1, stk1),
        vis1.len() == vis2.len(),
        forall|v: int| #![all_triggers] finished(vis1, stk1, v) <==> finished(vis2, stk2, v),
    ensures
        fin_ok(g, vis2, stk2),
{
    let ord = choose|ord: Seq<int>| finish_order_ok(g, vis1, stk1, ord);
    assert(finish_order_ok(g, vis2, stk2, ord));
}

/// Along any walk out of a node of the order, positions strictly decrease,
/// once every node of the graph is finished.
proof fn lemma_path_desc(
    g: Seq<Seq<i32>>,
    vis: Seq<bool>,
    stk: Seq<bool>,
    ord: Seq<int>,
    p: Seq<int>,
    t: int,
)
    requires
        graph_wf(g),
        vis.len() == g.len(),
        stk.len() == g.len(),
        finish_order_ok(g, vis, stk, ord),
        forall|v: int| 0 <= v < g.len() ==> vis[v] && !stk[v],
        p.len() >= 1,
        forall|i: int| 0 <= i < p.len() - 1 ==> edge(g, #[trigger] p[i], p[i + 1]),
        0 <= p[0] < g.len(),
        0 <= t < p.len(),
    ensures
        0 <= p[t] < g.len(),
        ord.contains(p[t]),
        order_idx(ord, p[t]) <= order_idx(ord, p[0]) - t,
    decreases t,
{
    if t == 0 {
        assert(finished(vis, stk, p[0]));
        lemma_order_idx(ord, p[0]);
    } else {
        lemma_path_desc(g, vis, stk, ord, p, t - 1);
        let u = p[t - 1];
        let v = p[t];
        assert(edge(g, u, v));
        let k = choose|k: int| 0 <= k < g[u].len() && #[trigger] g[u][k] as int == v;
        assert(0 <= v < g.len());
        assert(finished(vis, stk, v));
        lemma_order_idx(ord, v);
        lemma_order_idx(ord, u);
        let iu = order_idx(ord, u);
        assert(edge(g, ord[iu], v));
        assert(exists|j: int| 0 <= j < iu && ord[j] == v);
        let j = choose|j: int| 0 <= j < iu && ord[j] == v;
        let jv = order_idx(ord, v);
        if j < jv {
            assert(ord[j] != ord[jv]);
            assert(false);
        } else if jv < j {
            assert(ord[jv] != ord[j]);
            assert(false);
        }
    }
}

/// A finish order over all nodes rules every cycle out: along a cycle the
/// positions would decrease strictly and still return to their start.
proof fn lemma_all_finished_acyclic(g: Seq<Seq<i32>>, vis: Seq<bool>, stk: Seq<bool>)
    requires
        graph_wf(g),
        vis.len() == g.len(),
        stk.len() == g.len(),
        forall|v: int| 0 <= v < g.len() ==> vis[v] && !stk[v],
        fin_ok(g, vis, stk),
    ensures
        !cyclic(g),
{
    if cyclic(g) {
        let p = choose|p: Seq<int>| is_cycle(g, p);
        let ord = choose|ord: Seq<int>| finish_order_ok(g, vis, stk, ord);
        assert(edge(g, p[0], p[1]));
        lemma_path_desc(g, vis, stk, ord, p, p.len() - 1);
        assert(false);
    }
}

/// How many of the first `i` nodes are still undiscovered.
pub open spec fn count_unvisited(vis: Seq<bool>, i: int) -> int
    decreases i,
{
    if i <= 0 {
        0
    } else {
        count_unvisited(vis, i - 1) + if vis[i - 1] {
            0int
        } else {
            1int
        }
    }
}

pub proof fn lemma_count_unvisited_nonneg(vis: Seq<bool>, i: int)
    ensures
        count_unvisited(vis, i) >= 0,
    decreases i,
{
    if i > 0 {
        lemma_count_unvisited_nonneg(vis, i - 1);
    }
}

pub proof fn lemma_count_unvisited_set(vis: Seq<bool>, v: int, i: int)
    requires
        0 <= v < vis.len(),
        i <= vis.len(),
    ensures
        count_unvisited(vis.update(v, true), i) == count_unvisited(vis, i) - (if v < i && !vis[v] {
            1int
        } else {
            0int
        }),
    decreases i,
{
    if i > 0 {
        lemma_count_unvisited_set(vis, v, i - 1);
    }
}

/// The work left on the traversal stack: for each frame, the neighbours not
/// yet examined.
pub open spec fn rem_sum(g: Seq<Seq<i32>>, sk: Seq<(usize, usize)>) -> int
    decreases sk.len(),
{
    if sk.len() == 0 {
        0
    } else {
        rem_sum(g, sk.drop_last()) + (g[sk.last().0 as int].len() - sk.last().1)
    }
}

proof fn lemma_rem_sum_nonneg(g: Seq<Seq<i32>>, sk: Seq<(usize, usize)>)
    requires
        forall|s: int|
            0 <= s < sk.len() ==> 0 <= #[trigger] sk[s].0 < g.len() && sk[s].1 <= g[
                sk[s].0 as int
            ].len(),
    ensures
        rem_sum(g, sk) >= 0,
    decreases sk.len(),
{
    if sk.len() > 0 {
        lemma_rem_sum_nonneg(g, sk.drop_last());
    }
}

/// Consecutive stack frames are joined by edges, so each frame's node is
/// reached from the bottom frame's node by a walk of its position's length.
proof fn lemma_chain_path(g: Seq<Seq<i32>>, sk: Seq<(usize, usize)>, j: int)
    requires
        forall|s: int|
            0 <= s < sk.len() - 1 ==> edge(g, #[trigger] sk[s].0 as int, sk[s + 1].0 as int),
        0 <= j < sk.len(),
    ensures
        path_len(g, sk[0].0 as int, sk[j].0 as int, j as nat),
    decreases j,
{
    if j > 0 {
        lemma_chain_path(g, sk, j - 1);
        assert(edge(g, sk[j - 1].0 as int, sk[j].0 as int));
    }
}

/// A vector of `n` cleared flags.
pub fn make_flags(n: usize) -> (v: Vec<bool>)
    ensures
        v@.len() == n,
        forall|i: int| 0 <= i < n ==> !v@[i],
{
    let mut v: Vec<bool> = Vec::new();
    while v.len() < n
        invariant
            v@.len() <= n,
            forall|i: int| 0 <= i < v@.len() ==> !v@[i],
        decreases n - v@.len(),
    {
        v.push(false);
    }
    v
}

/// One depth-first probe from `node`, with an explicit stack of pending
/// frames. Entered with a clear recursion stack and a finish order over the
/// nodes already visited. A probe of an already-visited node changes
/// nothing and reports false. Visited flags are only ever set, never
/// cleared. A true report exhibits a cycle within the subgraph reachable
/// from `node`; a false report leaves the recursion stack clear again,
/// `node` and everything it reached visited, and the finish order extended
/// over the new finished set.
#[verifier::loop_isolation(false)]
#[verifier::rlimit(60)]
pub fn has_cycle_util(
    node: usize,
    visited: &mut Vec<bool>,
    rec_stack: &mut Vec<bool>,
    connections: &Vec<Vec<i32>>,
) -> (r: bool)
    requires
        old(visited)@.len() == connections@.len(),
        old(rec_stack)@.len() == connections@.len(),
        node < connections@.len(),
        graph_wf(connections.deep_view()),
        forall|v: int| 0 <= v < connections@.len() ==> !old(rec_stack)@[v],
        fin_ok(connections.deep_view(), old(visited)@, old(rec_stack)@),
    ensures
        final(visited)@.len() == connections@.len(),
        final(rec_stack)@.len() == connections@.len(),
        forall|v: int| 0 <= v < connections@.len() && old(visited)@[v] ==> final(visited)@[v],
        old(visited)@[node as int] ==> !r && final(visited)@ == old(visited)@
            && final(rec_stack)@ == old(rec_stack)@,
        r ==> exists|p: Seq<int>|
            is_cycle(connections.deep_view(), p) && reachable_from(
                connections.deep_view(),
                node as int,
                p[0],
            ),
        r ==> cyclic(connections.deep_view()),
        !r ==> forall|v: int| 0 <= v < connections@.len() ==> !final(rec_stack)@[v],
        !r ==> final(visited)@[node as int],
        !r ==> fin_ok(connections.deep_view(), final(visited)@, final(rec_stack)@),
{
    let ghost g = connections.deep_view();
    let ghost n = connections@.len() as int;
    proof {
        assert(g.len() == n);
        assert forall|t: int| 0 <= t < n implies #[trigger] g[t] == connections@[t]@ by {
            assert(g[t] == connections@[t].deep_view());
            assert(connections@[t].deep_view() =~= connections@[t]@);
        }
    }
    if visited[node] {
        return false;
    }
    let ghost vis0 = visited@;
    let ghost stk0 = rec_stack@;
    visited[node] = true;
    rec_stack[node] = true;
    proof {
        lemma_same_finished(g, vis0, stk0, visited@, rec_stack@);
    }
    let mut stack: Vec<(usize, usize)> = Vec::new();
    stack.push((node, 0));
    proof {
        assert forall|v: int|
            0 <= v < n implies (#[trigger] rec_stack@[v] <==> exists|s: int|
                0 <= s < stack@.len() && #[trigger] stack@[s].0 as int == v) by {
            if v == node as int {
                assert(stack@[0].0 as int == v);
            } else if exists|s: int| 0 <= s < stack@.len() && #[trigger] stack@[s].0 as int == v {
                let s = choose|s: int|
                    0 <= s < stack@.len() && #[trigger] stack@[s].0 as int == v;
                assert(false);
            }
        }
    }
    while stack.len() != 0
        invariant
            visited@.len() == n,
            rec_stack@.len() == n,
            forall|s: int|
                0 <= s < stack@.len() ==> 0 <= #[trigger] stack@[s].0 < n && stack@[s].1 <= g[
                    stack@[s].0 as int
                ].len() && visited@[stack@[s].0 as int] && rec_stack@[stack@[s].0 as int],
            forall|v: int|
                0 <= v < n ==> (#[trigger] rec_stack@[v] <==> exists|s: int|
                    0 <= s < stack@.len() && #[trigger] stack@[s].0 as int == v),
            forall|s: int, t: int| 0 <= s < t < stack@.len() ==> stack@[s].0 != stack@[t].0,
            forall|s: int|
                0 <= s < stack@.len() - 1 ==> edge(
                    g,
                    #[trigger] stack@[s].0 as int,
                    stack@[s + 1].0 as int,
                ),
            forall|s: int, j: int|
                0 <= s < stack@.len() && 0 <= j < stack@[s].1 ==> finished(
                    visited@,
                    rec_stack@,
                    #[trigger] g[stack@[s].0 as int][j] as int,
                ) || (s < stack@.len() - 1 && g[stack@[s].0 as int][j] as int == stack@[s
                    + 1].0 as int),
            fin_ok(g, visited@, rec_stack@),
            forall|v: int| 0 <= v < n && vis0[v] ==> visited@[v],
            visited@[node as int],
            stack@.len() > 0 ==> stack@[0].0 == node,
        decreases count_unvisited(visited@, n), rem_sum(g, stack@), stack@.len(),
    {
        proof {
            lemma_count_unvisited_nonneg(visited@, n);
            lemma_rem_sum_nonneg(g, stack@);
        }
        let top_i = stack.len() - 1;
        let pair = stack[top_i];
        let u = pair.0;
        let k = pair.1;
        if k == connections[u].len() {
            // Every neighbour of `u` is finished: `u` finishes now.
            let ghost sk_before = stack@;
            let ghost stk_before = rec_stack@;
            stack.pop();
            rec_stack[u] = false;
            proof {
                assert(stack@ =~= sk_before.drop_last());
                let ord = choose|ord: Seq<int>|
                    finish_order_ok(g, visited@, stk_before, ord);
                let new_ord = ord.push(u as int);
                assert forall|i: int| 0 <= i < new_ord.len() implies finished(
                    visited@,
                    rec_stack@,
                    #[trigger] new_ord[i],
                ) by {
                    if i < ord.len() {
                        assert(finished(visited@, stk_before, ord[i]));
                        assert(ord[i] != u as int);
                    }
                }
                assert forall|v: int| finished(visited@, rec_stack@, v) implies new_ord.contains(
                    v,
                ) by {
                    if v == u as int {
                        assert(new_ord[new_ord.len() - 1] == v);
                    } else {
                        assert(finished(visited@, stk_before, v));
                        lemma_order_idx(ord, v);
                        assert(new_ord[order_idx(ord, v)] == v);
                    }
                }
                assert forall|i: int, j: int|
                    0 <= i < j < new_ord.len() implies new_ord[i] != new_ord[j] by {
                    if j == ord.len() {
                        assert(finished(visited@, stk_before, ord[i]));
                        assert(ord[i] != u as int);
                    }
                }
                assert forall|i: int, v: int|
                    0 <= i < new_ord.len() && #[trigger] edge(g, new_ord[i], v) implies exists|
                    j: int,
                |
                    0 <= j < i && new_ord[j] == v by {
                    if i < ord.len() {
                        assert(edge(g, ord[i], v));
                        let j = choose|j: int| 0 <= j < i && ord[j] == v;
                        assert(new_ord[j] == v);
                    } else {
                        assert(edge(g, u as int, v));
                        let kk = choose|kk: int|
                            0 <= kk < g[u as int].len() && #[trigger] g[u as int][kk] as int == v;
                        assert(finished(visited@, stk_before, g[u as int][kk] as int));
                        assert(finished(visited@, stk_before, v));
                        lemma_order_idx(ord, v);
                        assert(new_ord[order_idx(ord, v)] == v);
                        assert(order_idx(ord, v) < i);
                    }
                }
                assert(finish_order_ok(g, visited@, rec_stack@, new_ord));
                assert(rem_sum(g, stack@) == rem_sum(g, sk_before));
                assert forall|v: int|
                    0 <= v < n implies (#[trigger] rec_stack@[v] <==> exists|s: int|
                        0 <= s < stack@.len() && #[trigger] stack@[s].0 as int == v) by {
                    if v == u as int {
                        if exists|s: int|
                            0 <= s < stack@.len() && #[trigger] stack@[s].0 as int == v {
                            let s = choose|s: int|
                                0 <= s < stack@.len() && #[trigger] stack@[s].0 as int == v;
                            assert(sk_before[s].0 == sk_before[sk_before.len() - 1].0);
                            assert(false);
                        }
                    } else {
                        if rec_stack@[v] {
                            let s = choose|s: int|
                                0 <= s < sk_before.len() && #[trigger] sk_before[s].0 as int == v;
                            assert(s < sk_before.len() - 1);
                            assert(stack@[s].0 as int == v);
                        }
                    }
                }
            }
        } else {
            let v32 = connections[u][k];
            let v = v32 as usize;
            proof {
                assert(g[u as int][k as int] == v32);
                assert(0 <= v32 < n);
            }
            if !visited[v] {
                let ghost vis_b = visited@;
                let ghost stk_b = rec_stack@;
                let ghost sk_b = stack@;
                stack[top_i] = (u, k + 1);
                visited[v] = true;
                rec_stack[v] = true;
                stack.push((v, 0));
                proof {
                    lemma_same_finished(g, vis_b, stk_b, visited@, rec_stack@);
                    lemma_count_unvisited_set(vis_b, v as int, n);
                    lemma_count_unvisited_nonneg(visited@, n);
                    assert(stack@[stack@.len() - 2] == (u, (k + 1) as usize));
                    assert(edge(g, u as int, v as int));
                    assert forall|w: int|
                        0 <= w < n implies (#[trigger] rec_stack@[w] <==> exists|s: int|
                            0 <= s < stack@.len() && #[trigger] stack@[s].0 as int == w) by {
                        if w == v as int {
                            assert(stack@[stack@.len() - 1].0 as int == w);
                        } else {
                            if stk_b[w] {
                                let s = choose|s: int|
                                    0 <= s < sk_b.len() && #[trigger] sk_b[s].0 as int == w;
                                assert(stack@[s].0 as int == w);
                            }
                            if exists|s: int|
                                0 <= s < stack@.len() && #[trigger] stack@[s].0 as int == w {
                                let s = choose|s: int|
                                    0 <= s < stack@.len() && #[trigger] stack@[s].0 as int == w;
                                assert(s < stack@.len() - 1);
                                assert(sk_b[s].0 as int == w);
                            }
                        }
                    }
                }
            } else if rec_stack[v] {
                // A back-edge to a node still on the stack: the stack from
                // that node to `u`, closed by this edge, is a cycle.
                proof {
                    let s0 = choose|s: int|
                        0 <= s < stack@.len() && #[trigger] stack@[s].0 as int == v as int;
                    let m = stack@.len() as int;
                    let p = Seq::new(
                        (m - s0 + 1) as nat,
                        |t: int|
                            if t < m - s0 {
                                stack@[s0 + t].0 as int
                            } else {
                                v as int
                            },
                    );
                    assert(p[0] == v as int);
                    assert(p[p.len() - 1] == v as int);
                    assert forall|i: int| 0 <= i < p.len() - 1 implies edge(
                        g,
                        #[trigger] p[i],
                        p[i + 1],
                    ) by {
                        if i < m - s0 - 1 {
                            assert(edge(g, stack@[s0 + i].0 as int, stack@[s0 + i + 1].0 as int));
                        } else {
                            assert(p[i] == stack@[m - 1].0 as int);
                            assert(stack@[m - 1].0 == u);
                            assert(g[u as int][k as int] as int == v as int);
                            assert(edge(g, u as int, v as int));
                        }
                    }
                    assert(is_cycle(g, p));
                    lemma_chain_path(g, stack@, s0);
                    assert(stack@[0].0 == node);
                    assert(path_len(g, node as int, v as int, s0 as nat));
                    assert(reachable_from(g, node as int, p[0]));
                }
                return true;
            } else {
                let ghost sk_b = stack@;
                stack[top_i] = (u, k + 1);
                proof {
                    assert(finished(visited@, rec_stack@, v as int));
                    assert(stack@.drop_last() =~= sk_b.drop_last());
                    assert(rem_sum(g, stack@) == rem_sum(g, stack@.drop_last()) + (g[
                        u as int
                    ].len() - (k + 1)));
                    assert(rem_sum(g, sk_b) == rem_sum(g, sk_b.drop_last()) + (g[u as int].len()
                        - k));
                    lemma_rem_sum_nonneg(g, stack@);
                    assert forall|w: int|
                        0 <= w < n implies (#[trigger] rec_stack@[w] <==> exists|s: int|
                            0 <= s < stack@.len() && #[trigger] stack@[s].0 as int == w) by {
                        if rec_stack@[w] {
                            let s = choose|s: int|
                                0 <= s < sk_b.len() && #[trigger] sk_b[s].0 as int == w;
                            assert(stack@[s].0 as int == w);
                        }
                        if exists|s: int|
                            0 <= s < stack@.len() && #[trigger] stack@[s].0 as int == w {
                            let s = choose|s: int|
                                0 <= s < stack@.len() && #[trigger] stack@[s].0 as int == w;
                            assert(sk_b[s].0 as int == w);
                        }
                    }
                }
            }
        }
    }
    false
}

/// Whether the graph read from the incidence structure holds a cycle:
/// true exactly when some walk of edges returns to its starting node.
#[verifier::loop_isolation(false)]
pub fn has_cycle(n: usize, connections: &Vec<Vec<i32>>) -> (r: bool)
    requires
        n == connections@.len(),
        graph_wf(connections.deep_view()),
    ensures
        r <==> cyclic(connections.deep_view()),
{
    let ghost g = connections.deep_view();
    let mut visited = make_flags(n);
    let mut rec_stack = make_flags(n);
    proof {
        let ord0 = Seq::<int>::empty();
        assert(finish_order_ok(g, visited@, rec_stack@, ord0));
    }
    let mut i: usize = 0;
    while i < n
        invariant
            visited@.len() == n,
            rec_stack@.len() == n,
            forall|v: int| 0 <= v < n ==> !rec_stack@[v],
            fin_ok(g, visited@, rec_stack@),
            forall|j: int| 0 <= j < i ==> visited@[j],
        decreases n - i,
    {
        if has_cycle_util(i, &mut visited, &mut rec_stack, connections) {
            return true;
        }
        i = i + 1;
    }
    proof {
        lemma_all_finished_acyclic(g, visited@, rec_stack@);
    }
    false
}

} // verus!
