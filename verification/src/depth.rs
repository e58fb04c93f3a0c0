//! The depth labeler: a breadth-first traversal from the fixed root at
//! index 0, producing one depth per node. The result is proved to be the
//! breadth-first distance exactly: a reachable node's entry is the length
//! of a shortest walk from the root, and an unreached node keeps depth 0,
//! indistinguishable from the root.

use vstd::prelude::*;
use crate::cycle::{
    count_unvisited, lemma_count_unvisited_nonneg, lemma_count_unvisited_set, make_flags,
};
use crate::graph::{edge, graph_wf, path_len, reachable};

verus! {

/// `dep` is the breadth-first depth array of `g`: entry `v` is the length
/// of a shortest walk from node 0 to `v` when one exists, and 0 otherwise.
pub open spec fn depth_array_ok(g: Seq<Seq<i32>>, dep: Seq<i32>) -> bool {
    &&& dep.len() == g.len()
    &&& forall|v: int| 0 <= v < g.len() ==> 0 <= #[trigger] dep[v] < g.len()
    &&& forall|v: int|
        0 <= v < g.len() && reachable(g, v) ==> path_len(g, 0, v, #[trigger] dep[v] as nat)
    &&& forall|v: int, k: nat| 0 <= v < g.len() && #[trigger] path_len(g, 0, v, k) ==> dep[v] <= k
    &&& forall|v: int| 0 <= v < g.len() && !reachable(g, v) ==> #[trigger] dep[v] == 0
}

proof fn lemma_count_all_unvisited(vis: Seq<bool>, i: int)
    requires
        forall|t: int| 0 <= t < i ==> !vis[t],
    ensures
        count_unvisited(vis, i) == if i >= 0 {
            i
        } else {
            0
        },
    decreases i,
{
    if i > 0 {
        lemma_count_all_unvisited(vis, i - 1);
    }
}

proof fn lemma_count_unvisited_pos(vis: Seq<bool>, v: int, i: int)
    requires
        0 <= v < i,
        !vis[v],
    ensures
        count_unvisited(vis, i) >= 1,
    decreases i,
{
    lemma_count_unvisited_nonneg(vis, i - 1);
    if v < i - 1 {
        lemma_count_unvisited_pos(vis, v, i - 1);
    }
}

/// Once every discovered node's neighbours are discovered no deeper than
/// one step further, a walk of `k` edges from the root reaches only
/// discovered nodes, at depth at most `k`.
proof fn lemma_bfs_reaches(g: Seq<Seq<i32>>, vis: Seq<bool>, dep: Seq<i32>, k: nat)
    requires
        graph_wf(g),
        vis.len() == g.len(),
        dep.len() == g.len(),
        g.len() >= 1,
        vis[0],
        dep[0] == 0,
        forall|u: int, j: int|
            0 <= u < g.len() && vis[u] && 0 <= j < g[u].len() ==> vis[
                #[trigger] g[u][j] as int
            ] && dep[g[u][j] as int] <= dep[u] + 1,
    ensures
        forall|v: int|
            0 <= v < g.len() && #[trigger] path_len(g, 0, v, k) ==> vis[v] && dep[v] <= k,
    decreases k,
{
    if k > 0 {
        lemma_bfs_reaches(g, vis, dep, (k - 1) as nat);
        assert forall|v: int|
            0 <= v < g.len() && #[trigger] path_len(g, 0, v, k) implies vis[v] && dep[v]
            <= k by {
            let u = choose|u: int| path_len(g, 0, u, (k - 1) as nat) && edge(g, u, v);
            assert(0 <= u < g.len());
            assert(vis[u] && dep[u] <= k - 1);
            let j = choose|j: int| 0 <= j < g[u].len() && #[trigger] g[u][j] as int == v;
            assert(vis[g[u][j] as int] && dep[g[u][j] as int] <= dep[u] + 1);
        }
    }
}

/// Labels every node with its breadth-first depth from the fixed root at
/// index 0, using a first-in-first-out queue; nodes the traversal never
/// reaches keep depth 0.
#[verifier::loop_isolation(false)]
#[verifier::rlimit(60)]
pub fn construct_connections_util(n: usize, connections: &Vec<Vec<i32>>) -> (dep: Vec<i32>)
    requires
        n == connections@.len(),
        1 <= n <= 0x8000_0000,
        graph_wf(connections.deep_view()),
    ensures
        depth_array_ok(connections.deep_view(), dep@),
{
    let ghost g = connections.deep_view();
    proof {
        assert(g.len() == n);
        assert forall|t: int| 0 <= t < g.len() implies #[trigger] g[t] == connections@[t]@ by {
            assert(g[t] == connections@[t].deep_view());
            assert(connections@[t].deep_view() =~= connections@[t]@);
        }
    }
    let mut visited = make_flags(n);
    let mut dep: Vec<i32> = Vec::new();
    while dep.len() < n
        invariant
            dep@.len() <= n,
            forall|v: int| 0 <= v < dep@.len() ==> #[trigger] dep@[v] == 0,
        decreases n - dep@.len(),
    {
        dep.push(0);
    }
    let mut queue: Vec<usize> = Vec::new();
    proof {
        lemma_count_all_unvisited(visited@, n as int);
    }
    queue.push(0);
    let ghost vis_init = visited@;
    visited[0] = true;
    proof {
        lemma_count_unvisited_set(vis_init, 0, n as int);
        assert(queue@[0] == 0usize);
        assert(path_len(g, 0, 0, 0nat));
    }
    let mut head: usize = 0;
    while head < queue.len()
        invariant
            visited@.len() == n,
            dep@.len() == n,
            head <= queue@.len(),
            queue@.len() + count_unvisited(visited@, n as int) == n,
            count_unvisited(visited@, n as int) >= 0,
            forall|s: int, t: int|
                0 <= s < t < queue@.len() ==> dep@[#[trigger] queue@[s] as int] <= dep@[
                    #[trigger] queue@[t] as int
                ],
            head < queue@.len() ==> forall|t: int|
                0 <= t < queue@.len() ==> dep@[#[trigger] queue@[t] as int] <= dep@[queue@[
                    head as int
                ] as int] + 1,
            forall|s: int|
                0 <= s < queue@.len() ==> #[trigger] queue@[s] < n && visited@[queue@[s] as int],
            forall|s: int, t: int| 0 <= s < t < queue@.len() ==> queue@[s] != queue@[t],
            forall|v: int|
                0 <= v < n && #[trigger] visited@[v] ==> exists|s: int|
                    0 <= s < queue@.len() && #[trigger] queue@[s] as int == v,
            visited@[0],
            dep@[0] == 0,
            forall|v: int|
                0 <= v < n && #[trigger] visited@[v] ==> 0 <= dep@[v] <= queue@.len() - 1,
            forall|v: int| 0 <= v < n && !visited@[v] ==> #[trigger] dep@[v] == 0,
            forall|v: int|
                0 <= v < n && #[trigger] visited@[v] ==> path_len(g, 0, v, dep@[v] as nat),
            forall|s: int, j: int|
                0 <= s < head && 0 <= j < g[queue@[s] as int].len() ==> visited@[
                    #[trigger] g[queue@[s] as int][j] as int
                ] && dep@[g[queue@[s] as int][j] as int] <= dep@[queue@[s] as int] + 1,
        decreases queue@.len() - head + count_unvisited(visited@, n as int),
    {
        let u = queue[head];
        let du = dep[u];
        let mut j: usize = 0;
        while j < connections[u].len()
            invariant
                visited@.len() == n,
                dep@.len() == n,
                head < queue@.len(),
                u == queue@[head as int],
                du == dep@[u as int],
                u < n,
                queue@.len() + count_unvisited(visited@, n as int) == n,
                count_unvisited(visited@, n as int) >= 0,
                forall|s: int, t: int|
                    0 <= s < t < queue@.len() ==> dep@[#[trigger] queue@[s] as int] <= dep@[
                        #[trigger] queue@[t] as int
                    ],
                forall|t: int|
                    0 <= t < queue@.len() ==> dep@[#[trigger] queue@[t] as int] <= du + 1,
                du <= dep@[queue@[queue@.len() - 1] as int],
                forall|s: int|
                    0 <= s < queue@.len() ==> #[trigger] queue@[s] < n && visited@[
                        queue@[s] as int
                    ],
                forall|s: int, t: int| 0 <= s < t < queue@.len() ==> queue@[s] != queue@[t],
                forall|v: int|
                    0 <= v < n && #[trigger] visited@[v] ==> exists|s: int|
                        0 <= s < queue@.len() && #[trigger] queue@[s] as int == v,
                visited@[0],
                dep@[0] == 0,
                forall|v: int|
                    0 <= v < n && #[trigger] visited@[v] ==> 0 <= dep@[v] <= queue@.len() - 1,
                forall|v: int| 0 <= v < n && !visited@[v] ==> #[trigger] dep@[v] == 0,
                forall|v: int|
                    0 <= v < n && #[trigger] visited@[v] ==> path_len(g, 0, v, dep@[v] as nat),
                forall|s: int, jj: int|
                    0 <= s < head && 0 <= jj < g[queue@[s] as int].len() ==> visited@[
                        #[trigger] g[queue@[s] as int][jj] as int
                    ] && dep@[g[queue@[s] as int][jj] as int] <= dep@[queue@[s] as int] + 1,
                forall|jj: int|
                    0 <= jj < j ==> visited@[#[trigger] g[u as int][jj] as int] && dep@[g[
                        u as int
                    ][jj] as int] <= du + 1,
            decreases connections@[u as int]@.len() - j,
        {
            let w32 = connections[u][j];
            let w = w32 as usize;
            proof {
                assert(g[u as int][j as int] == w32);
                assert(0 <= w32 < n);
            }
            if !visited[w] {
                proof {
                    lemma_count_unvisited_pos(visited@, w as int, n as int);
                }
                let ghost vis_b = visited@;
                let ghost q_b = queue@;
                visited[w] = true;
                dep[w] = du + 1;
                queue.push(w);
                proof {
                    lemma_count_unvisited_set(vis_b, w as int, n as int);
                    lemma_count_unvisited_nonneg(visited@, n as int);
                    assert(path_len(g, 0, u as int, du as nat));
                    assert(edge(g, u as int, w as int));
                    assert(path_len(g, 0, w as int, (du + 1) as nat));
                    assert(queue@[queue@.len() - 1] == w);
                    assert forall|v: int|
                        0 <= v < n && #[trigger] visited@[v] implies exists|s: int|
                        0 <= s < queue@.len() && #[trigger] queue@[s] as int == v by {
                        if v == w as int {
                            assert(queue@[queue@.len() - 1] as int == v);
                        } else {
                            let s = choose|s: int|
                                0 <= s < q_b.len() && #[trigger] q_b[s] as int == v;
                            assert(queue@[s] as int == v);
                        }
                    }
                }
            } else {
                proof {
                    let s = choose|s: int|
                        0 <= s < queue@.len() && #[trigger] queue@[s] as int == w as int;
                    assert(dep@[queue@[s] as int] <= du + 1);
                }
            }
            j = j + 1;
        }
        proof {
            if head + 1 < queue@.len() {
                assert(dep@[queue@[head as int] as int] <= dep@[queue@[head + 1] as int]);
            }
        }
        head = head + 1;
    }
    proof {
        assert forall|u: int, j: int|
            0 <= u < g.len() && visited@[u] && 0 <= j < g[u].len() implies visited@[
            #[trigger] g[u][j] as int
        ] && dep@[g[u][j] as int] <= dep@[u] + 1 by {
            let s = choose|s: int| 0 <= s < queue@.len() && #[trigger] queue@[s] as int == u;
            assert(visited@[g[queue@[s] as int][j] as int]);
        }
        assert forall|v: int, k: nat|
            0 <= v < g.len() && #[trigger] path_len(g, 0, v, k) implies dep@[v] <= k by {
            lemma_bfs_reaches(g, visited@, dep@, k);
        }
        assert forall|v: int|
            0 <= v < g.len() && reachable(g, v) implies path_len(
            g,
            0,
            v,
            #[trigger] dep@[v] as nat,
        ) by {
            let k = choose|k: nat| path_len(g, 0, v, k);
            lemma_bfs_reaches(g, visited@, dep@, k);
        }
        assert forall|v: int| 0 <= v < g.len() && !reachable(g, v) implies #[trigger] dep@[v]
            == 0 by {
            if visited@[v] {
                assert(path_len(g, 0, v, dep@[v] as nat));
                assert(reachable(g, v));
            }
        }
    }
    dep
}

} // verus!
