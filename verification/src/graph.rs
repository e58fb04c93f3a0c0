//! The mathematical model of the graph encoded by the incidence structure:
//! each bucket value is read as a node index, an edge runs from a node to
//! every value in its bucket, and cycles and breadth-first distances are
//! stated over paths of such edges.

use vstd::prelude::*;

verus! {

/// Every bucket value is a node index within the structure.
pub open spec fn graph_wf(g: Seq<Seq<i32>>) -> bool {
    forall|u: int, k: int|
        0 <= u < g.len() && 0 <= k < g[u].len() ==> 0 <= #[trigger] g[u][k] < g.len()
}

/// An edge from node `u` to node `v`: some value in `u`'s bucket reads `v`.
pub open spec fn edge(g: Seq<Seq<i32>>, u: int, v: int) -> bool {
    &&& 0 <= u < g.len()
    &&& exists|k: int| 0 <= k < g[u].len() && #[trigger] g[u][k] as int == v
}

/// `p` is a cycle: a walk of at least one edge that returns to its start.
pub open spec fn is_cycle(g: Seq<Seq<i32>>, p: Seq<int>) -> bool {
    &&& p.len() >= 2
    &&& p[0] == p[p.len() - 1]
    &&& forall|i: int| 0 <= i < p.len() - 1 ==> edge(g, #[trigger] p[i], p[i + 1])
}

/// The graph holds a cycle somewhere.
pub open spec fn cyclic(g: Seq<Seq<i32>>) -> bool {
    exists|p: Seq<int>| is_cycle(g, p)
}

/// There is a walk of exactly `k` edges from node `s` to node `t`.
pub open spec fn path_len(g: Seq<Seq<i32>>, s: int, t: int, k: nat) -> bool
    decreases k,
{
    if k == 0 {
        s == t
    } else {
        exists|u: int| path_len(g, s, u, (k - 1) as nat) && edge(g, u, t)
    }
}

/// Node `t` can be reached from node `s` by some walk.
pub open spec fn reachable_from(g: Seq<Seq<i32>>, s: int, t: int) -> bool {
    exists|k: nat| path_len(g, s, t, k)
}

/// Node `t` can be reached from the root node 0.
pub open spec fn reachable(g: Seq<Seq<i32>>, t: int) -> bool {
    reachable_from(g, 0, t)
}

} // verus!
