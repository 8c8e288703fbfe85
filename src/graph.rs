//! The adjacency-list graph model and the walks over it.
use vstd::prelude::*;

verus! {

/// A directed graph: `adj[u]` lists the outgoing edges `(v, weight)` of node `u`.
/// The nodes are `0..adj.len()`.
pub struct Graph {
    pub adj: Vec<Vec<(usize, u64)>>,
}

impl View for Graph {
    type V = Seq<Seq<(usize, u64)>>;

    open spec fn view(&self) -> Seq<Seq<(usize, u64)>> {
        self.adj@.map_values(|e: Vec<(usize, u64)>| e@)
    }
}

/// Every edge target names a node of the graph.
pub open spec fn well_formed(g: Seq<Seq<(usize, u64)>>) -> bool {
    forall|u: int, i: int|
        0 <= u < g.len() && 0 <= i < g[u].len() ==> (#[trigger] g[u][i]).0 < g.len()
}

/// There is an edge `u -> v` of weight `w`.
pub open spec fn has_edge(g: Seq<Seq<(usize, u64)>>, u: usize, v: usize, w: u64) -> bool {
    u < g.len() && exists|i: int| 0 <= i < g[u as int].len() && #[trigger] g[u as int][i] == (v, w)
}

/// Sum of a sequence of weights.
pub open spec fn total(ws: Seq<u64>) -> int
    decreases ws.len(),
{
    if ws.len() == 0 {
        0
    } else {
        total(ws.drop_last()) + ws.last()
    }
}

/// `nodes` is a walk whose `i`-th step follows an edge of weight `ws[i]`.
pub open spec fn is_walk(g: Seq<Seq<(usize, u64)>>, nodes: Seq<usize>, ws: Seq<u64>) -> bool {
    &&& nodes.len() == ws.len() + 1
    &&& forall|i: int| 0 <= i < ws.len() ==> has_edge(g, nodes[i], nodes[i + 1], #[trigger] ws[i])
}

/// `nodes` is a walk from `s` to `t`.
pub open spec fn walk_between(
    g: Seq<Seq<(usize, u64)>>,
    s: usize,
    t: usize,
    nodes: Seq<usize>,
    ws: Seq<u64>,
) -> bool {
    is_walk(g, nodes, ws) && nodes[0] == s && nodes.last() == t
}

/// Some walk leads from `s` to `t`.
pub open spec fn reachable(g: Seq<Seq<(usize, u64)>>, s: usize, t: usize) -> bool {
    exists|nodes: Seq<usize>, ws: Seq<u64>| walk_between(g, s, t, nodes, ws)
}

/// `c` is the least total weight of a walk from `s` to `t`.
pub open spec fn is_shortest(g: Seq<Seq<(usize, u64)>>, s: usize, t: usize, c: int) -> bool {
    &&& exists|nodes: Seq<usize>, ws: Seq<u64>| walk_between(g, s, t, nodes, ws) && total(ws) == c
    &&& forall|nodes: Seq<usize>, ws: Seq<u64>|
        #[trigger] walk_between(g, s, t, nodes, ws) ==> c <= total(ws)
}

/// Adding a step adds its weight.
pub proof fn lemma_total_push(ws: Seq<u64>, w: u64)
    ensures
        total(ws.push(w)) == total(ws) + w,
{
    assert(ws.push(w).drop_last() =~= ws);
}

/// The first `k + 1` weights total the first `k` plus the next one.
pub proof fn lemma_total_take(ws: Seq<u64>, k: int)
    requires
        0 <= k < ws.len(),
    ensures
        total(ws.take(k + 1)) == total(ws.take(k)) + ws[k],
{
    assert(ws.take(k + 1).drop_last() =~= ws.take(k));
}

/// A prefix of the weights totals no more than all of them.
pub proof fn lemma_total_prefix(ws: Seq<u64>, k: int)
    requires
        0 <= k <= ws.len(),
    ensures
        0 <= total(ws.take(k)) <= total(ws),
    decreases ws.len() - k,
{
    if k < ws.len() {
        lemma_total_take(ws, k);
        lemma_total_prefix(ws, k + 1);
        lemma_total_nonneg(ws.take(k));
    } else {
        assert(ws.take(k) =~= ws);
        lemma_total_nonneg(ws);
    }
}

/// Weights are non-negative, so their total is too.
pub proof fn lemma_total_nonneg(ws: Seq<u64>)
    ensures
        total(ws) >= 0,
    decreases ws.len(),
{
    if ws.len() > 0 {
        lemma_total_nonneg(ws.drop_last());
    }
}

/// A walk to `u` followed by an edge `u -> v` is a walk to `v`.
pub proof fn lemma_walk_extend(
    g: Seq<Seq<(usize, u64)>>,
    s: usize,
    u: usize,
    v: usize,
    w: u64,
    nodes: Seq<usize>,
    ws: Seq<u64>,
)
    requires
        walk_between(g, s, u, nodes, ws),
        has_edge(g, u, v, w),
    ensures
        walk_between(g, s, v, nodes.push(v), ws.push(w)),
        total(ws.push(w)) == total(ws) + w,
{
    lemma_total_push(ws, w);
    let n2 = nodes.push(v);
    let w2 = ws.push(w);
    assert forall|i: int| 0 <= i < w2.len() implies has_edge(g, n2[i], n2[i + 1], #[trigger] w2[i]) by {
        if i < ws.len() {
            assert(n2[i] == nodes[i] && n2[i + 1] == nodes[i + 1] && w2[i] == ws[i]);
        }
    }
}

/// `path` is a walk from `s` to `t` of total weight `c`.
pub open spec fn path_of_weight(
    g: Seq<Seq<(usize, u64)>>,
    s: usize,
    t: usize,
    path: Seq<usize>,
    c: int,
) -> bool {
    exists|ws: Seq<u64>| walk_between(g, s, t, path, ws) && total(ws) == c
}

/// Putting a step in front adds its weight.
pub proof fn lemma_total_prepend(w: u64, ws: Seq<u64>)
    ensures
        total(seq![w] + ws) == w + total(ws),
    decreases ws.len(),
{
    if ws.len() > 0 {
        lemma_total_prepend(w, ws.drop_last());
        assert((seq![w] + ws).drop_last() =~= seq![w] + ws.drop_last());
        assert((seq![w] + ws).last() == ws.last());
    } else {
        assert(seq![w] + ws =~= seq![w]);
        assert(seq![w].drop_last() =~= Seq::<u64>::empty());
        assert(total(seq![w]) == total(Seq::<u64>::empty()) + w);
    }
}

/// An edge `u -> v` followed by a walk from `v` is a walk from `u`.
pub proof fn lemma_walk_prepend(
    g: Seq<Seq<(usize, u64)>>,
    u: usize,
    v: usize,
    t: usize,
    w: u64,
    nodes: Seq<usize>,
    ws: Seq<u64>,
)
    requires
        walk_between(g, v, t, nodes, ws),
        has_edge(g, u, v, w),
    ensures
        walk_between(g, u, t, seq![u] + nodes, seq![w] + ws),
        total(seq![w] + ws) == w + total(ws),
{
    lemma_total_prepend(w, ws);
    let n2 = seq![u] + nodes;
    let w2 = seq![w] + ws;
    assert forall|i: int| 0 <= i < w2.len() implies has_edge(g, n2[i], n2[i + 1], #[trigger] w2[i]) by {
        if i > 0 {
            assert(n2[i] == nodes[i - 1] && n2[i + 1] == nodes[i] && w2[i] == ws[i - 1]);
        }
    }
}

impl Graph {
    /// Whether every edge target names a node of the graph.
    pub fn is_well_formed(&self) -> (r: bool)
        ensures
            r == well_formed(self@),
    {
        let n = self.adj.len();
        let mut u: usize = 0;
        while u < n
            invariant
                n == self@.len(),
                u <= n,
                forall|x: int, i: int|
                    0 <= x < u && 0 <= i < self@[x].len() ==> (#[trigger] self@[x][i]).0 < n,
            decreases n - u,
        {
            let edges = &self.adj[u];
            assert(edges@ == self@[u as int]);
            let mut i: usize = 0;
            while i < edges.len()
                invariant
                    n == self@.len(),
                    u < n,
                    edges@ == self@[u as int],
                    i <= edges@.len(),
                    forall|x: int, k: int|
                        0 <= x < u && 0 <= k < self@[x].len() ==> (#[trigger] self@[x][k]).0 < n,
                    forall|k: int| 0 <= k < i ==> (#[trigger] self@[u as int][k]).0 < n,
                decreases edges@.len() - i,
            {
                if edges[i].0 >= n {
                    assert(self@[u as int][i as int].0 >= n);
                    return false;
                }
                i = i + 1;
            }
            u = u + 1;
        }
        true
    }
}

} // verus!
