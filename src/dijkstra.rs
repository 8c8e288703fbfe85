//! The relaxation engine and the path reconstructor.
use vstd::prelude::*;
use vstd::multiset::Multiset;
use vstd::set_lib::{set_int_range, lemma_int_range, lemma_len_subset};
use crate::graph::{
    Graph, well_formed, has_edge, total, is_walk, walk_between, reachable, is_shortest,
    path_of_weight, lemma_total_take, lemma_total_prefix, lemma_total_nonneg, lemma_walk_extend,
    lemma_walk_prepend,
};
use crate::queue::MinQueue;

verus! {

/// Largest edge weight.
pub open spec fn max_weight() -> int {
    u64::MAX as int
}

/// Distances and predecessors computed from one source.
/// `distances[v]` is `None` when `v` is unreachable (an infinite distance).
#[derive(Debug, Clone, PartialEq, Eq)]
pub struct DijkstraResult {
    pub source: usize,
    pub distances: Vec<Option<u128>>,
    pub predecessors: Vec<Option<usize>>,
}

/// A shortest path and its total weight.
#[derive(Debug, Clone, PartialEq, Eq)]
pub struct PathResult {
    pub distance: u128,
    pub path: Vec<usize>,
}

/// Why no path could be produced; names the source and the target asked for.
#[derive(Debug, Clone, Copy, PartialEq, Eq)]
pub enum PathError {
    NoPathExists { source: usize, target: usize },
}

impl DijkstraResult {
    /// Recorded distance of `v`; the source counts even when it is not a node of the graph.
    pub open spec fn dist_of(&self, v: usize) -> Option<int> {
        if v < self.distances@.len() {
            match self.distances@[v as int] {
                Some(d) => Some(d as int),
                None => None,
            }
        } else if v == self.source {
            Some(0)
        } else {
            None
        }
    }

    /// Recorded predecessor of `v`.
    pub open spec fn pred_of(&self, v: usize) -> Option<usize> {
        if v < self.predecessors@.len() {
            self.predecessors@[v as int]
        } else {
            None
        }
    }

    /// Following predecessors strictly lowers `rank`.
    pub open spec fn ranked_by(&self, rank: Seq<nat>) -> bool {
        &&& rank.len() == self.predecessors@.len()
        &&& forall|v: usize|
            v < self.predecessors@.len() && (#[trigger] self.predecessors@[v as int]) is Some
                ==> self.predecessors@[v as int]->0 < rank.len() && rank[self.predecessors@[v as int]->0 as int] < rank[v as int]
    }

    /// This is the shortest-path result of `g` from `s`: every node reachable from `s`
    /// has its least walk weight and a predecessor on a shortest walk (the source
    /// has none); every other node has neither. Predecessor chains have no cycle.
    pub open spec fn solves(&self, g: Seq<Seq<(usize, u64)>>, s: usize) -> bool {
        &&& self.source == s
        &&& self.distances@.len() == g.len()
        &&& self.predecessors@.len() == g.len()
        &&& forall|v: usize| (#[trigger] self.dist_of(v)) is Some <==> reachable(g, s, v)
        &&& forall|v: usize| #[trigger] self.dist_of(v) is Some ==> is_shortest(g, s, v, self.dist_of(v)->0)
        &&& forall|v: usize| (#[trigger] self.pred_of(v)) is None <==> (v == s || !reachable(g, s, v))
        &&& forall|v: usize| #[trigger] self.pred_of(v) is Some ==> {
            let u = self.pred_of(v)->0;
            &&& self.dist_of(u) is Some
            &&& exists|w: u64| has_edge(g, u, v, w) && self.dist_of(v)->0 == self.dist_of(u)->0 + w
        }
        &&& exists|rank: Seq<nat>| self.ranked_by(rank)
    }
}

// ---- the engine's invariants, over the working sequences ----

/// Nodes marked visited.
pub open spec fn visited_set(vis: Seq<bool>) -> Set<int> {
    Set::new(|v: int| 0 <= v < vis.len() && vis[v])
}

/// Each queue entry names a node whose recorded distance is at most the entry's.
pub open spec fn queue_sound(dist: Seq<Option<u128>>, q: Multiset<(u128, usize)>) -> bool {
    forall|e: (u128, usize)|
        #[trigger] q.contains(e) ==> {
            &&& e.1 < dist.len()
            &&& dist[e.1 as int] is Some
            &&& dist[e.1 as int]->0 <= e.0
        }
}

/// Each unvisited node with a finite distance (but `except`) has an entry carrying it.
pub open spec fn queued(
    dist: Seq<Option<u128>>,
    vis: Seq<bool>,
    q: Multiset<(u128, usize)>,
    except: int,
) -> bool {
    forall|v: int|
        0 <= v < dist.len() && v != except && !vis[v] && (#[trigger] dist[v]) is Some
            ==> q.contains((dist[v]->0, v as usize))
}

/// The edges out of visited nodes are relaxed, but for those of `except` from index `upto` on.
pub open spec fn relaxed(
    g: Seq<Seq<(usize, u64)>>,
    dist: Seq<Option<u128>>,
    vis: Seq<bool>,
    except: int,
    upto: int,
) -> bool {
    forall|x: int, i: int|
        0 <= x < g.len() && vis[x] && 0 <= i < g[x].len() && (x != except || i < upto) ==> {
            let e = #[trigger] g[x][i];
            &&& dist[e.0 as int] is Some
            &&& dist[e.0 as int]->0 <= dist[x]->0 + e.1
        }
}

/// Visited nodes hold distances no walk beats.
pub open spec fn settled(
    g: Seq<Seq<(usize, u64)>>,
    s: usize,
    dist: Seq<Option<u128>>,
    vis: Seq<bool>,
) -> bool {
    forall|v: usize|
        v < vis.len() && #[trigger] vis[v as int] ==> {
            &&& dist[v as int] is Some
            &&& forall|nodes: Seq<usize>, ws: Seq<u64>|
                #[trigger] walk_between(g, s, v, nodes, ws) ==> dist[v as int]->0 <= total(ws)
        }
}

/// Each finite distance is the weight of some walk.
pub open spec fn witnessed(g: Seq<Seq<(usize, u64)>>, s: usize, dist: Seq<Option<u128>>) -> bool {
    forall|v: usize|
        v < dist.len() && (#[trigger] dist[v as int]) is Some ==> exists|nodes: Seq<usize>, ws: Seq<u64>|
            walk_between(g, s, v, nodes, ws) && total(ws) == dist[v as int]->0
}

/// Predecessors: exactly the non-source nodes with a finite distance have one; it is
/// visited, reached through one edge, and ranked below a visited node.
pub open spec fn preds_ok(
    g: Seq<Seq<(usize, u64)>>,
    s: usize,
    dist: Seq<Option<u128>>,
    pred: Seq<Option<usize>>,
    vis: Seq<bool>,
    rank: Seq<nat>,
) -> bool {
    forall|v: usize|
        v < pred.len() ==> {
            &&& ((#[trigger] pred[v as int]) is Some <==> (v != s && dist[v as int] is Some))
            &&& pred[v as int] is Some ==> {
                let u = pred[v as int]->0;
                &&& u < vis.len()
                &&& vis[u as int]
                &&& (vis[v as int] ==> rank[u as int] < rank[v as int])
                &&& exists|w: u64|
                    has_edge(g, u, v, w) && dist[v as int]->0 == dist[u as int]->0 + w
            }
        }
}

/// Finite distances are at most `cnt` heaviest edges.
pub open spec fn bounded(dist: Seq<Option<u128>>, cnt: nat) -> bool {
    forall|v: int| 0 <= v < dist.len() && (#[trigger] dist[v]) is Some ==> dist[v]->0 <= cnt * max_weight()
}

/// `cnt` nodes are visited, and their ranks are below `cnt`.
pub open spec fn counted(vis: Seq<bool>, rank: Seq<nat>, cnt: nat) -> bool {
    &&& rank.len() == vis.len()
    &&& visited_set(vis).len() == cnt
    &&& forall|v: int| 0 <= v < vis.len() && #[trigger] vis[v] ==> rank[v] < cnt
}

proof fn lemma_visited_bound(vis: Seq<bool>)
    ensures
        visited_set(vis).finite(),
        visited_set(vis).len() <= vis.len(),
{
    lemma_int_range(0, vis.len() as int);
    lemma_len_subset(visited_set(vis), set_int_range(0, vis.len() as int));
}

proof fn lemma_visit(vis: Seq<bool>, u: int)
    requires
        0 <= u < vis.len(),
        !vis[u],
    ensures
        visited_set(vis.update(u, true)).len() == visited_set(vis).len() + 1,
        visited_set(vis.update(u, true)).len() <= vis.len(),
{
    lemma_visited_bound(vis);
    lemma_visited_bound(vis.update(u, true));
    assert(visited_set(vis.update(u, true)) =~= visited_set(vis).insert(u));
}

/// The first node of a walk that is not visited, given one that is not.
proof fn lemma_first_unvisited(vis: Seq<bool>, nodes: Seq<usize>, k: int) -> (j: int)
    requires
        0 <= k < nodes.len(),
        forall|i: int| 0 <= i < nodes.len() ==> nodes[i] < vis.len(),
        !vis[nodes[k] as int],
    ensures
        0 <= j <= k,
        !vis[nodes[j] as int],
        forall|i: int| 0 <= i < j ==> vis[nodes[i] as int],
    decreases k,
{
    if exists|i: int| 0 <= i < k && !vis[nodes[i] as int] {
        let i = choose|i: int| 0 <= i < k && !vis[nodes[i] as int];
        lemma_first_unvisited(vis, nodes, i)
    } else {
        k
    }
}

/// The nodes of a walk from a node of a well-formed graph are nodes of the graph.
proof fn lemma_walk_in_graph(g: Seq<Seq<(usize, u64)>>, nodes: Seq<usize>, ws: Seq<u64>)
    requires
        well_formed(g),
        is_walk(g, nodes, ws),
        nodes[0] < g.len(),
    ensures
        forall|i: int| 0 <= i < nodes.len() ==> nodes[i] < g.len(),
{
    assert forall|i: int| 0 <= i < nodes.len() implies nodes[i] < g.len() by {
        if i > 0 {
            assert(has_edge(g, nodes[i - 1], nodes[i], ws[i - 1]));
            let x = nodes[i - 1] as int;
            let e = choose|e: int| 0 <= e < g[x].len() && #[trigger] g[x][e] == (nodes[i], ws[i - 1]);
            assert(g[x][e].0 < g.len());
        }
    }
}

/// A walk from a node outside the graph goes nowhere.
proof fn lemma_walk_outside(g: Seq<Seq<(usize, u64)>>, s: usize, t: usize, nodes: Seq<usize>, ws: Seq<u64>)
    requires
        walk_between(g, s, t, nodes, ws),
        s >= g.len(),
    ensures
        t == s,
        ws.len() == 0,
{
    if ws.len() > 0 {
        assert(has_edge(g, nodes[0], nodes[1], ws[0]));
    }
}

/// Along a walk from the source whose first `k` nodes are visited, the `k`-th node's
/// distance is finite and at most the weight of the walk up to it.
proof fn lemma_prefix_bound(
    g: Seq<Seq<(usize, u64)>>,
    s: usize,
    dist: Seq<Option<u128>>,
    vis: Seq<bool>,
    nodes: Seq<usize>,
    ws: Seq<u64>,
    k: int,
)
    requires
        well_formed(g),
        s < g.len(),
        dist.len() == g.len(),
        vis.len() == g.len(),
        dist[s as int] == Some(0u128),
        relaxed(g, dist, vis, -1, 0),
        is_walk(g, nodes, ws),
        nodes[0] == s,
        0 <= k < nodes.len(),
        forall|i: int| 0 <= i < k ==> vis[nodes[i] as int],
    ensures
        dist[nodes[k] as int] is Some,
        dist[nodes[k] as int]->0 <= total(ws.take(k)),
    decreases k,
{
    if k == 0 {
        assert(ws.take(0) =~= Seq::<u64>::empty());
    } else {
        lemma_prefix_bound(g, s, dist, vis, nodes, ws, k - 1);
        lemma_total_take(ws, k - 1);
        let x = nodes[k - 1] as int;
        assert(has_edge(g, nodes[k - 1], nodes[k], ws[k - 1]));
        let e = choose|e: int| 0 <= e < g[x].len() && #[trigger] g[x][e] == (nodes[k], ws[k - 1]);
        assert(g[x][e].0 == nodes[k]);
    }
}

/// An entry of least distance for an unvisited node carries a distance no walk to it beats.
proof fn lemma_popped_optimal(
    g: Seq<Seq<(usize, u64)>>,
    s: usize,
    dist: Seq<Option<u128>>,
    vis: Seq<bool>,
    q: Multiset<(u128, usize)>,
    d: u128,
    u: usize,
)
    requires
        well_formed(g),
        s < g.len(),
        u < g.len(),
        dist.len() == g.len(),
        vis.len() == g.len(),
        dist[s as int] == Some(0u128),
        relaxed(g, dist, vis, -1, 0),
        queued(dist, vis, q, -1),
        forall|x: (u128, usize)| #[trigger] q.contains(x) ==> d <= x.0,
        !vis[u as int],
    ensures
        forall|nodes: Seq<usize>, ws: Seq<u64>|
            #[trigger] walk_between(g, s, u, nodes, ws) ==> d <= total(ws),
{
    assert forall|nodes: Seq<usize>, ws: Seq<u64>|
        #[trigger] walk_between(g, s, u, nodes, ws) implies d <= total(ws) by {
        lemma_walk_in_graph(g, nodes, ws);
        let j = lemma_first_unvisited(vis, nodes, nodes.len() - 1);
        lemma_prefix_bound(g, s, dist, vis, nodes, ws, j);
        lemma_total_prefix(ws, j);
        let y = nodes[j] as int;
        assert(dist[y] is Some);
        assert(q.contains((dist[y]->0, y as usize)));
    }
}


/// Relaxing edge `j` of `u` to `v` improves `v`'s distance: the update keeps the invariants.
proof fn lemma_relax_update(
    g: Seq<Seq<(usize, u64)>>,
    s: usize,
    dist: Seq<Option<u128>>,
    pred: Seq<Option<usize>>,
    vis: Seq<bool>,
    q: Multiset<(u128, usize)>,
    rank: Seq<nat>,
    cnt: nat,
    u: usize,
    d: u128,
    j: int,
    v: usize,
    w: u64,
)
    requires
        well_formed(g),
        s < g.len(),
        u < g.len(),
        0 <= j < g[u as int].len(),
        g[u as int][j] == (v, w),
        dist.len() == g.len(),
        pred.len() == g.len(),
        vis.len() == g.len(),
        vis[u as int],
        dist[u as int] == Some(d),
        dist[s as int] == Some(0u128),
        queue_sound(dist, q),
        queued(dist, vis, q, -1),
        relaxed(g, dist, vis, u as int, j),
        settled(g, s, dist, vis),
        witnessed(g, s, dist),
        preds_ok(g, s, dist, pred, vis, rank),
        bounded(dist, cnt),
        d + w <= cnt * max_weight(),
        d + w <= u128::MAX,
        dist[v as int] is None || d + w < dist[v as int]->0,
    ensures
        ({
            let cand = (d + w) as u128;
            let dist2 = dist.update(v as int, Some(cand));
            let pred2 = pred.update(v as int, Some(u));
            let q2 = q.insert((cand, v));
            &&& !vis[v as int]
            &&& dist2[u as int] == Some(d)
            &&& dist2[s as int] == Some(0u128)
            &&& queue_sound(dist2, q2)
            &&& queued(dist2, vis, q2, -1)
            &&& relaxed(g, dist2, vis, u as int, j)
            &&& settled(g, s, dist2, vis)
            &&& witnessed(g, s, dist2)
            &&& preds_ok(g, s, dist2, pred2, vis, rank)
            &&& bounded(dist2, cnt)
        }),
{
    let cand = (d + w) as u128;
    let dist2 = dist.update(v as int, Some(cand));
    let pred2 = pred.update(v as int, Some(u));
    let q2 = q.insert((cand, v));
    assert(has_edge(g, u, v, w));
    assert(v < g.len());
    let (nodes, ws) = choose|nodes: Seq<usize>, ws: Seq<u64>|
        walk_between(g, s, u, nodes, ws) && total(ws) == dist[u as int]->0;
    lemma_walk_extend(g, s, u, v, w, nodes, ws);
    if vis[v as int] {
        assert(walk_between(g, s, v, nodes.push(v), ws.push(w)));
        assert(dist[v as int]->0 <= total(ws.push(w)));
    }
    assert(v != s);
    assert(v != u);
    assert forall|e: (u128, usize)| #[trigger] q2.contains(e) implies {
        &&& e.1 < dist2.len()
        &&& dist2[e.1 as int] is Some
        &&& dist2[e.1 as int]->0 <= e.0
    } by {
        if e != (cand, v) {
            assert(q.contains(e));
        }
    }
    assert forall|x: int|
        0 <= x < dist2.len() && x != -1 && !vis[x] && (#[trigger] dist2[x]) is Some
        implies q2.contains((dist2[x]->0, x as usize)) by {
        if x != v {
            assert(q.contains((dist[x]->0, x as usize)));
        }
    }
    assert forall|v2: usize| v2 < dist2.len() && (#[trigger] dist2[v2 as int]) is Some
        implies exists|nodes: Seq<usize>, ws: Seq<u64>|
            walk_between(g, s, v2, nodes, ws) && total(ws) == dist2[v2 as int]->0 by {
        if v2 == v {
            assert(walk_between(g, s, v, nodes.push(v), ws.push(w)) && total(ws.push(w)) == dist2[v2 as int]->0);
        }
    }
    assert forall|v2: usize| v2 < pred2.len() implies {
        &&& ((#[trigger] pred2[v2 as int]) is Some <==> (v2 != s && dist2[v2 as int] is Some))
        &&& pred2[v2 as int] is Some ==> {
            let u2 = pred2[v2 as int]->0;
            &&& u2 < vis.len()
            &&& vis[u2 as int]
            &&& (vis[v2 as int] ==> rank[u2 as int] < rank[v2 as int])
            &&& exists|w2: u64|
                has_edge(g, u2, v2, w2) && dist2[v2 as int]->0 == dist2[u2 as int]->0 + w2
        }
    } by {
        if v2 == v {
            assert(has_edge(g, u, v, w) && dist2[v2 as int]->0 == dist2[u as int]->0 + w);
        } else if pred[v2 as int] is Some {
            let u2 = pred[v2 as int]->0;
            assert(u2 != v);
            let w2 = choose|w2: u64| has_edge(g, u2, v2, w2) && dist[v2 as int]->0 == dist[u2 as int]->0 + w2;
            assert(has_edge(g, u2, v2, w2) && dist2[v2 as int]->0 == dist2[u2 as int]->0 + w2);
        }
    }
    assert forall|x: int, i: int|
        0 <= x < g.len() && vis[x] && 0 <= i < g[x].len() && (x != u || i < j) implies {
            let e = #[trigger] g[x][i];
            &&& dist2[e.0 as int] is Some
            &&& dist2[e.0 as int]->0 <= dist2[x]->0 + e.1
        } by {
        assert(x != v);
    }
    assert forall|x: usize| x < vis.len() && #[trigger] vis[x as int] implies {
        &&& dist2[x as int] is Some
        &&& forall|nodes: Seq<usize>, ws: Seq<u64>|
            #[trigger] walk_between(g, s, x, nodes, ws) ==> dist2[x as int]->0 <= total(ws)
    } by {
        assert(x != v);
    }
}

/// A node reachable from the source is visited once every finite distance is.
proof fn lemma_reach_visited(
    g: Seq<Seq<(usize, u64)>>,
    s: usize,
    dist: Seq<Option<u128>>,
    vis: Seq<bool>,
    v: usize,
)
    requires
        well_formed(g),
        s < g.len(),
        dist.len() == g.len(),
        vis.len() == g.len(),
        dist[s as int] == Some(0u128),
        relaxed(g, dist, vis, -1, 0),
        forall|x: int| 0 <= x < g.len() && (#[trigger] dist[x]) is Some ==> vis[x],
        reachable(g, s, v),
    ensures
        v < g.len(),
        vis[v as int],
{
    let (nodes, ws) = choose|nodes: Seq<usize>, ws: Seq<u64>| walk_between(g, s, v, nodes, ws);
    lemma_walk_in_graph(g, nodes, ws);
    if !vis[v as int] {
        let j = lemma_first_unvisited(vis, nodes, nodes.len() - 1);
        lemma_prefix_bound(g, s, dist, vis, nodes, ws, j);
    }
}

/// With the queue empty, the working sequences are the result.
proof fn lemma_finished(
    g: Seq<Seq<(usize, u64)>>,
    r: DijkstraResult,
    vis: Seq<bool>,
    q: Multiset<(u128, usize)>,
    rank: Seq<nat>,
)
    requires
        well_formed(g),
        r.source < g.len(),
        r.distances@.len() == g.len(),
        r.predecessors@.len() == g.len(),
        vis.len() == g.len(),
        q.len() == 0,
        r.distances@[r.source as int] == Some(0u128),
        queued(r.distances@, vis, q, -1),
        relaxed(g, r.distances@, vis, -1, 0),
        settled(g, r.source, r.distances@, vis),
        witnessed(g, r.source, r.distances@),
        preds_ok(g, r.source, r.distances@, r.predecessors@, vis, rank),
        rank.len() == vis.len(),
    ensures
        r.solves(g, r.source),
{
    let s = r.source;
    let dist = r.distances@;
    let n = g.len();
    assert forall|v: int| 0 <= v < n && (#[trigger] dist[v]) is Some implies vis[v] by {
        if !vis[v] {
            assert(q =~= Multiset::empty());
            assert(!q.contains((dist[v]->0, v as usize)));
        }
    }
    assert forall|v: usize| (#[trigger] r.dist_of(v)) is Some <==> reachable(g, s, v) by {
        if reachable(g, s, v) {
            lemma_reach_visited(g, s, dist, vis, v);
        }
        if v < n && dist[v as int] is Some {
            let (nodes, ws) = choose|nodes: Seq<usize>, ws: Seq<u64>|
                walk_between(g, s, v, nodes, ws) && total(ws) == dist[v as int]->0;
        }
    }
    assert forall|v: usize| (#[trigger] r.pred_of(v)) is None <==> (v == s || !reachable(g, s, v)) by {
        if reachable(g, s, v) {
            lemma_reach_visited(g, s, dist, vis, v);
        }
    }
    assert forall|v: usize| #[trigger] r.dist_of(v) is Some implies is_shortest(g, s, v, r.dist_of(v)->0) by {
        assert(v < n);
        assert(vis[v as int]);
    }
    assert forall|v: usize| #[trigger] r.pred_of(v) is Some implies {
        let u = r.pred_of(v)->0;
        &&& r.dist_of(u) is Some
        &&& exists|w: u64| has_edge(g, u, v, w) && r.dist_of(v)->0 == r.dist_of(u)->0 + w
    } by {
        let u = r.pred_of(v)->0;
        assert(vis[u as int]);
        let w = choose|w: u64| has_edge(g, u, v, w) && dist[v as int]->0 == dist[u as int]->0 + w;
        assert(has_edge(g, u, v, w) && r.dist_of(v)->0 == r.dist_of(u)->0 + w);
    }
    assert(r.ranked_by(rank));
}

/// From a source outside the graph only the source itself is reached.
proof fn lemma_source_outside(g: Seq<Seq<(usize, u64)>>, r: DijkstraResult)
    requires
        r.source >= g.len(),
        r.distances@.len() == g.len(),
        r.predecessors@.len() == g.len(),
        forall|v: int| 0 <= v < g.len() ==> r.distances@[v] is None && r.predecessors@[v] is None,
    ensures
        r.solves(g, r.source),
{
    let s = r.source;
    let one = seq![s];
    let none = Seq::<u64>::empty();
    assert(walk_between(g, s, s, one, none));
    assert forall|v: usize| reachable(g, s, v) implies v == s by {
        let (nodes, ws) = choose|nodes: Seq<usize>, ws: Seq<u64>| walk_between(g, s, v, nodes, ws);
        lemma_walk_outside(g, s, v, nodes, ws);
    }
    assert forall|nodes: Seq<usize>, ws: Seq<u64>|
        #[trigger] walk_between(g, s, s, nodes, ws) implies 0 <= total(ws) by {
        lemma_total_nonneg(ws);
    }
    assert(total(none) == 0);
    assert(is_shortest(g, s, s, 0));
    assert(r.ranked_by(Seq::new(g.len(), |i: int| 0nat)));
}

/// Runs Dijkstra's algorithm on `graph` from `source`.
pub fn dijkstra(graph: &Graph, source: usize) -> (r: DijkstraResult)
    requires
        well_formed(graph@),
    ensures
        r.solves(graph@, source),
{
    let ghost g = graph@;
    let n = graph.adj.len();
    let mut distances: Vec<Option<u128>> = Vec::new();
    let mut predecessors: Vec<Option<usize>> = Vec::new();
    let mut visited: Vec<bool> = Vec::new();
    let mut k: usize = 0;
    while k < n
        invariant
            k <= n,
            distances@.len() == k,
            predecessors@.len() == k,
            visited@.len() == k,
            forall|v: int| 0 <= v < k ==> (#[trigger] distances@[v]) is None,
            forall|v: int| 0 <= v < k ==> (#[trigger] predecessors@[v]) is None,
            forall|v: int| 0 <= v < k ==> !(#[trigger] visited@[v]),
        decreases n - k,
    {
        distances.push(None);
        predecessors.push(None);
        visited.push(false);
        k = k + 1;
    }
    if source >= n {
        proof {
        }
        let r = DijkstraResult { source, distances, predecessors };
        proof {
            lemma_source_outside(g, r);
        }
        return r;
    }
    distances.set(source, Some(0));
    let mut queue = MinQueue::new();
    queue.push(0, source);
    let ghost mut rank: Seq<nat> = Seq::new(n as nat, |i: int| 0nat);
    let ghost mut cnt: nat = 0;
    proof {
        assert(visited_set(visited@) =~= Set::<int>::empty());
        assert(queue@.contains((0u128, source)));
        assert(walk_between(g, source, source, seq![source], Seq::<u64>::empty()));
        assert(total(Seq::<u64>::empty()) == 0);
    }
    while !queue.is_empty()
        invariant
            g == graph@,
            well_formed(g),
            n == g.len(),
            source < n,
            distances@.len() == n,
            predecessors@.len() == n,
            visited@.len() == n,
            distances@[source as int] == Some(0u128),
            queue.wf(),
            queue_sound(distances@, queue@),
            queued(distances@, visited@, queue@, -1),
            relaxed(g, distances@, visited@, -1, 0),
            settled(g, source, distances@, visited@),
            witnessed(g, source, distances@),
            preds_ok(g, source, distances@, predecessors@, visited@, rank),
            bounded(distances@, cnt),
            counted(visited@, rank, cnt),
            cnt <= n,
        decreases n - cnt, queue@.len(),
    {
        let ghost q0 = queue@;
        let popped = queue.pop_min();
        let (d, u) = popped.unwrap();
        proof {
            assert forall|v: int|
                0 <= v < distances@.len() && v != u && !visited@[v] && (#[trigger] distances@[v]) is Some
                implies queue@.contains((distances@[v]->0, v as usize)) by {
                assert(q0.contains((distances@[v]->0, v as usize)));
            }
            assert forall|e: (u128, usize)| #[trigger] queue@.contains(e) implies {
                &&& e.1 < distances@.len()
                &&& distances@[e.1 as int] is Some
                &&& distances@[e.1 as int]->0 <= e.0
            } by {
                assert(q0.contains(e));
            }
        }
        if visited[u] {
            continue;
        }
        let du = distances[u].unwrap();
        if d > du {
            continue;
        }
        proof {
            assert(q0.contains((du, u)));
            lemma_popped_optimal(g, source, distances@, visited@, q0, d, u);
            lemma_visit(visited@, u as int);
        }
        let ghost vis0 = visited@;
        let ghost rank0 = rank;
        visited.set(u, true);
        proof {
            rank = rank.update(u as int, cnt);
            cnt = cnt + 1;
            assert(visited@ == vis0.update(u as int, true));
            assert forall|x: int| 0 <= x < n && #[trigger] visited@[x] implies rank[x] < cnt by {
                if x != u {
                    assert(vis0[x]);
                }
            }
            assert forall|v: int| 0 <= v < n && #[trigger] distances@[v] is Some implies distances@[v]->0 <= cnt * max_weight() by {
                assert((cnt - 1) * max_weight() <= cnt * max_weight()) by (nonlinear_arith)
                    requires max_weight() >= 0;
            }
        }
        let edges = &graph.adj[u];
        assert(edges@ == g[u as int]);
        let mut j: usize = 0;
        while j < edges.len()
            invariant
                g == graph@,
                well_formed(g),
                n == g.len(),
                source < n,
                u < n,
                edges@ == g[u as int],
                j <= edges@.len(),
                distances@.len() == n,
                predecessors@.len() == n,
                visited@.len() == n,
                visited@[u as int],
                distances@[u as int] == Some(d),
                distances@[source as int] == Some(0u128),
                queue.wf(),
                queue_sound(distances@, queue@),
                queued(distances@, visited@, queue@, -1),
                relaxed(g, distances@, visited@, u as int, j as int),
                settled(g, source, distances@, visited@),
                witnessed(g, source, distances@),
                preds_ok(g, source, distances@, predecessors@, visited@, rank),
                bounded(distances@, cnt),
                counted(visited@, rank, cnt),
                1 <= cnt <= n,
                d <= (cnt - 1) * max_weight(),
            decreases edges@.len() - j,
        {
            let (v, w) = edges[j];
            proof {
                assert(g[u as int][j as int] == (v, w));
                assert(v < n);
                assert((cnt - 1) * max_weight() + max_weight() <= (n as int) * max_weight()) by (nonlinear_arith)
                    requires cnt <= n, max_weight() >= 0;
                assert((n as int) * max_weight() <= max_weight() * max_weight()) by (nonlinear_arith)
                    requires n <= max_weight(), max_weight() >= 0;
                assert(max_weight() * max_weight() < u128::MAX);
            }
            let cand: u128 = d + w as u128;
            let better = match distances[v] {
                None => true,
                Some(dv) => cand < dv,
            };
            if better {
                proof {
                    lemma_relax_update(g, source, distances@, predecessors@, visited@, queue@, rank, cnt, u, d, j as int, v, w);
                }
                distances.set(v, Some(cand));
                predecessors.set(v, Some(u));
                queue.push(cand, v);
            }
            proof {
                assert forall|x: int, i: int|
                    0 <= x < g.len() && visited@[x] && 0 <= i < g[x].len() && (x != u || i < j + 1) implies {
                        let e = #[trigger] g[x][i];
                        &&& distances@[e.0 as int] is Some
                        &&& distances@[e.0 as int]->0 <= distances@[x]->0 + e.1
                    } by {
                    if x == u && i == j {
                        assert(g[x][i] == (v, w));
                    }
                }
            }
            j = j + 1;
        }
        proof {
            assert(relaxed(g, distances@, visited@, -1, 0));
        }
    }
    let r = DijkstraResult { source, distances, predecessors };
    proof {
        lemma_finished(g, r, visited@, queue@, rank);
    }
    r
}

/// The distance recorded for the source is zero, and the source has no predecessor.
pub proof fn lemma_source_distance_zero(g: Seq<Seq<(usize, u64)>>, s: usize, r: DijkstraResult)
    requires
        r.solves(g, s),
    ensures
        r.dist_of(s) == Some(0int),
        r.pred_of(s) is None,
{
    let one = seq![s];
    let none = Seq::<u64>::empty();
    assert(walk_between(g, s, s, one, none));
    assert(total(none) == 0);
    assert(r.dist_of(s) is Some);
    let (nodes, ws) = choose|nodes: Seq<usize>, ws: Seq<u64>|
        walk_between(g, s, s, nodes, ws) && total(ws) == r.dist_of(s)->0;
    lemma_total_nonneg(ws);
    assert(r.dist_of(s)->0 <= total(none));
}

/// A node that no walk from the source reaches has an infinite distance and no predecessor.
pub proof fn lemma_unreachable_unrecorded(g: Seq<Seq<(usize, u64)>>, s: usize, r: DijkstraResult, v: usize)
    requires
        r.solves(g, s),
        !reachable(g, s, v),
    ensures
        r.dist_of(v) is None,
        r.pred_of(v) is None,
        v < r.distances@.len() ==> r.distances@[v as int] is None,
{
    assert(r.dist_of(v) is None);
    assert(r.pred_of(v) is None);
}

/// Two runs from one source over one graph record the same distances.
pub proof fn lemma_runs_agree(g: Seq<Seq<(usize, u64)>>, s: usize, r1: DijkstraResult, r2: DijkstraResult)
    requires
        r1.solves(g, s),
        r2.solves(g, s),
    ensures
        forall|v: usize| r1.dist_of(v) == r2.dist_of(v),
        r1.distances@.len() == r2.distances@.len(),
        forall|v: usize| v < r1.distances@.len() ==> r1.distances@[v as int] == r2.distances@[v as int],
{
    assert forall|v: usize| r1.dist_of(v) == r2.dist_of(v) by {
        if r1.dist_of(v) is Some {
            assert(r2.dist_of(v) is Some);
            let c1 = r1.dist_of(v)->0;
            let c2 = r2.dist_of(v)->0;
            let (n1, w1) = choose|nodes: Seq<usize>, ws: Seq<u64>| walk_between(g, s, v, nodes, ws) && total(ws) == c1;
            let (n2, w2) = choose|nodes: Seq<usize>, ws: Seq<u64>| walk_between(g, s, v, nodes, ws) && total(ws) == c2;
            assert(c2 <= total(w1));
            assert(c1 <= total(w2));
        } else {
            assert(r2.dist_of(v) is None);
        }
    }
    assert forall|v: usize| v < r1.distances@.len() implies r1.distances@[v as int] == r2.distances@[v as int] by {
        assert(r1.dist_of(v) == r2.dist_of(v));
        if r1.distances@[v as int] is Some {
            assert(r2.distances@[v as int] is Some);
        } else {
            assert(r2.distances@[v as int] is None);
        }
    }
}

/// Walks the predecessors back from `target` and returns the path from the source
/// to `target` with its total weight, or `NoPathExists` when `target` was not reached.
pub fn reconstruct_path(graph: &Graph, result: &DijkstraResult, target: usize) -> (r: Result<PathResult, PathError>)
    requires
        result.solves(graph@, result.source),
    ensures
        r is Ok <==> result.dist_of(target) is Some,
        r matches Ok(p) ==> p.distance == result.dist_of(target)->0 && path_of_weight(
            graph@,
            result.source,
            target,
            p.path@,
            p.distance as int,
        ),
        r matches Err(e) ==> e == (PathError::NoPathExists { source: result.source, target }),
{
    let ghost g = graph@;
    let ghost s = result.source;
    let n = result.distances.len();
    let dt: u128;
    if target < n {
        match result.distances[target] {
            Some(d) => {
                dt = d;
            },
            None => {
                return Err(PathError::NoPathExists { source: result.source, target });
            },
        }
    } else if target == result.source {
        dt = 0;
    } else {
        return Err(PathError::NoPathExists { source: result.source, target });
    }
    let ghost rank = choose|rank: Seq<nat>| result.ranked_by(rank);
    let mut rev: Vec<usize> = Vec::new();
    rev.push(target);
    let mut cur = target;
    let ghost mut fwd: Seq<usize> = seq![target];
    let ghost mut ws: Seq<u64> = Seq::empty();
    proof {
        assert(walk_between(g, target, target, fwd, ws));
        assert(total(ws) == 0);
    }
    while cur < n && result.predecessors[cur].is_some()
        invariant
            g == graph@,
            result.solves(g, s),
            result.distances@.len() == n,
            result.dist_of(target) == Some(dt as int),
            result.dist_of(cur) is Some,
            result.ranked_by(rank),
            walk_between(g, cur, target, fwd, ws),
            total(ws) == dt - result.dist_of(cur)->0,
            rev@.len() == fwd.len(),
            forall|i: int| 0 <= i < fwd.len() ==> #[trigger] rev@[i] == fwd[fwd.len() - 1 - i],
        decreases if cur < n { rank[cur as int] } else { 0 },
    {
        let u = result.predecessors[cur].unwrap();
        let ghost rev0 = rev@;
        let ghost fwd0 = fwd;
        proof {
            assert(result.pred_of(cur) == Some(u));
            let w = choose|w: u64| has_edge(g, u, cur, w) && result.dist_of(cur)->0 == result.dist_of(u)->0 + w;
            lemma_walk_prepend(g, u, cur, target, w, fwd, ws);
            fwd = seq![u] + fwd;
            ws = seq![w] + ws;
            assert(u < n);
            assert(rank[u as int] < rank[cur as int]);
        }
        rev.push(u);
        proof {
            assert forall|i: int| 0 <= i < fwd.len() implies #[trigger] rev@[i] == fwd[fwd.len() - 1 - i] by {
                if i < fwd.len() - 1 {
                    assert(rev@[i] == rev0[i]);
                    assert(fwd[fwd.len() - 1 - i] == fwd0[fwd0.len() - 1 - i]);
                }
            }
        }
        cur = u;
    }
    proof {
        assert(result.pred_of(cur) is None);
        assert(cur == s);
        lemma_source_distance_zero(g, s, *result);
    }
    let len = rev.len();
    let mut path: Vec<usize> = Vec::new();
    let mut i: usize = 0;
    while i < len
        invariant
            len == rev@.len(),
            rev@.len() == fwd.len(),
            forall|k: int| 0 <= k < fwd.len() ==> #[trigger] rev@[k] == fwd[fwd.len() - 1 - k],
            i <= len,
            path@ == fwd.take(i as int),
        decreases len - i,
    {
        path.push(rev[len - 1 - i]);
        proof {
            assert(rev@[len - 1 - i] == fwd[i as int]);
            assert(path@ =~= fwd.take(i + 1));
        }
        i = i + 1;
    }
    proof {
        assert(path@ =~= fwd);
    }
    Ok(PathResult { distance: dt, path })
}

/// Shortest path from `start` to `end`: its total weight and its nodes, or
/// `NoPathExists` when no walk leads from `start` to `end`.
pub fn dijkstra_path(graph: &Graph, start: usize, end: usize) -> (r: Result<PathResult, PathError>)
    requires
        well_formed(graph@),
    ensures
        r is Ok <==> reachable(graph@, start, end),
        r matches Ok(p) ==> is_shortest(graph@, start, end, p.distance as int) && path_of_weight(
            graph@,
            start,
            end,
            p.path@,
            p.distance as int,
        ),
        r matches Err(e) ==> e == (PathError::NoPathExists { source: start, target: end }),
{
    let result = dijkstra(graph, start);
    reconstruct_path(graph, &result, end)
}

impl DijkstraResult {
    /// Distance of `v` from the source, `None` when `v` was not reached.
    pub fn distance(&self, v: usize) -> (r: Option<u128>)
        ensures
            r matches Some(d) ==> self.dist_of(v) == Some(d as int),
            r is None ==> self.dist_of(v) is None,
    {
        if v < self.distances.len() {
            self.distances[v]
        } else if v == self.source {
            Some(0)
        } else {
            None
        }
    }

    /// Node before `v` on its shortest path, `None` for the source and unreached nodes.
    pub fn predecessor(&self, v: usize) -> (r: Option<usize>)
        ensures
            r == self.pred_of(v),
    {
        if v < self.predecessors.len() {
            self.predecessors[v]
        } else {
            None
        }
    }
}

} // verus!
