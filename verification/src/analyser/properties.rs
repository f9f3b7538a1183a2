//! What holds of every search: predecessors are settled before their
//! successors, the outcome is unique, and in the graphs where no node lies
//! between two others only the source ever precedes a node.

use crate::analyser::paths::{
    paths_upto,
    hop, is_search, lemma_tight_finite, lemma_upto_prefix, preds_upto, same_prefix, settled_right, tight,
    weights_valid, SearchView, Trail,
};
use crate::store::joins;
use vstd::prelude::*;

verus! {

/// Every predecessor up to `k` is one of the first `k` settled nodes, and an
/// edge from it arrives at the given distance.
pub proof fn lemma_pred_is_settled(
    edges: Seq<(usize, usize, i64)>,
    trail: Trail,
    k: int,
    w: usize,
    t: int,
    i: int,
) -> (found: (int, int))
    requires
        trail.wf(),
        0 <= k <= trail.len(),
        0 <= i < preds_upto(edges, trail, k, w, t).len(),
    ensures
        0 <= found.0 < k,
        trail.nodes[found.0] == preds_upto(edges, trail, k, w, t)[i],
        hop(edges, trail, found.1, found.0, w, t),
    decreases k,
{
    let before = preds_upto(edges, trail, k - 1, w, t);
    if i < before.len() {
        lemma_pred_is_settled(edges, trail, k - 1, w, t, i)
    } else {
        let u = trail.nodes[k - 1];
        let arriving = tight(edges, u, w, t - trail.dist[k - 1]);
        lemma_tight_finite(edges, u, w, t - trail.dist[k - 1]);
        assert(arriving.len() > 0);
        let e = arriving.choose();
        assert(arriving.contains(e)) by {
            broadcast use vstd::set::group_set_axioms;

        }
        (k - 1, e)
    }
}

/// In a search, every predecessor of a node is settled before the node.
pub proof fn law_predecessors_come_first(
    edges: Seq<(usize, usize, i64)>,
    n: nat,
    s: usize,
    view: SearchView,
    p: int,
    i: int,
) -> (j: int)
    requires
        is_search(edges, n, s, view),
        0 <= p < view.stack.len(),
        0 <= i < view.pred[view.stack[p] as int].len(),
    ensures
        0 <= j < p,
        view.stack[j] == view.pred[view.stack[p] as int][i],
{
    let trail = view.trail();
    if p == 0 {
        0
    } else {
        assert(settled_right(edges, trail, p));
        let found = lemma_pred_is_settled(edges, trail, p, view.stack[p], trail.dist[p], i);
        found.0
    }
}

/// Along the stack of a search over valid weights, no distance is negative.
pub proof fn lemma_distances_nonneg(edges: Seq<(usize, usize, i64)>, n: nat, s: usize, view: SearchView, p: int)
    requires
        weights_valid(edges),
        is_search(edges, n, s, view),
        0 <= p < view.stack.len(),
    ensures
        view.trail().dist[p] >= 0,
    decreases p,
{
    let trail = view.trail();
    if p > 0 {
        assert(settled_right(edges, trail, p));
        let (e, j) = choose|e: int, j: int| j < p && #[trigger] hop(edges, trail, e, j, trail.nodes[p], trail.dist[p]);
        lemma_distances_nonneg(edges, n, s, view, j);
    }
}

/// No node but the source precedes any node: no shortest path passes
/// through a third node, so no node lies between two others.
pub open spec fn only_source_precedes(view: SearchView) -> bool {
    forall|w: usize, i: int|
        w < view.pred.len() && 0 <= i < view.pred[w as int].len() ==> (#[trigger] view.pred[w as int][i])
            == view.start
}

/// Some edge connects `a` and `b`.
pub open spec fn adjacent(edges: Seq<(usize, usize, i64)>, a: usize, b: usize) -> bool {
    exists|e: int| 0 <= e < edges.len() && #[trigger] joins(edges[e], a, b)
}

/// The graph connects every two of its `n` nodes, and every edge has the
/// same weight `c`.
pub open spec fn complete_and_uniform(edges: Seq<(usize, usize, i64)>, n: nat, c: int) -> bool {
    &&& forall|e: int| 0 <= e < edges.len() ==> (#[trigger] edges[e]).2 == c
    &&& forall|a: usize, b: usize| a < n && b < n && a != b ==> #[trigger] adjacent(edges, a, b)
}

/// In a graph of at most two nodes, only the source precedes a node,
/// whatever the weights.
pub proof fn law_two_nodes_no_between(edges: Seq<(usize, usize, i64)>, n: nat, s: usize, view: SearchView)
    requires
        n <= 2,
        is_search(edges, n, s, view),
    ensures
        only_source_precedes(view),
{
    assert forall|node: usize, i: int| node < view.pred.len() && 0 <= i < view.pred[node as int].len() implies (
    #[trigger] view.pred[node as int][i]) == view.start by {
        if view.stack.contains(node) {
            let p = choose|p: int| 0 <= p < view.stack.len() && view.stack[p] == node;
            let j = law_predecessors_come_first(edges, n, s, view, p, i);
            if j != 0 {
                // three different nodes below two
                assert(view.stack[0] != view.stack[j] && view.stack[j] != view.stack[p] && view.stack[0]
                    != view.stack[p]);
                assert(view.stack[0] < n && view.stack[j] < n && view.stack[p] < n);
            }
        } else {
            assert(view.sigma[node as int] == 0);
            assert(view.pred[node as int] == Seq::<usize>::empty());
        }
    }
}

/// In a complete graph whose edges all have the same positive weight, every
/// node is at that distance from the source, and only the source precedes a
/// node.
pub proof fn law_complete_no_between(edges: Seq<(usize, usize, i64)>, n: nat, s: usize, c: int, view: SearchView)
    requires
        c > 0,
        complete_and_uniform(edges, n, c),
        is_search(edges, n, s, view),
    ensures
        only_source_precedes(view),
        forall|w: usize| w < n && w != s ==> (#[trigger] view.dist[w as int]) == Some(c),
{
    let trail = view.trail();
    assert(weights_valid(edges));
    assert forall|p: int| 1 <= p < view.stack.len() implies #[trigger] trail.dist[p] == c by {
        let w = trail.nodes[p];
        assert(settled_right(edges, trail, p));
        let (e, j) = choose|e: int, j: int| j < p && #[trigger] hop(edges, trail, e, j, w, trail.dist[p]);
        lemma_distances_nonneg(edges, n, s, view, j);
        assert(w != s);
        assert(adjacent(edges, s, w));
        let direct = choose|direct: int| 0 <= direct < edges.len() && #[trigger] joins(edges[direct], s, w);
        assert(joins(edges[direct], trail.nodes[0], w));
        if trail.settled_before(p, w) {
            let q = choose|q: int| 0 <= q < p && q < trail.nodes.len() && #[trigger] trail.nodes[q] == w;
            assert(view.stack[q] == view.stack[p]);
        }
    }
    assert forall|w: usize| w < n && w != s implies (#[trigger] view.dist[w as int]) == Some(c) by {
        assert(adjacent(edges, s, w));
        let direct = choose|direct: int| 0 <= direct < edges.len() && #[trigger] joins(edges[direct], s, w);
        assert(joins(edges[direct], view.stack[0], w));
        assert(view.stack.contains(w));
        let p = choose|p: int| 0 <= p < view.stack.len() && view.stack[p] == w;
        assert(trail.dist[p] == c);
    }
    assert forall|node: usize, i: int| node < view.pred.len() && 0 <= i < view.pred[node as int].len() implies (
    #[trigger] view.pred[node as int][i]) == view.start by {
        if view.stack.contains(node) {
            let p = choose|p: int| 0 <= p < view.stack.len() && view.stack[p] == node;
            if p > 0 {
                assert(settled_right(edges, trail, p));
                let found = lemma_pred_is_settled(edges, trail, p, node, trail.dist[p], i);
                if found.0 > 0 {
                    assert(trail.dist[found.0] == c);
                }
            }
        } else {
            assert(view.sigma[node as int] == 0);
            assert(view.pred[node as int] == Seq::<usize>::empty());
        }
    }
}

/// Two outcomes of one search agree on their first `k` settled nodes.
proof fn lemma_same_trail(edges: Seq<(usize, usize, i64)>, n: nat, s: usize, a: SearchView, b: SearchView, k: int)
    requires
        is_search(edges, n, s, a),
        is_search(edges, n, s, b),
        0 <= k <= a.stack.len(),
        k <= b.stack.len(),
    ensures
        same_prefix(a.trail(), b.trail(), k),
    decreases k,
{
    let ta = a.trail();
    let tb = b.trail();
    if k >= 1 {
        lemma_same_trail(edges, n, s, a, b, k - 1);
        let p = k - 1;
        if p >= 1 {
            let wa = ta.nodes[p];
            let da = ta.dist[p];
            let wb = tb.nodes[p];
            let db = tb.dist[p];
            assert(settled_right(edges, ta, p));
            assert(settled_right(edges, tb, p));
            // what b settles is a candidate for a
            let (eb, jb) = choose|e: int, j: int| j < p && #[trigger] hop(edges, tb, e, j, wb, db);
            assert(joins(edges[eb], ta.nodes[jb], wb));
            if ta.settled_before(p, wb) {
                let q = choose|q: int| 0 <= q < p && q < ta.nodes.len() && #[trigger] ta.nodes[q] == wb;
                assert(b.stack[q] == b.stack[p]);
            }
            assert(da < db || (da == db && wa <= wb));
            // and the other way round
            let (ea, ja) = choose|e: int, j: int| j < p && #[trigger] hop(edges, ta, e, j, wa, da);
            assert(joins(edges[ea], tb.nodes[ja], wa));
            if tb.settled_before(p, wa) {
                let q = choose|q: int| 0 <= q < p && q < tb.nodes.len() && #[trigger] tb.nodes[q] == wa;
                assert(a.stack[q] == a.stack[p]);
            }
            assert(db < da || (db == da && wb <= wa));
            lemma_upto_prefix(edges, ta, tb, p, wa, da);
        }
    }
}

/// Two outcomes of one search have settled equally many nodes.
proof fn lemma_same_length(edges: Seq<(usize, usize, i64)>, n: nat, s: usize, a: SearchView, b: SearchView)
    requires
        is_search(edges, n, s, a),
        is_search(edges, n, s, b),
    ensures
        a.stack.len() <= b.stack.len(),
{
    let len = b.stack.len() as int;
    if a.stack.len() > len {
        lemma_same_trail(edges, n, s, a, b, len);
        let ta = a.trail();
        let w = ta.nodes[len];
        assert(settled_right(edges, ta, len));
        let (e, j) = choose|e: int, j: int| j < len && #[trigger] hop(edges, ta, e, j, w, ta.dist[len]);
        assert(joins(edges[e], b.stack[j], w));
        assert(b.stack.contains(w));
        let q = choose|q: int| 0 <= q < b.stack.len() && b.stack[q] == w;
        assert(a.stack[q] == a.stack[len]);
    }
}

/// A search has one outcome: the relation `is_search` holds of one view only.
pub proof fn law_search_unique(edges: Seq<(usize, usize, i64)>, n: nat, s: usize, a: SearchView, b: SearchView)
    requires
        n <= usize::MAX,
        is_search(edges, n, s, a),
        is_search(edges, n, s, b),
    ensures
        a == b,
{
    lemma_same_length(edges, n, s, a, b);
    lemma_same_length(edges, n, s, b, a);
    let len = a.stack.len() as int;
    lemma_same_trail(edges, n, s, a, b, len);
    let ta = a.trail();
    let tb = b.trail();
    assert(a.stack =~= b.stack);
    assert forall|x: int| 0 <= x < n implies a.dist[x] == b.dist[x] && a.sigma[x] == b.sigma[x] && a.pred[x]
        == b.pred[x] by {
        let node = x as usize;
        assert(a.dist[node as int] is Some <==> a.stack.contains(node));
        assert(b.dist[node as int] is Some <==> b.stack.contains(node));
        if a.stack.contains(node) {
            let p = choose|p: int| 0 <= p < a.stack.len() && a.stack[p] == node;
            assert(ta.dist[p] == tb.dist[p] && ta.sigma[p] == tb.sigma[p]);
            if p >= 1 {
                assert(settled_right(edges, ta, p));
                assert(settled_right(edges, tb, p));
                lemma_upto_prefix(edges, ta, tb, p, node, ta.dist[p]);
            } else {
                assert(node == s);
            }
        } else {
            assert(a.sigma[node as int] == 0);
            assert(b.sigma[node as int] == 0);
        }
    }
    assert(a.dist =~= b.dist);
    assert(a.sigma =~= b.sigma);
    assert(a.pred =~= b.pred);
}

/// A walk through the graph: `nodes` are the nodes it visits, `hops` the
/// edges it takes from each to the next.
pub open spec fn is_walk(edges: Seq<(usize, usize, i64)>, nodes: Seq<usize>, hops: Seq<int>) -> bool {
    &&& nodes.len() == hops.len() + 1
    &&& forall|i: int|
        0 <= i < hops.len() ==> 0 <= #[trigger] hops[i] < edges.len() && joins(edges[hops[i]], nodes[i], nodes[i + 1])
}

/// The length of a walk: the sum of the weights of its edges.
pub open spec fn walk_length(edges: Seq<(usize, usize, i64)>, hops: Seq<int>) -> int
    decreases hops.len(),
{
    if hops.len() == 0 {
        0
    } else {
        walk_length(edges, hops.drop_last()) + edges[hops.last()].2
    }
}

/// Distances do not decrease along the stack of a search.
pub proof fn lemma_stack_is_sorted(edges: Seq<(usize, usize, i64)>, n: nat, s: usize, view: SearchView, r: int, q: int)
    requires
        is_search(edges, n, s, view),
        0 <= r <= q < view.stack.len(),
    ensures
        view.trail().dist[r] <= view.trail().dist[q],
    decreases q - r,
{
    if r < q {
        lemma_stack_is_sorted(edges, n, s, view, r, q - 1);
        assert(settled_right(edges, view.trail(), q));
    }
}

/// The distance that a search gives a node is the length of a walk from the
/// source to the node.
pub proof fn law_distance_is_walked(edges: Seq<(usize, usize, i64)>, n: nat, s: usize, view: SearchView, p: int) -> (walk:
    (Seq<usize>, Seq<int>))
    requires
        is_search(edges, n, s, view),
        0 <= p < view.stack.len(),
    ensures
        is_walk(edges, walk.0, walk.1),
        walk.0[0] == s,
        walk.0.last() == view.stack[p],
        walk_length(edges, walk.1) == view.trail().dist[p],
    decreases p,
{
    let trail = view.trail();
    if p == 0 {
        (seq![s], Seq::<int>::empty())
    } else {
        assert(settled_right(edges, trail, p));
        let (e, j) = choose|e: int, j: int| j < p && #[trigger] hop(edges, trail, e, j, trail.nodes[p], trail.dist[p]);
        let before = law_distance_is_walked(edges, n, s, view, j);
        let nodes = before.0.push(view.stack[p]);
        let hops = before.1.push(e);
        assert(hops.drop_last() =~= before.1);
        assert forall|i: int| 0 <= i < hops.len() implies 0 <= #[trigger] hops[i] < edges.len() && joins(
            edges[hops[i]],
            nodes[i],
            nodes[i + 1],
        ) by {
            if i < before.1.len() {
                assert(hops[i] == before.1[i]);
            }
        }
        (nodes, hops)
    }
}

/// No walk from the source to a node is shorter than the distance that a
/// search gives the node, and the search reaches every node that a walk
/// reaches: with no negative weight, the distances of a search are the
/// shortest distances.
pub proof fn law_distance_is_shortest(
    edges: Seq<(usize, usize, i64)>,
    n: nat,
    s: usize,
    view: SearchView,
    nodes: Seq<usize>,
    hops: Seq<int>,
) -> (p: int)
    requires
        weights_valid(edges),
        is_search(edges, n, s, view),
        is_walk(edges, nodes, hops),
        nodes[0] == s,
    ensures
        0 <= p < view.stack.len(),
        view.stack[p] == nodes.last(),
        view.trail().dist[p] <= walk_length(edges, hops),
    decreases hops.len(),
{
    let trail = view.trail();
    if hops.len() == 0 {
        0
    } else {
        let shorter = hops.drop_last();
        let visited = nodes.drop_last();
        assert(is_walk(edges, visited, shorter)) by {
            assert forall|i: int| 0 <= i < shorter.len() implies 0 <= #[trigger] shorter[i] < edges.len() && joins(
                edges[shorter[i]],
                visited[i],
                visited[i + 1],
            ) by {
                assert(shorter[i] == hops[i]);
            }
        }
        let q = law_distance_is_shortest(edges, n, s, view, visited, shorter);
        let last = hops.len() - 1;
        let e = hops[last];
        let w = nodes.last();
        assert(joins(edges[e], nodes[last], nodes[last + 1]));
        assert(joins(edges[e], view.stack[q], w));
        assert(view.stack.contains(w));
        let r = choose|r: int| 0 <= r < view.stack.len() && view.stack[r] == w;
        assert(edges[e].2 >= 0);
        if r > q {
            assert(settled_right(edges, trail, r));
            if trail.settled_before(r, w) {
                let t = choose|t: int| 0 <= t < r && t < trail.nodes.len() && #[trigger] trail.nodes[t] == w;
                assert(view.stack[t] == view.stack[r]);
            }
            assert(joins(edges[e], trail.nodes[q], w));
        } else {
            lemma_stack_is_sorted(edges, n, s, view, r, q);
        }
        r
    }
}

/// A settled node from which an edge arrives at distance `t` is among the
/// predecessors for that distance.
proof fn lemma_tight_is_pred(edges: Seq<(usize, usize, i64)>, trail: Trail, k: int, w: usize, t: int, e: int, j: int) -> (i:
    int)
    requires
        trail.wf(),
        0 <= j < k <= trail.len(),
        hop(edges, trail, e, j, w, t),
    ensures
        0 <= i < preds_upto(edges, trail, k, w, t).len(),
        preds_upto(edges, trail, k, w, t)[i] == trail.nodes[j],
    decreases k,
{
    let before = preds_upto(edges, trail, k - 1, w, t);
    if j < k - 1 {
        lemma_tight_is_pred(edges, trail, k - 1, w, t, e, j)
    } else {
        let u = trail.nodes[k - 1];
        let arriving = tight(edges, u, w, t - trail.dist[k - 1]);
        lemma_tight_finite(edges, u, w, t - trail.dist[k - 1]);
        assert(arriving.contains(e));
        assert(arriving.len() > 0) by {
            broadcast use vstd::set::group_set_axioms;

        }
        before.len() as int
    }
}

/// Whether an edge from `u` arrives at the `p`-th settled node at exactly
/// its distance, `u` being settled before it.
pub open spec fn precedes(edges: Seq<(usize, usize, i64)>, view: SearchView, u: usize, p: int) -> bool {
    exists|e: int, j: int| j < p && view.stack[j] == u && #[trigger] hop(
        edges,
        view.trail(),
        e,
        j,
        view.stack[p],
        view.trail().dist[p],
    )
}

/// The predecessors of a node are the nodes settled before it from which an
/// edge arrives at exactly the node's distance: those that lie on a
/// shortest path to it, directly before it.
pub proof fn law_predecessors_are_tight(
    edges: Seq<(usize, usize, i64)>,
    n: nat,
    s: usize,
    view: SearchView,
    p: int,
    u: usize,
)
    requires
        is_search(edges, n, s, view),
        1 <= p < view.stack.len(),
    ensures
        view.pred[view.stack[p] as int].contains(u) <==> precedes(edges, view, u, p),
{
    let trail = view.trail();
    let w = view.stack[p];
    let preds = view.pred[w as int];
    assert(settled_right(edges, trail, p));
    if preds.contains(u) {
        let i = choose|i: int| 0 <= i < preds.len() && preds[i] == u;
        let found = lemma_pred_is_settled(edges, trail, p, w, trail.dist[p], i);
        assert(hop(edges, trail, found.1, found.0, w, trail.dist[p]));
    }
    if precedes(edges, view, u, p) {
        let (e, j) = choose|e: int, j: int|
            j < p && view.stack[j] == u && #[trigger] hop(edges, trail, e, j, w, trail.dist[p]);
        let i = lemma_tight_is_pred(edges, trail, p, w, trail.dist[p], e, j);
        assert(preds[i] == u);
    }
}

/// The path counts of the listed nodes, summed.
pub open spec fn summed_counts(sigma: Seq<int>, nodes: Seq<usize>) -> int
    decreases nodes.len(),
{
    if nodes.len() == 0 {
        0
    } else {
        summed_counts(sigma, nodes.drop_last()) + sigma[nodes.last() as int]
    }
}

/// Listing a node `c` more times adds `c` times its path count.
proof fn lemma_summed_repeat(sigma: Seq<int>, nodes: Seq<usize>, u: usize, c: nat)
    ensures
        summed_counts(sigma, nodes + Seq::new(c, |i: int| u)) == summed_counts(sigma, nodes) + c * sigma[u as int],
    decreases c,
{
    let all = nodes + Seq::new(c, |i: int| u);
    if c == 0 {
        assert(all =~= nodes);
    } else {
        let fewer = nodes + Seq::new((c - 1) as nat, |i: int| u);
        lemma_summed_repeat(sigma, nodes, u, (c - 1) as nat);
        assert(all.drop_last() =~= fewer);
        assert(all.last() == u);
        assert(c * sigma[u as int] == (c - 1) * sigma[u as int] + sigma[u as int]) by (nonlinear_arith);
    }
}

/// The path count up to `k` is the sum of the counts of the predecessors up
/// to `k`.
proof fn lemma_paths_are_summed(
    edges: Seq<(usize, usize, i64)>,
    trail: Trail,
    sigma: Seq<int>,
    k: int,
    w: usize,
    t: int,
)
    requires
        trail.wf(),
        0 <= k <= trail.len(),
        forall|j: int| 0 <= j < k ==> sigma[trail.nodes[j] as int] == #[trigger] trail.sigma[j],
    ensures
        paths_upto(edges, trail, k, w, t) == summed_counts(sigma, preds_upto(edges, trail, k, w, t)),
    decreases k,
{
    if k > 0 {
        lemma_paths_are_summed(edges, trail, sigma, k - 1, w, t);
        let u = trail.nodes[k - 1];
        let c = tight(edges, u, w, t - trail.dist[k - 1]).len();
        lemma_summed_repeat(sigma, preds_upto(edges, trail, k - 1, w, t), u, c);
        assert(sigma[u as int] == trail.sigma[k - 1]);
        assert(trail.sigma[k - 1] * c == c * sigma[u as int]) by (nonlinear_arith)
            requires
                sigma[u as int] == trail.sigma[k - 1],
        ;
    }
}

/// The number of shortest paths to a node is the sum of the numbers of
/// shortest paths to its predecessors, each taken once per edge that makes
/// it a predecessor.
pub proof fn law_path_count_is_summed(edges: Seq<(usize, usize, i64)>, n: nat, s: usize, view: SearchView, p: int)
    requires
        is_search(edges, n, s, view),
        1 <= p < view.stack.len(),
    ensures
        view.sigma[view.stack[p] as int] == summed_counts(view.sigma, view.pred[view.stack[p] as int]),
{
    let trail = view.trail();
    assert(settled_right(edges, trail, p));
    lemma_paths_are_summed(edges, trail, view.sigma, p, view.stack[p], trail.dist[p]);
}

} // verus!
