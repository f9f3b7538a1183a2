//! What a single-source shortest-path search with path counting returns,
//! stated over the graph's edge array.
//!
//! A search settles nodes one at a time. The *trail* records, in settling
//! order, each node with its distance and its number of shortest paths. Every
//! later node is described by the trail before it: its distance is the least
//! distance reachable over one edge from the trail, its predecessors are the
//! trail nodes that reach it at exactly that distance, and its path count is
//! the sum of theirs.

use crate::store::{joins, lists_incident};
use vstd::prelude::*;

verus! {

/// The nodes settled so far, in settling order, each with its distance from
/// the source and its number of shortest paths.
pub struct Trail {
    pub nodes: Seq<usize>,
    pub dist: Seq<int>,
    pub sigma: Seq<int>,
}

impl Trail {
    pub open spec fn len(self) -> int {
        self.nodes.len() as int
    }

    pub open spec fn wf(self) -> bool {
        self.dist.len() == self.nodes.len() && self.sigma.len() == self.nodes.len()
    }

    /// The trail with one more settled node.
    pub open spec fn push(self, node: usize, dist: int, sigma: int) -> Trail {
        Trail { nodes: self.nodes.push(node), dist: self.dist.push(dist), sigma: self.sigma.push(sigma) }
    }

    /// Whether `x` is among the first `k` settled nodes.
    pub open spec fn settled_before(self, k: int, x: usize) -> bool {
        exists|j: int| 0 <= j < k && j < self.nodes.len() && #[trigger] self.nodes[j] == x
    }
}

/// Edge `e` leads from the `j`-th settled node to `w` and arrives there at
/// distance `t`.
pub open spec fn hop(edges: Seq<(usize, usize, i64)>, trail: Trail, e: int, j: int, w: usize, t: int) -> bool {
    &&& 0 <= e < edges.len()
    &&& 0 <= j < trail.nodes.len()
    &&& joins(edges[e], trail.nodes[j], w)
    &&& trail.dist[j] + edges[e].2 == t
}

/// Some edge from one of the first `k` settled nodes arrives at `w` at
/// distance `t`.
pub open spec fn reached(edges: Seq<(usize, usize, i64)>, trail: Trail, k: int, w: usize, t: int) -> bool {
    exists|e: int, j: int| j < k && #[trigger] hop(edges, trail, e, j, w, t)
}

/// No edge from one of the first `k` settled nodes arrives at `w` at a
/// distance below `t`.
pub open spec fn no_shorter(edges: Seq<(usize, usize, i64)>, trail: Trail, k: int, w: usize, t: int) -> bool {
    forall|e: int, j: int|
        0 <= e < edges.len() && 0 <= j < k && j < trail.nodes.len() && #[trigger] joins(
            edges[e],
            trail.nodes[j],
            w,
        ) ==> trail.dist[j] + edges[e].2 >= t
}

/// No edge connects one of the first `k` settled nodes with `w`.
pub open spec fn untouched(edges: Seq<(usize, usize, i64)>, trail: Trail, k: int, w: usize) -> bool {
    forall|e: int, j: int|
        0 <= e < edges.len() && 0 <= j < k && j < trail.nodes.len() ==> !#[trigger] joins(
            edges[e],
            trail.nodes[j],
            w,
        )
}

/// The edges between `u` and `w` whose weight is exactly `t`.
pub open spec fn tight(edges: Seq<(usize, usize, i64)>, u: usize, w: usize, t: int) -> Set<int> {
    Set::new(|e: int| 0 <= e < edges.len() && joins(edges[e], u, w) && edges[e].2 == t)
}

/// The predecessors of `w` among the first `k` settled nodes, for arrival at
/// distance `t`: in settling order, each once per edge that arrives at `t`.
pub open spec fn preds_upto(edges: Seq<(usize, usize, i64)>, trail: Trail, k: int, w: usize, t: int) -> Seq<
    usize,
>
    decreases k,
{
    if k <= 0 {
        Seq::empty()
    } else {
        let u = trail.nodes[k - 1];
        preds_upto(edges, trail, k - 1, w, t) + Seq::new(
            tight(edges, u, w, t - trail.dist[k - 1]).len(),
            |i: int| u,
        )
    }
}

/// The number of shortest paths that arrive at `w` at distance `t` over the
/// first `k` settled nodes: the sum of the predecessors' own counts.
pub open spec fn paths_upto(edges: Seq<(usize, usize, i64)>, trail: Trail, k: int, w: usize, t: int) -> int
    decreases k,
{
    if k <= 0 {
        0
    } else {
        paths_upto(edges, trail, k - 1, w, t) + trail.sigma[k - 1] * tight(
            edges,
            trail.nodes[k - 1],
            w,
            t - trail.dist[k - 1],
        ).len()
    }
}

/// Of the first `i` listed edges, how many connect `v` and `w` with weight
/// exactly `x`.
pub open spec fn hits(edges: Seq<(usize, usize, i64)>, ids: Seq<usize>, i: int, v: usize, w: usize, x: int) -> nat
    decreases i,
{
    if i <= 0 {
        0
    } else {
        let e = edges[ids[i - 1] as int];
        hits(edges, ids, i - 1, v, w, x) + if joins(e, v, w) && e.2 == x {
            1nat
        } else {
            0nat
        }
    }
}

/// The `p`-th settled node (`p >= 1`) was the right one to settle: it is
/// reached from the trail before it, nothing outside that trail is reached
/// at a smaller distance (nor at the same distance with a smaller index), and
/// distances do not decrease along the trail.
pub open spec fn settled_right(edges: Seq<(usize, usize, i64)>, trail: Trail, p: int) -> bool {
    let w = trail.nodes[p];
    let d = trail.dist[p];
    &&& reached(edges, trail, p, w, d)
    &&& trail.dist[p - 1] <= d
    &&& forall|e: int, j: int, x: usize|
        0 <= e < edges.len() && 0 <= j < p && #[trigger] joins(edges[e], trail.nodes[j], x)
            && !trail.settled_before(p, x) ==> {
            let c = trail.dist[j] + edges[e].2;
            d < c || (d == c && w <= x)
        }
    &&& trail.sigma[p] == paths_upto(edges, trail, p, w, d)
}

/// What a search holds, by node: the settling order, each node's distance,
/// path count and predecessor list.
pub struct SearchView {
    pub start: usize,
    pub stack: Seq<usize>,
    pub dist: Seq<Option<int>>,
    pub sigma: Seq<int>,
    pub pred: Seq<Seq<usize>>,
}

impl SearchView {
    /// The settled nodes in order, with their distances and path counts.
    pub open spec fn trail(self) -> Trail {
        Trail {
            nodes: self.stack,
            dist: Seq::new(self.stack.len(), |j: int| self.dist[self.stack[j] as int].unwrap()),
            sigma: Seq::new(self.stack.len(), |j: int| self.sigma[self.stack[j] as int]),
        }
    }
}

/// `view` is the outcome of the search from `s` over a graph of `n` nodes
/// with the given edges.
///
/// The stack starts with `s` at distance 0 with one path and no predecessor.
/// Every later entry is the node that, among those not yet on the stack, is
/// reached from the stack at the least distance (the smaller index where two
/// tie); its predecessors are the stack nodes before it that reach it at
/// that distance, once per such edge, and its path count is the sum of
/// theirs. The stack holds every node connected to `s`; a node outside it
/// has no distance, no predecessor and no path.
pub open spec fn is_search(edges: Seq<(usize, usize, i64)>, n: nat, s: usize, view: SearchView) -> bool {
    let trail = view.trail();
    &&& s < n
    &&& view.start == s
    &&& view.dist.len() == n
    &&& view.sigma.len() == n
    &&& view.pred.len() == n
    &&& view.stack.len() >= 1
    &&& view.stack[0] == s
    &&& view.stack.no_duplicates()
    &&& forall|j: int| 0 <= j < view.stack.len() ==> (#[trigger] view.stack[j]) < n
    &&& forall|x: usize| x < n ==> ((#[trigger] view.dist[x as int]) is Some <==> view.stack.contains(x))
    &&& forall|x: usize|
        x < n && !view.stack.contains(x) ==> (#[trigger] view.sigma[x as int]) == 0 && view.pred[x as int]
            == Seq::<usize>::empty()
    &&& view.dist[s as int] == Some(0int)
    &&& view.sigma[s as int] == 1
    &&& view.pred[s as int] == Seq::<usize>::empty()
    &&& forall|p: int|
        1 <= p < view.stack.len() ==> #[trigger] settled_right(edges, trail, p) && view.pred[view.stack[p] as int]
            == preds_upto(edges, trail, p, view.stack[p], trail.dist[p])
    &&& forall|e: int, j: int, x: usize|
        0 <= e < edges.len() && 0 <= j < view.stack.len() && #[trigger] joins(edges[e], view.stack[j], x)
            ==> view.stack.contains(x)
}

/// `view` is the outcome of the search from `s`, and holds a path count that
/// no `u64` can hold.
pub open spec fn is_overflowing_search(
    edges: Seq<(usize, usize, i64)>,
    n: nat,
    s: usize,
    view: SearchView,
) -> bool {
    &&& is_search(edges, n, s, view)
    &&& exists|x: int| 0 <= x < view.sigma.len() && #[trigger] view.sigma[x] > u64::MAX
}

/// No edge weight is negative.
pub open spec fn weights_valid(edges: Seq<(usize, usize, i64)>) -> bool {
    forall|e: int| 0 <= e < edges.len() ==> (#[trigger] edges[e]).2 >= 0
}

// ---------------------------------------------------------------------------
// Lemmas
// ---------------------------------------------------------------------------

/// The tight edges between two nodes are finitely many.
pub proof fn lemma_tight_finite(edges: Seq<(usize, usize, i64)>, u: usize, w: usize, t: int)
    ensures
        tight(edges, u, w, t).finite(),
        tight(edges, u, w, t).len() <= edges.len(),
{
    let range = vstd::set_lib::set_int_range(0, edges.len() as int);
    vstd::set_lib::lemma_int_range(0, edges.len() as int);
    assert(tight(edges, u, w, t).subset_of(range));
    vstd::set_lib::lemma_len_subset(tight(edges, u, w, t), range);
}

/// Predecessors and path counts up to `k` read only the first `k` entries
/// of the trail.
pub proof fn lemma_upto_prefix(
    edges: Seq<(usize, usize, i64)>,
    a: Trail,
    b: Trail,
    k: int,
    w: usize,
    t: int,
)
    requires
        k <= a.nodes.len(),
        k <= b.nodes.len(),
        a.wf(),
        b.wf(),
        forall|j: int| 0 <= j < k ==> a.nodes[j] == b.nodes[j] && a.dist[j] == b.dist[j] && a.sigma[j] == b.sigma[j],
    ensures
        preds_upto(edges, a, k, w, t) == preds_upto(edges, b, k, w, t),
        paths_upto(edges, a, k, w, t) == paths_upto(edges, b, k, w, t),
    decreases k,
{
    if k > 0 {
        lemma_upto_prefix(edges, a, b, k - 1, w, t);
    }
}

/// Where no edge from the first `k` settled nodes arrives at `w` at distance
/// `t`, there is no predecessor and no path for that distance.
pub proof fn lemma_upto_none(edges: Seq<(usize, usize, i64)>, trail: Trail, k: int, w: usize, t: int)
    requires
        k <= trail.nodes.len(),
        trail.wf(),
        forall|e: int, j: int|
            0 <= e < edges.len() && 0 <= j < k && #[trigger] joins(edges[e], trail.nodes[j], w)
                ==> trail.dist[j] + edges[e].2 != t,
    ensures
        preds_upto(edges, trail, k, w, t) == Seq::<usize>::empty(),
        paths_upto(edges, trail, k, w, t) == 0,
    decreases k,
{
    if k > 0 {
        lemma_upto_none(edges, trail, k - 1, w, t);
        let u = trail.nodes[k - 1];
        let s = tight(edges, u, w, t - trail.dist[k - 1]);
        assert forall|e: int| !s.contains(e) by {
            if 0 <= e < edges.len() && joins(edges[e], u, w) {
                assert(joins(edges[e], trail.nodes[k - 1], w));
            }
        }
        assert(s =~= Set::<int>::empty());
        assert(preds_upto(edges, trail, k, w, t) =~= Seq::<usize>::empty());
    }
}

/// The edges among the first `i` listed ones that connect `v` and `w` with
/// weight `x`.
spec fn listed(edges: Seq<(usize, usize, i64)>, ids: Seq<usize>, i: int, v: usize, w: usize, x: int) -> Set<
    int,
> {
    Set::new(
        |e: int|
            exists|p: int|
                0 <= p < i && p < ids.len() && #[trigger] ids[p] == e && joins(edges[e], v, w) && edges[e].2
                    == x,
    )
}

proof fn lemma_hits_listed(edges: Seq<(usize, usize, i64)>, ids: Seq<usize>, i: int, v: usize, w: usize, x: int)
    requires
        0 <= i <= ids.len(),
        ids.no_duplicates(),
        forall|p: int| 0 <= p < ids.len() ==> (#[trigger] ids[p]) < edges.len(),
    ensures
        listed(edges, ids, i, v, w, x).finite(),
        listed(edges, ids, i, v, w, x).len() == hits(edges, ids, i, v, w, x),
    decreases i,
{
    broadcast use vstd::set::group_set_axioms;

    if i == 0 {
        assert(listed(edges, ids, i, v, w, x) =~= Set::<int>::empty());
    } else {
        lemma_hits_listed(edges, ids, i - 1, v, w, x);
        let prev = listed(edges, ids, i - 1, v, w, x);
        let cur = listed(edges, ids, i, v, w, x);
        let id = ids[i - 1] as int;
        let e = edges[id];
        if joins(e, v, w) && e.2 == x {
            assert(!prev.contains(id)) by {
                if prev.contains(id) {
                    let p = choose|p: int|
                        0 <= p < i - 1 && p < ids.len() && #[trigger] ids[p] == id && joins(edges[id], v, w)
                            && edges[id].2 == x;
                    assert(ids[p] == ids[i - 1]);
                }
            }
            assert forall|f: int| cur.contains(f) <==> prev.insert(id).contains(f) by {
                if cur.contains(f) {
                    let p = choose|p: int|
                        0 <= p < i && p < ids.len() && #[trigger] ids[p] == f && joins(edges[f], v, w)
                            && edges[f].2 == x;
                    if p < i - 1 {
                        assert(prev.contains(f));
                    }
                }
                if prev.contains(f) {
                    let p = choose|p: int|
                        0 <= p < i - 1 && p < ids.len() && #[trigger] ids[p] == f && joins(edges[f], v, w)
                            && edges[f].2 == x;
                    assert(0 <= p < i && ids[p] == f);
                }
                if f == id {
                    assert(ids[i - 1] == f);
                }
            }
            assert(cur =~= prev.insert(id));
        } else {
            assert forall|f: int| cur.contains(f) <==> prev.contains(f) by {
                if cur.contains(f) {
                    let p = choose|p: int|
                        0 <= p < i && p < ids.len() && #[trigger] ids[p] == f && joins(edges[f], v, w)
                            && edges[f].2 == x;
                    assert(p < i - 1);
                }
                if prev.contains(f) {
                    let p = choose|p: int|
                        0 <= p < i - 1 && p < ids.len() && #[trigger] ids[p] == f && joins(edges[f], v, w)
                            && edges[f].2 == x;
                    assert(0 <= p < i && ids[p] == f);
                }
            }
            assert(cur =~= prev);
        }
    }
}

/// Counting over a complete list of the edges at `v` counts the tight edges.
pub proof fn lemma_hits_total(edges: Seq<(usize, usize, i64)>, ids: Seq<usize>, v: usize, w: usize, x: int)
    requires
        lists_incident(edges, ids, v),
    ensures
        hits(edges, ids, ids.len() as int, v, w, x) == tight(edges, v, w, x).len(),
{
    lemma_hits_listed(edges, ids, ids.len() as int, v, w, x);
    let all = listed(edges, ids, ids.len() as int, v, w, x);
    let goal = tight(edges, v, w, x);
    assert forall|e: int| all.contains(e) <==> goal.contains(e) by {
        if all.contains(e) {
            let p = choose|p: int|
                0 <= p < ids.len() && #[trigger] ids[p] == e && joins(edges[e], v, w) && edges[e].2 == x;
            assert(ids[p] < edges.len());
        }
        if goal.contains(e) {
            assert(edges[e].0 == v || edges[e].1 == v);
            let p = choose|p: int| 0 <= p < ids.len() && #[trigger] ids[p] == e;
            assert(ids[p] == e);
        }
    }
    assert(all =~= goal);
}

/// An edge that does not connect `v` and `w` with weight `x` leaves the count
/// as it was.
pub proof fn lemma_hits_zero(edges: Seq<(usize, usize, i64)>, ids: Seq<usize>, i: int, v: usize, w: usize, x: int)
    requires
        0 <= i <= ids.len(),
        forall|p: int|
            0 <= p < i ==> !(joins(edges[(#[trigger] ids[p]) as int], v, w) && edges[ids[p] as int].2 == x),
    ensures
        hits(edges, ids, i, v, w, x) == 0,
    decreases i,
{
    if i > 0 {
        lemma_hits_zero(edges, ids, i - 1, v, w, x);
        assert(!(joins(edges[ids[i - 1] as int], v, w) && edges[ids[i - 1] as int].2 == x));
    }
}

/// Two trails that agree on their first `k` entries.
pub open spec fn same_prefix(a: Trail, b: Trail, k: int) -> bool {
    &&& a.wf()
    &&& b.wf()
    &&& k <= a.nodes.len()
    &&& k <= b.nodes.len()
    &&& forall|j: int| 0 <= j < k ==> a.nodes[j] == b.nodes[j] && a.dist[j] == b.dist[j] && a.sigma[j] == b.sigma[j]
}

/// What is reached from the first `k` entries is the same in both trails.
pub proof fn lemma_reached_prefix(edges: Seq<(usize, usize, i64)>, a: Trail, b: Trail, k: int, w: usize, t: int)
    requires
        same_prefix(a, b, k),
    ensures
        reached(edges, a, k, w, t) ==> reached(edges, b, k, w, t),
        no_shorter(edges, a, k, w, t) ==> no_shorter(edges, b, k, w, t),
        untouched(edges, a, k, w) ==> untouched(edges, b, k, w),
{
    if reached(edges, a, k, w, t) {
        let (e, j) = choose|e: int, j: int| j < k && #[trigger] hop(edges, a, e, j, w, t);
        assert(hop(edges, b, e, j, w, t));
    }
    if no_shorter(edges, a, k, w, t) {
        assert forall|e: int, j: int|
            0 <= e < edges.len() && 0 <= j < k && j < b.nodes.len() && #[trigger] joins(
                edges[e],
                b.nodes[j],
                w,
            ) implies b.dist[j] + edges[e].2 >= t by {
            assert(joins(edges[e], a.nodes[j], w));
        }
    }
    if untouched(edges, a, k, w) {
        assert forall|e: int, j: int|
            0 <= e < edges.len() && 0 <= j < k && j < b.nodes.len() implies !#[trigger] joins(
            edges[e],
            b.nodes[j],
            w,
        ) by {
            assert(!joins(edges[e], a.nodes[j], w));
        }
    }
}

/// Whether the `p`-th entry was settled rightly depends on the trail up to
/// and including that entry only.
pub proof fn lemma_settled_right_prefix(edges: Seq<(usize, usize, i64)>, a: Trail, b: Trail, p: int)
    requires
        1 <= p,
        same_prefix(a, b, p + 1),
        settled_right(edges, a, p),
    ensures
        settled_right(edges, b, p),
{
    let w = a.nodes[p];
    let d = a.dist[p];
    lemma_reached_prefix(edges, a, b, p, w, d);
    lemma_upto_prefix(edges, a, b, p, w, d);
    assert forall|e: int, j: int, x: usize|
        0 <= e < edges.len() && 0 <= j < p && #[trigger] joins(edges[e], b.nodes[j], x) && !b.settled_before(
            p,
            x,
        ) implies {
        let c = b.dist[j] + edges[e].2;
        d < c || (d == c && w <= x)
    } by {
        assert(joins(edges[e], a.nodes[j], x));
        if a.settled_before(p, x) {
            let i = choose|i: int| 0 <= i < p && i < a.nodes.len() && #[trigger] a.nodes[i] == x;
            assert(b.nodes[i] == x);
        }
    }
}

} // verus!
