//! Single-source shortest paths with path counting: the search that
//! betweenness centrality is accumulated from.

use crate::analyser::paths::{
    hits, hop, is_overflowing_search, is_search, lemma_hits_total, lemma_hits_zero, lemma_reached_prefix,
    lemma_settled_right_prefix, lemma_upto_none, lemma_upto_prefix, no_shorter, paths_upto, preds_upto,
    reached, same_prefix, settled_right, untouched, weights_valid, SearchView, Trail,
};
use crate::analyser::properties::law_search_unique;
use crate::error::GraphError;
use crate::git_graph::GitFile;
use crate::store::{
    edge_list, graph_edges, graph_nodes, incident_edges, joins, lists_incident, node_count,
};
use petgraph::graph::Graph;
use petgraph::Undirected;
use vstd::prelude::*;

verus! {

/// The largest weight an edge can carry.
pub const MAX_WEIGHT: u128 = 0x7fff_ffff_ffff_ffffu128;

/// One more than the largest path count that is reported.
const PATH_CAP: u128 = 0x1_0000_0000_0000_0000u128;

/// The outcome of one search: the order in which nodes were settled, and for
/// every node its predecessors on shortest paths, its number of shortest
/// paths and its distance from `start`.
#[derive(Debug)]
pub struct BrandesNet {
    pub stack: Vec<usize>,
    pub pred: Vec<Vec<usize>>,
    pub sigma: Vec<u64>,
    pub dist: Vec<Option<u128>>,
    pub start: usize,
}

impl View for BrandesNet {
    type V = SearchView;

    open spec fn view(&self) -> SearchView {
        SearchView {
            start: self.start,
            stack: self.stack@,
            dist: Seq::new(
                self.dist@.len(),
                |x: int|
                    match self.dist@[x] {
                        Some(d) => Some(d as int),
                        None => None,
                    },
            ),
            sigma: Seq::new(self.sigma@.len(), |x: int| self.sigma@[x] as int),
            pred: Seq::new(self.pred@.len(), |x: int| self.pred@[x]@),
        }
    }
}

/// A path count as it is stored while it may still grow: exact below the cap.
spec fn capped(count: int) -> int {
    if count >= PATH_CAP {
        PATH_CAP as int
    } else {
        count
    }
}

/// The working state of a search. `done` marks the settled nodes; for them
/// `tent`, `sigma` and `pred` are final. For the others they hold what the
/// settled nodes have shown so far.
struct Search {
    done: Vec<bool>,
    tent: Vec<Option<u128>>,
    sigma: Vec<u128>,
    pred: Vec<Vec<usize>>,
    stack: Vec<usize>,
    trail: Ghost<Trail>,
    counts: Ghost<Seq<int>>,
}

impl Search {
    spec fn n(&self) -> int {
        self.done@.len() as int
    }

    spec fn shaped(&self) -> bool {
        &&& self.tent@.len() == self.done@.len()
        &&& self.sigma@.len() == self.done@.len()
        &&& self.pred@.len() == self.done@.len()
        &&& self.counts@.len() == self.done@.len()
        &&& self.trail@.wf()
        &&& self.trail@.nodes == self.stack@
        &&& self.stack@.len() >= 1
    }

    /// The `j`-th trail entry is a settled node whose stored values are the
    /// trail's.
    spec fn entry_ok(&self, j: int) -> bool {
        let x = self.trail@.nodes[j] as int;
        &&& x < self.n()
        &&& self.done@[x]
        &&& self.tent@[x] is Some
        &&& self.tent@[x].unwrap() == self.trail@.dist[j]
        &&& self.counts@[x] == self.trail@.sigma[j]
        &&& 0 <= self.trail@.dist[j] <= j * MAX_WEIGHT
    }

    /// What holds of the settled part at every point of the search.
    spec fn settled(&self, edges: Seq<(usize, usize, i64)>, s: usize) -> bool {
        let trail = self.trail@;
        &&& self.shaped()
        &&& trail.nodes.no_duplicates()
        &&& trail.nodes[0] == s
        &&& trail.dist[0] == 0
        &&& trail.sigma[0] == 1
        &&& self.pred@[s as int]@ == Seq::<usize>::empty()
        &&& forall|j: int| 0 <= j < trail.len() ==> #[trigger] self.entry_ok(j)
        &&& forall|x: usize| x < self.n() && #[trigger] self.done@[x as int] ==> trail.nodes.contains(x)
        &&& forall|x: int|
            0 <= x < self.n() ==> 0 <= #[trigger] self.counts@[x] && self.sigma@[x] == capped(self.counts@[x])
        &&& forall|p: int|
            1 <= p < trail.len() ==> #[trigger] settled_right(edges, trail, p) && self.pred@[trail.nodes[p] as int]@
                == preds_upto(edges, trail, p, trail.nodes[p], trail.dist[p])
        &&& forall|x: int|
            0 <= x < self.n() && (#[trigger] self.tent@[x]) is Some ==> self.tent@[x].unwrap() <= trail.len()
                * MAX_WEIGHT
    }

    /// What holds of an unsettled node between two rounds: its values are
    /// those that the whole trail gives it.
    spec fn parked(&self, edges: Seq<(usize, usize, i64)>, w: usize) -> bool {
        let trail = self.trail@;
        let k = trail.len();
        match self.tent@[w as int] {
            None => {
                &&& untouched(edges, trail, k, w)
                &&& self.pred@[w as int]@ == Seq::<usize>::empty()
                &&& self.counts@[w as int] == 0
            },
            Some(t) => {
                &&& reached(edges, trail, k, w, t as int)
                &&& no_shorter(edges, trail, k, w, t as int)
                &&& self.pred@[w as int]@ == preds_upto(edges, trail, k, w, t as int)
                &&& self.counts@[w as int] == paths_upto(edges, trail, k, w, t as int)
                &&& t >= trail.dist[k - 1]
            },
        }
    }

    /// What holds of an unsettled node while the edges of the last settled
    /// node are gone through: its values are those that the trail before
    /// that node and the first `i` listed edges give it.
    spec fn pending(&self, edges: Seq<(usize, usize, i64)>, ids: Seq<usize>, i: int, w: usize) -> bool {
        let trail = self.trail@;
        let k = trail.len() - 1;
        let v = trail.nodes[k];
        let dv = trail.dist[k];
        match self.tent@[w as int] {
            None => {
                &&& untouched(edges, trail, k, w)
                &&& forall|p: int| 0 <= p < i ==> !joins(edges[(#[trigger] ids[p]) as int], v, w)
                &&& self.pred@[w as int]@ == Seq::<usize>::empty()
                &&& self.counts@[w as int] == 0
            },
            Some(t) => {
                &&& (reached(edges, trail, k, w, t as int) || exists|p: int|
                    0 <= p < i && joins(edges[(#[trigger] ids[p]) as int], v, w) && dv + edges[ids[p] as int].2
                        == t)
                &&& no_shorter(edges, trail, k, w, t as int)
                &&& forall|p: int|
                    0 <= p < i && joins(edges[(#[trigger] ids[p]) as int], v, w) ==> dv + edges[ids[p] as int].2
                        >= t
                &&& self.pred@[w as int]@ == preds_upto(edges, trail, k, w, t as int) + Seq::new(
                    hits(edges, ids, i, v, w, t - dv),
                    |q: int| v,
                )
                &&& self.counts@[w as int] == paths_upto(edges, trail, k, w, t as int) + trail.sigma[k] * hits(
                    edges,
                    ids,
                    i,
                    v,
                    w,
                    t - dv,
                )
                &&& t >= dv
            },
        }
    }

    /// Every unsettled node is parked.
    spec fn all_parked(&self, edges: Seq<(usize, usize, i64)>) -> bool {
        forall|w: usize| w < self.n() && !self.done@[w as int] ==> #[trigger] self.parked(edges, w)
    }

    /// Every unsettled node is pending.
    spec fn all_pending(&self, edges: Seq<(usize, usize, i64)>, ids: Seq<usize>, i: int) -> bool {
        forall|w: usize| w < self.n() && !self.done@[w as int] ==> #[trigger] self.pending(edges, ids, i, w)
    }
}

/// The edges are those of a graph of `n` nodes, with valid weights.
spec fn edges_fit(edges: Seq<(usize, usize, i64)>, n: int) -> bool {
    &&& weights_valid(edges)
    &&& forall|e: int| 0 <= e < edges.len() ==> (#[trigger] edges[e]).0 < n && edges[e].1 < n
}

/// Distinct numbers below `n` are at most `n`, and fewer if one is missing.
proof fn lemma_distinct_below(nodes: Seq<usize>, n: int, missing: usize)
    requires
        nodes.no_duplicates(),
        forall|j: int| 0 <= j < nodes.len() ==> (#[trigger] nodes[j]) < n,
        missing < n,
        !nodes.contains(missing),
    ensures
        nodes.len() < n,
{
    let ints = nodes.map_values(|x: usize| x as int);
    assert(ints.no_duplicates()) by {
        assert forall|i: int, j: int| 0 <= i < ints.len() && 0 <= j < ints.len() && i != j implies ints[i]
            != ints[j] by {
            assert(nodes[i] != nodes[j]);
        }
    }
    ints.unique_seq_to_set();
    let range = vstd::set_lib::set_int_range(0, n);
    vstd::set_lib::lemma_int_range(0, n);
    let rest = range.remove(missing as int);
    assert(ints.to_set().subset_of(rest)) by {
        assert forall|x: int| ints.to_set().contains(x) implies rest.contains(x) by {
            let j = choose|j: int| 0 <= j < ints.len() && ints[j] == x;
            assert(nodes[j] == x);
            if x == missing {
                assert(nodes.contains(missing));
            }
        }
    }
    vstd::set_lib::lemma_len_subset(ints.to_set(), rest);
}

/// `next` is the unsettled node with the least tentative distance, and among
/// equals the one with the least index; or there is none.
spec fn picked(search: Search, next: Option<usize>) -> bool {
    match next {
        None => forall|x: int| 0 <= x < search.n() ==> search.done@[x] || (#[trigger] search.tent@[x]) is None,
        Some(v) => {
            &&& v < search.n()
            &&& !search.done@[v as int]
            &&& search.tent@[v as int] is Some
            &&& forall|x: int|
                0 <= x < search.n() && !search.done@[x] && (#[trigger] search.tent@[x]) is Some ==> {
                    let tv = search.tent@[v as int].unwrap();
                    let tx = search.tent@[x].unwrap();
                    tv < tx || (tv == tx && v <= x)
                }
        },
    }
}

/// The unsettled node that comes next.
fn pick(search: &Search) -> (next: Option<usize>)
    requires
        search.shaped(),
    ensures
        picked(*search, next),
{
    let n = search.done.len();
    let mut best: Option<usize> = None;
    let mut least: u128 = 0;
    let mut x: usize = 0;
    while x < n
        invariant
            x <= n,
            n == search.done@.len(),
            search.shaped(),
            match best {
                None => forall|y: int| 0 <= y < x ==> search.done@[y] || (#[trigger] search.tent@[y]) is None,
                Some(v) => {
                    &&& v < x
                    &&& !search.done@[v as int]
                    &&& search.tent@[v as int] == Some(least)
                    &&& forall|y: int|
                        0 <= y < x && !search.done@[y] && (#[trigger] search.tent@[y]) is Some ==> {
                            let ty = search.tent@[y].unwrap();
                            least < ty || (least == ty && v <= y)
                        }
                },
            },
        decreases n - x,
    {
        if !search.done[x] {
            match search.tent[x] {
                Some(t) => {
                    let better = match best {
                        None => true,
                        Some(_) => t < least,
                    };
                    if better {
                        best = Some(x);
                        least = t;
                    }
                },
                None => {},
            }
        }
        x += 1;
    }
    best
}

/// Settles `v`: marks it done and appends it to the stack and the trail. Its
/// tentative values become final.
fn settle(search: &mut Search, Ghost(edges): Ghost<Seq<(usize, usize, i64)>>, Ghost(s): Ghost<usize>, v: usize)
    requires
        old(search).settled(edges, s),
        old(search).all_parked(edges),
        edges_fit(edges, old(search).n()),
        old(search).n() <= u32::MAX,
        v < old(search).n(),
        !old(search).done@[v as int],
        old(search).tent@[v as int] is Some,
        forall|x: int|
            0 <= x < old(search).n() && !old(search).done@[x] && (#[trigger] old(search).tent@[x]) is Some ==> {
                let tv = old(search).tent@[v as int].unwrap();
                let tx = old(search).tent@[x].unwrap();
                tv < tx || (tv == tx && v <= x)
            },
    ensures
        final(search).settled(edges, s),
        final(search).all_pending(edges, Seq::<usize>::empty(), 0),
        final(search).n() == old(search).n(),
        final(search).stack@.len() == old(search).stack@.len() + 1,
        final(search).stack@.last() == v,
{
    let ghost before = *search;
    let ghost old_trail = search.trail@;
    let ghost k = old_trail.len();
    let ghost d = search.tent@[v as int].unwrap() as int;
    let ghost c = search.counts@[v as int];
    let ghost new_trail = old_trail.push(v, d, c);
    proof {
        assert(before.parked(edges, v));
        assert forall|j: int| 0 <= j < k implies old_trail.nodes[j] != v by {
            assert(before.entry_ok(j));
        }
        assert forall|j: int| 0 <= j < k implies (#[trigger] old_trail.nodes[j]) < search.n() by {
            assert(before.entry_ok(j));
        }
        lemma_distinct_below(old_trail.nodes, search.n(), v);
    }
    search.done.set(v, true);
    search.stack.push(v);
    proof {
        search.trail = Ghost(new_trail);
        assert(same_prefix(old_trail, new_trail, k));
        // the new entry
        assert(search.entry_ok(k)) by {
            assert(before.tent@[v as int].unwrap() <= k * MAX_WEIGHT);
        }
        assert forall|j: int| 0 <= j < new_trail.len() implies #[trigger] search.entry_ok(j) by {
            if j < k {
                assert(before.entry_ok(j));
            }
        }
        assert forall|x: usize| x < search.n() && #[trigger] search.done@[x as int] implies new_trail.nodes.contains(
            x,
        ) by {
            if x == v {
                assert(new_trail.nodes[k] == v);
            } else {
                assert(before.done@[x as int]);
                let j = choose|j: int| 0 <= j < old_trail.nodes.len() && old_trail.nodes[j] == x;
                assert(new_trail.nodes[j] == x);
            }
        }
        // the entry was the right one to settle
        lemma_reached_prefix(edges, old_trail, new_trail, k, v, d);
        lemma_upto_prefix(edges, old_trail, new_trail, k, v, d);
        assert(settled_right(edges, new_trail, k)) by {
            assert forall|e: int, j: int, x: usize|
                0 <= e < edges.len() && 0 <= j < k && #[trigger] joins(edges[e], new_trail.nodes[j], x)
                    && !new_trail.settled_before(k, x) implies {
                let cand = new_trail.dist[j] + edges[e].2;
                d < cand || (d == cand && v <= x)
            } by {
                assert(joins(edges[e], old_trail.nodes[j], x));
                assert(before.entry_ok(j));
                assert(x < before.n());
                if before.done@[x as int] {
                    let i = choose|i: int| 0 <= i < old_trail.nodes.len() && old_trail.nodes[i] == x;
                    assert(new_trail.nodes[i] == x);
                    assert(new_trail.settled_before(k, x));
                }
                assert(before.parked(edges, x));
                assert(before.tent@[x as int] is Some);
            }
        }
        assert forall|p: int| 1 <= p < new_trail.len() implies #[trigger] settled_right(edges, new_trail, p)
            && search.pred@[new_trail.nodes[p] as int]@ == preds_upto(
            edges,
            new_trail,
            p,
            new_trail.nodes[p],
            new_trail.dist[p],
        ) by {
            if p < k {
                assert(same_prefix(old_trail, new_trail, p + 1));
                assert(settled_right(edges, old_trail, p));
                lemma_settled_right_prefix(edges, old_trail, new_trail, p);
                lemma_upto_prefix(edges, old_trail, new_trail, p, old_trail.nodes[p], old_trail.dist[p]);
            }
        }
        assert forall|x: int| 0 <= x < search.n() && (#[trigger] search.tent@[x]) is Some implies search.tent@[x].unwrap()
            <= new_trail.len() * MAX_WEIGHT by {
            assert(before.tent@[x].unwrap() <= k * MAX_WEIGHT);
        }
        assert(search.settled(edges, s));
        // the others wait for the edges of the new entry
        assert forall|w: usize| w < search.n() && !search.done@[w as int] implies #[trigger] search.pending(
            edges,
            Seq::<usize>::empty(),
            0,
            w,
        ) by {
            assert(before.parked(edges, w));
            match before.tent@[w as int] {
                None => {
                    lemma_reached_prefix(edges, old_trail, new_trail, k, w, 0);
                },
                Some(t) => {
                    lemma_reached_prefix(edges, old_trail, new_trail, k, w, t as int);
                    lemma_upto_prefix(edges, old_trail, new_trail, k, w, t as int);
                    let base = preds_upto(edges, new_trail, k, w, t as int);
                    assert(base + Seq::new(0nat, |q: int| v) =~= base);
                },
            }
        }
    }
}

/// `post` is `pre` but for the tentative values of `w`.
spec fn same_except(pre: Search, post: Search, w: usize) -> bool {
    &&& post.done@ == pre.done@
    &&& post.stack@ == pre.stack@
    &&& post.trail@ == pre.trail@
    &&& post.tent@.len() == pre.tent@.len()
    &&& post.sigma@.len() == pre.sigma@.len()
    &&& post.pred@.len() == pre.pred@.len()
    &&& post.counts@.len() == pre.counts@.len()
    &&& forall|x: int| 0 <= x < pre.n() && x != w ==> #[trigger] post.tent@[x] == pre.tent@[x]
    &&& forall|x: int| 0 <= x < pre.n() && x != w ==> #[trigger] post.sigma@[x] == pre.sigma@[x]
    &&& forall|x: int| 0 <= x < pre.n() && x != w ==> #[trigger] post.pred@[x] == pre.pred@[x]
    &&& forall|x: int| 0 <= x < pre.n() && x != w ==> #[trigger] post.counts@[x] == pre.counts@[x]
}

/// While a node is unsettled, the trail is shorter than the node array.
proof fn lemma_trail_short(search: Search, edges: Seq<(usize, usize, i64)>, s: usize, w: usize)
    requires
        search.settled(edges, s),
        w < search.n(),
        !search.done@[w as int],
    ensures
        search.trail@.len() < search.n(),
{
    let nodes = search.trail@.nodes;
    assert forall|j: int| 0 <= j < nodes.len() implies (#[trigger] nodes[j]) < search.n() && nodes[j] != w by {
        assert(search.entry_ok(j));
    }
    lemma_distinct_below(nodes, search.n(), w);
}

/// The node settled last.
spec fn last_node(search: Search) -> usize {
    search.trail@.nodes[search.trail@.len() - 1]
}

/// The distance of the node settled last.
spec fn last_dist(search: Search) -> int {
    search.trail@.dist[search.trail@.len() - 1]
}

/// A change to the tentative values of an unsettled node leaves the settled
/// part as it was.
proof fn lemma_keep_settled(pre: Search, post: Search, edges: Seq<(usize, usize, i64)>, s: usize, w: usize)
    requires
        pre.settled(edges, s),
        same_except(pre, post, w),
        w < pre.n(),
        !pre.done@[w as int],
        0 <= post.counts@[w as int],
        post.sigma@[w as int] == capped(post.counts@[w as int]),
        post.tent@[w as int] is Some ==> post.tent@[w as int].unwrap() <= pre.trail@.len() * MAX_WEIGHT,
    ensures
        post.settled(edges, s),
{
    let trail = pre.trail@;
    assert forall|j: int| 0 <= j < trail.len() implies #[trigger] post.entry_ok(j) by {
        assert(pre.entry_ok(j));
    }
    assert(pre.entry_ok(0));
    assert forall|x: usize| x < post.n() && #[trigger] post.done@[x as int] implies trail.nodes.contains(x) by {
        assert(pre.done@[x as int]);
    }
    assert forall|x: int| 0 <= x < post.n() implies 0 <= #[trigger] post.counts@[x] && post.sigma@[x] == capped(
        post.counts@[x],
    ) by {
        if x != w {
            assert(0 <= pre.counts@[x]);
        }
    }
    assert forall|p: int| 1 <= p < trail.len() implies #[trigger] settled_right(edges, trail, p)
        && post.pred@[trail.nodes[p] as int]@ == preds_upto(edges, trail, p, trail.nodes[p], trail.dist[p]) by {
        assert(pre.entry_ok(p));
        assert(settled_right(edges, trail, p));
    }
    assert forall|x: int| 0 <= x < post.n() && (#[trigger] post.tent@[x]) is Some implies post.tent@[x].unwrap()
        <= trail.len() * MAX_WEIGHT by {
        if x != w {
            assert(pre.tent@[x] is Some);
        }
    }
}

/// An edge that does not reach `x` leaves `x` pending.
proof fn lemma_keep_pending(
    pre: Search,
    post: Search,
    edges: Seq<(usize, usize, i64)>,
    ids: Seq<usize>,
    i: int,
    w: usize,
    x: usize,
)
    requires
        same_except(pre, post, w) || post == pre,
        x != w || post == pre,
        x < pre.n(),
        pre.trail@.len() >= 1,
        0 <= i < ids.len(),
        pre.pending(edges, ids, i, x),
        !joins(edges[ids[i] as int], last_node(pre), x),
    ensures
        post.pending(edges, ids, i + 1, x),
{
    let v = last_node(pre);
    match pre.tent@[x as int] {
        None => {},
        Some(t) => {
            let dv = last_dist(pre);
            assert(hits(edges, ids, i + 1, v, x, t - dv) == hits(edges, ids, i, v, x, t - dv));
        },
    }
}

/// An arrival at a strictly smaller distance replaces what was there.
proof fn lemma_improve(
    pre: Search,
    post: Search,
    edges: Seq<(usize, usize, i64)>,
    ids: Seq<usize>,
    i: int,
    w: usize,
    cand: int,
)
    requires
        same_except(pre, post, w),
        w < pre.n(),
        pre.trail@.wf(),
        pre.trail@.len() >= 1,
        0 <= i < ids.len(),
        pre.pending(edges, ids, i, w),
        joins(edges[ids[i] as int], last_node(pre), w),
        edges[ids[i] as int].2 >= 0,
        cand == last_dist(pre) + edges[ids[i] as int].2,
        pre.tent@[w as int] is None || cand < pre.tent@[w as int].unwrap(),
        post.tent@[w as int] == Some(cand as u128),
        cand as u128 == cand,
        post.pred@[w as int]@ == seq![last_node(pre)],
        post.counts@[w as int] == pre.trail@.sigma[pre.trail@.len() - 1],
    ensures
        post.pending(edges, ids, i + 1, w),
{
    let trail = pre.trail@;
    let k = trail.len() - 1;
    let v = last_node(pre);
    let dv = last_dist(pre);
    let wt = edges[ids[i] as int].2 as int;
    assert(no_shorter(edges, trail, k, w, cand));
    lemma_upto_none(edges, trail, k, w, cand);
    lemma_hits_zero(edges, ids, i, v, w, wt);
    assert(hits(edges, ids, i + 1, v, w, cand - dv) == 1);
    assert(Seq::<usize>::empty() + Seq::new(1nat, |q: int| v) =~= seq![v]);
    assert(joins(edges[ids[i] as int], v, w) && dv + edges[ids[i] as int].2 == cand);
}

/// An arrival at the same distance is added to what was there.
proof fn lemma_tie(
    pre: Search,
    post: Search,
    edges: Seq<(usize, usize, i64)>,
    ids: Seq<usize>,
    i: int,
    w: usize,
    cand: int,
)
    requires
        same_except(pre, post, w),
        w < pre.n(),
        pre.trail@.wf(),
        pre.trail@.len() >= 1,
        0 <= i < ids.len(),
        pre.pending(edges, ids, i, w),
        joins(edges[ids[i] as int], last_node(pre), w),
        cand == last_dist(pre) + edges[ids[i] as int].2,
        pre.tent@[w as int] == Some(cand as u128),
        cand as u128 == cand,
        post.tent@[w as int] == pre.tent@[w as int],
        post.pred@[w as int]@ == pre.pred@[w as int]@.push(last_node(pre)),
        post.counts@[w as int] == pre.counts@[w as int] + pre.trail@.sigma[pre.trail@.len() - 1],
    ensures
        post.pending(edges, ids, i + 1, w),
{
    let trail = pre.trail@;
    let k = trail.len() - 1;
    let v = last_node(pre);
    let dv = last_dist(pre);
    let h = hits(edges, ids, i, v, w, cand - dv);
    assert(hits(edges, ids, i + 1, v, w, cand - dv) == h + 1);
    let base = preds_upto(edges, trail, k, w, cand);
    assert((base + Seq::new(h, |q: int| v)).push(v) =~= base + Seq::new((h + 1) as nat, |q: int| v));
    assert(trail.sigma[k] * (h + 1) == trail.sigma[k] * h + trail.sigma[k]) by (nonlinear_arith);
}

/// An arrival at a greater distance changes nothing.
proof fn lemma_later(pre: Search, edges: Seq<(usize, usize, i64)>, ids: Seq<usize>, i: int, w: usize, cand: int)
    requires
        w < pre.n(),
        pre.trail@.len() >= 1,
        0 <= i < ids.len(),
        pre.pending(edges, ids, i, w),
        cand == last_dist(pre) + edges[ids[i] as int].2,
        pre.tent@[w as int] is Some,
        cand > pre.tent@[w as int].unwrap(),
    ensures
        pre.pending(edges, ids, i + 1, w),
{
    let v = last_node(pre);
    let dv = last_dist(pre);
    let t = pre.tent@[w as int].unwrap() as int;
    assert(hits(edges, ids, i + 1, v, w, t - dv) == hits(edges, ids, i, v, w, t - dv));
}

/// Once every edge at the node settled last has been gone through, a pending
/// node is parked.
proof fn lemma_park(search: Search, edges: Seq<(usize, usize, i64)>, ids: Seq<usize>, w: usize)
    requires
        search.trail@.wf(),
        search.trail@.len() >= 1,
        w < search.n(),
        lists_incident(edges, ids, last_node(search)),
        search.pending(edges, ids, ids.len() as int, w),
    ensures
        search.parked(edges, w),
{
    let trail = search.trail@;
    let k = trail.len() - 1;
    let v = last_node(search);
    let dv = last_dist(search);
    match search.tent@[w as int] {
        None => {
            assert forall|e: int, j: int|
                0 <= e < edges.len() && 0 <= j < trail.len() && j < trail.nodes.len() implies !#[trigger] joins(
                edges[e],
                trail.nodes[j],
                w,
            ) by {
                if j == k && joins(edges[e], trail.nodes[j], w) {
                    let p = choose|p: int| 0 <= p < ids.len() && #[trigger] ids[p] == e;
                    assert(!joins(edges[ids[p] as int], v, w));
                }
            }
        },
        Some(t) => {
            lemma_hits_total(edges, ids, v, w, t - dv);
            if reached(edges, trail, k, w, t as int) {
                let (e, j) = choose|e: int, j: int| j < k && #[trigger] hop(edges, trail, e, j, w, t as int);
                assert(j < trail.len() && hop(edges, trail, e, j, w, t as int));
            } else {
                let p = choose|p: int|
                    0 <= p < ids.len() && joins(edges[(#[trigger] ids[p]) as int], v, w) && dv + edges[ids[p] as int].2
                        == t;
                assert(hop(edges, trail, ids[p] as int, k, w, t as int));
            }
            assert forall|e: int, j: int|
                0 <= e < edges.len() && 0 <= j < trail.len() && j < trail.nodes.len() && #[trigger] joins(
                    edges[e],
                    trail.nodes[j],
                    w,
                ) implies trail.dist[j] + edges[e].2 >= t by {
                if j == k {
                    let p = choose|p: int| 0 <= p < ids.len() && #[trigger] ids[p] == e;
                    assert(joins(edges[ids[p] as int], v, w));
                }
            }
        },
    }
}

/// Brings the tentative values of the other end of the `i`-th listed edge up
/// to date.
fn relax_edge(
    search: &mut Search,
    edges: &Vec<(usize, usize, i64)>,
    ids: &Vec<usize>,
    i: usize,
    v: usize,
    dv: u128,
    sv: u128,
    Ghost(s): Ghost<usize>,
)
    requires
        i < ids@.len(),
        lists_incident(edges@, ids@, v),
        edges_fit(edges@, old(search).n()),
        old(search).n() <= u32::MAX,
        old(search).settled(edges@, s),
        v == last_node(*old(search)),
        dv == last_dist(*old(search)),
        sv == capped(old(search).trail@.sigma[old(search).trail@.len() - 1]),
        old(search).all_pending(edges@, ids@, i as int),
    ensures
        final(search).settled(edges@, s),
        final(search).trail@ == old(search).trail@,
        final(search).done@ == old(search).done@,
        final(search).all_pending(edges@, ids@, i + 1),
{
    let id = ids[i];
    let edge = edges[id];
    let wt = edge.2;
    let w = if edge.0 == v {
        edge.1
    } else {
        edge.0
    };
    let ghost pre = *search;
    let ghost trail = search.trail@;
    let ghost k = trail.len() - 1;
    proof {
        assert(edges@[id as int].0 == v || edges@[id as int].1 == v);
        assert(pre.entry_ok(k));
        assert(0 <= pre.counts@[v as int]);
    }
    if !search.done[w] {
        proof {
            lemma_trail_short(pre, edges@, s, w);
        }
        let cand: u128 = dv + (wt as u128);
        let seen = search.tent[w];
        proof {
            assert(pre.pending(edges@, ids@, i as int, w));
            assert(0 <= pre.counts@[w as int] && pre.sigma@[w as int] == capped(pre.counts@[w as int]));
        }
        match seen {
            None => {
                let mut row: Vec<usize> = Vec::new();
                row.push(v);
                search.tent.set(w, Some(cand));
                search.sigma.set(w, sv);
                search.pred[w] = row;
                proof {
                    search.counts = Ghost(search.counts@.update(w as int, trail.sigma[k]));
                    lemma_improve(pre, *search, edges@, ids@, i as int, w, cand as int);
                    lemma_keep_settled(pre, *search, edges@, s, w);
                }
            },
            Some(t) => {
                if cand < t {
                    let mut row: Vec<usize> = Vec::new();
                    row.push(v);
                    search.tent.set(w, Some(cand));
                    search.sigma.set(w, sv);
                    search.pred[w] = row;
                    proof {
                        search.counts = Ghost(search.counts@.update(w as int, trail.sigma[k]));
                        lemma_improve(pre, *search, edges@, ids@, i as int, w, cand as int);
                        lemma_keep_settled(pre, *search, edges@, s, w);
                    }
                } else if cand == t {
                    let sum: u128 = search.sigma[w] + sv;
                    let stored: u128 = if sum > PATH_CAP {
                        PATH_CAP
                    } else {
                        sum
                    };
                    search.sigma.set(w, stored);
                    search.pred[w].push(v);
                    proof {
                        search.counts = Ghost(
                            search.counts@.update(w as int, pre.counts@[w as int] + trail.sigma[k]),
                        );
                        lemma_tie(pre, *search, edges@, ids@, i as int, w, cand as int);
                        assert(pre.tent@[w as int].unwrap() <= trail.len() * MAX_WEIGHT);
                        lemma_keep_settled(pre, *search, edges@, s, w);
                    }
                } else {
                    proof {
                        lemma_later(pre, edges@, ids@, i as int, w, cand as int);
                    }
                }
            },
        }
    }
    proof {
        assert forall|x: usize| x < search.n() && !search.done@[x as int] implies #[trigger] search.pending(
            edges@,
            ids@,
            i + 1,
            x,
        ) by {
            if x != w {
                assert(pre.pending(edges@, ids@, i as int, x));
                lemma_keep_pending(pre, *search, edges@, ids@, i as int, w, x);
            }
        }
    }
}

/// Goes through the edges at the node settled last and brings the tentative
/// values of its unsettled neighbours up to date: a strictly shorter arrival
/// replaces what was there, an arrival at the same distance is added to it.
fn relax(
    search: &mut Search,
    g: &Graph<GitFile, i64, Undirected>,
    edges: &Vec<(usize, usize, i64)>,
    Ghost(s): Ghost<usize>,
)
    requires
        edges@ == graph_edges(*g),
        old(search).n() == graph_nodes(*g).len(),
        old(search).n() <= u32::MAX,
        edges_fit(edges@, old(search).n()),
        old(search).settled(edges@, s),
        old(search).all_pending(edges@, Seq::<usize>::empty(), 0),
    ensures
        final(search).settled(edges@, s),
        final(search).all_parked(edges@),
        final(search).n() == old(search).n(),
        final(search).stack@ == old(search).stack@,
{
    let k = search.stack.len() - 1;
    let v = search.stack[k];
    let ghost trail = search.trail@;
    let ghost done0 = search.done@;
    proof {
        assert(search.entry_ok(k as int));
    }
    let dv: u128 = match search.tent[v] {
        Some(t) => t,
        None => 0,
    };
    let sv: u128 = search.sigma[v];
    let ids = incident_edges(g, v);
    proof {
        assert forall|w: usize| w < search.n() && !search.done@[w as int] implies #[trigger] search.pending(
            edges@,
            ids@,
            0,
            w,
        ) by {
            assert(search.pending(edges@, Seq::<usize>::empty(), 0, w));
        }
    }
    let mut i: usize = 0;
    while i < ids.len()
        invariant
            i <= ids.len(),
            lists_incident(edges@, ids@, v),
            edges_fit(edges@, search.n()),
            search.n() <= u32::MAX,
            search.settled(edges@, s),
            search.trail@ == trail,
            search.done@ == done0,
            v == last_node(*search),
            dv == last_dist(*search),
            sv == capped(trail.sigma[trail.len() - 1]),
            search.all_pending(edges@, ids@, i as int),
        decreases ids.len() - i,
    {
        relax_edge(search, edges, &ids, i, v, dv, sv, Ghost(s));
        i += 1;
    }
    proof {
        assert forall|w: usize| w < search.n() && !search.done@[w as int] implies #[trigger] search.parked(
            edges@,
            w,
        ) by {
            assert(search.pending(edges@, ids@, ids@.len() as int, w));
            lemma_park(*search, edges@, ids@, w);
        }
    }
}

/// The state in which only the source is settled, and nothing is known of
/// the other nodes yet.
fn start(n: usize, s: usize, Ghost(edges): Ghost<Seq<(usize, usize, i64)>>) -> (search: Search)
    requires
        s < n,
    ensures
        search.n() == n,
        search.settled(edges, s),
        search.all_pending(edges, Seq::<usize>::empty(), 0),
{
    let mut done: Vec<bool> = Vec::new();
    let mut tent: Vec<Option<u128>> = Vec::new();
    let mut sigma: Vec<u128> = Vec::new();
    let mut pred: Vec<Vec<usize>> = Vec::new();
    let mut x: usize = 0;
    while x < n
        invariant
            x <= n,
            done@.len() == x,
            tent@.len() == x,
            sigma@.len() == x,
            pred@.len() == x,
            forall|y: int| 0 <= y < x ==> !done@[y],
            forall|y: int| 0 <= y < x ==> (#[trigger] tent@[y]) is None,
            forall|y: int| 0 <= y < x ==> (#[trigger] sigma@[y]) == 0,
            forall|y: int| 0 <= y < x ==> (#[trigger] pred@[y])@ == Seq::<usize>::empty(),
        decreases n - x,
    {
        done.push(false);
        tent.push(None);
        sigma.push(0);
        pred.push(Vec::new());
        x += 1;
    }
    done.set(s, true);
    tent.set(s, Some(0));
    sigma.set(s, 1);
    let mut stack: Vec<usize> = Vec::new();
    stack.push(s);
    let ghost trail = Trail { nodes: seq![s], dist: seq![0int], sigma: seq![1int] };
    let ghost counts = Seq::new(n as nat, |y: int| if y == s { 1int } else { 0int });
    let search = Search { done, tent, sigma, pred, stack, trail: Ghost(trail), counts: Ghost(counts) };
    proof {
        assert(search.entry_ok(0));
        assert(trail.nodes[0] == s);
        assert forall|w: usize| w < search.n() && !search.done@[w as int] implies #[trigger] search.pending(
            edges,
            Seq::<usize>::empty(),
            0,
            w,
        ) by {
            assert(search.tent@[w as int] is None);
        }
    }
    search
}

/// What a finished search has found, as a view.
spec fn found(search: Search, s: usize) -> SearchView {
    SearchView {
        start: s,
        stack: search.stack@,
        dist: Seq::new(
            search.tent@.len(),
            |x: int|
                match search.tent@[x] {
                    Some(d) => Some(d as int),
                    None => None,
                },
        ),
        sigma: search.counts@,
        pred: Seq::new(search.pred@.len(), |x: int| search.pred@[x]@),
    }
}

/// When no unsettled node is reached any more, what was found is the
/// outcome of the search.
proof fn lemma_finished(search: Search, edges: Seq<(usize, usize, i64)>, s: usize)
    requires
        search.settled(edges, s),
        search.all_parked(edges),
        picked(search, None),
        edges_fit(edges, search.n()),
    ensures
        is_search(edges, search.n() as nat, s, found(search, s)),
        found(search, s).trail() == search.trail@,
{
    let view = found(search, s);
    let trail = search.trail@;
    let n = search.n();
    assert(view.trail() == trail) by {
        assert forall|j: int| 0 <= j < trail.len() implies view.trail().dist[j] == trail.dist[j]
            && view.trail().sigma[j] == trail.sigma[j] by {
            assert(search.entry_ok(j));
        }
        assert(view.trail().dist =~= trail.dist);
        assert(view.trail().sigma =~= trail.sigma);
    }
    assert(search.entry_ok(0));
    assert forall|j: int| 0 <= j < view.stack.len() implies (#[trigger] view.stack[j]) < n by {
        assert(search.entry_ok(j));
    }
    assert forall|x: usize| x < n implies ((#[trigger] view.dist[x as int]) is Some <==> view.stack.contains(x)) by {
        if view.stack.contains(x) {
            let j = choose|j: int| 0 <= j < view.stack.len() && view.stack[j] == x;
            assert(search.entry_ok(j));
        }
        if view.dist[x as int] is Some {
            assert(search.tent@[x as int] is Some);
            assert(search.done@[x as int]);
        }
    }
    assert forall|x: usize| x < n && !view.stack.contains(x) implies (#[trigger] view.sigma[x as int]) == 0
        && view.pred[x as int] == Seq::<usize>::empty() by {
        if search.done@[x as int] {
            assert(trail.nodes.contains(x));
        }
        assert(search.parked(edges, x));
        assert(search.tent@[x as int] is None);
    }
    assert forall|p: int| 1 <= p < view.stack.len() implies #[trigger] settled_right(edges, view.trail(), p)
        && view.pred[view.stack[p] as int] == preds_upto(
        edges,
        view.trail(),
        p,
        view.stack[p],
        view.trail().dist[p],
    ) by {
        assert(settled_right(edges, trail, p));
        assert(search.entry_ok(p));
    }
    assert forall|e: int, j: int, x: usize|
        0 <= e < edges.len() && 0 <= j < view.stack.len() && #[trigger] joins(
            edges[e],
            view.stack[j],
            x,
        ) implies view.stack.contains(x) by {
        assert(x < n);
        if !search.done@[x as int] {
            assert(search.parked(edges, x));
            assert(search.tent@[x as int] is None);
            assert(joins(edges[e], trail.nodes[j], x));
        }
    }
}

/// Turns the finished state into the result, or reports that a path count
/// does not fit.
fn finish(search: Search, s: usize, Ghost(edges): Ghost<Seq<(usize, usize, i64)>>) -> (result: Result<
    BrandesNet,
    GraphError,
>)
    requires
        search.settled(edges, s),
        search.all_parked(edges),
        picked(search, None),
        edges_fit(edges, search.n()),
    ensures
        match result {
            Ok(net) => is_search(edges, search.n() as nat, s, net@),
            Err(GraphError::PathCountOverflow) => exists|view: SearchView| #[trigger]
                is_overflowing_search(edges, search.n() as nat, s, view),
            Err(_) => false,
        },
{
    let n = search.done.len();
    let ghost view = found(search, s);
    proof {
        lemma_finished(search, edges, s);
    }
    let mut sigma: Vec<u64> = Vec::new();
    let mut x: usize = 0;
    while x < n
        invariant
            x <= n,
            n == search.n(),
            search.settled(edges, s),
            view == found(search, s),
            is_search(edges, search.n() as nat, s, view),
            sigma@.len() == x,
            forall|y: int| 0 <= y < x ==> (#[trigger] sigma@[y]) == search.counts@[y],
        decreases n - x,
    {
        let count = search.sigma[x];
        proof {
            assert(0 <= search.counts@[x as int] && search.sigma@[x as int] == capped(search.counts@[x as int]));
        }
        if count > 0xffff_ffff_ffff_ffffu128 {
            proof {
                assert(view.sigma[x as int] > u64::MAX);
                assert(is_overflowing_search(edges, search.n() as nat, s, view));
            }
            return Err(GraphError::PathCountOverflow);
        }
        sigma.push(count as u64);
        x += 1;
    }
    let net = BrandesNet { stack: search.stack, pred: search.pred, sigma, dist: search.tent, start: s };
    proof {
        assert(net@.sigma =~= view.sigma);
        assert(net@.dist =~= view.dist);
        assert(net@.pred =~= view.pred);
        assert(net@ == view);
    }
    Ok(net)
}

/// Whether some edge carries a negative weight.
fn has_negative_weight(edges: &Vec<(usize, usize, i64)>) -> (found: bool)
    ensures
        found == !weights_valid(edges@),
{
    let mut e: usize = 0;
    while e < edges.len()
        invariant
            e <= edges@.len(),
            forall|f: int| 0 <= f < e ==> (#[trigger] edges@[f]).2 >= 0,
        decreases edges@.len() - e,
    {
        if edges[e].2 < 0 {
            return true;
        }
        e += 1;
    }
    false
}

/// Searches the graph from `s`: Dijkstra's algorithm, extended to count the
/// shortest paths to every node and to record every predecessor on one.
///
/// Edge weights are distances and must not be negative; a graph with a
/// negative weight is refused with `InvalidWeight`. Nodes are settled in
/// order of distance from `s`, the smaller index first where two are equally
/// far, and a settled node is never changed again. The result is refused
/// with `PathCountOverflow` where some node has more shortest paths than a
/// `u64` holds.
pub fn single_source_dijkstra_path(g: &Graph<GitFile, i64, Undirected>, s: usize) -> (result: Result<
    BrandesNet,
    GraphError,
>)
    requires
        s < graph_nodes(*g).len(),
    ensures
        match result {
            Ok(net) => is_search(graph_edges(*g), graph_nodes(*g).len(), s, net@),
            Err(error) => error != GraphError::InvalidRecord,
        },
        (result matches Err(error) && error == GraphError::InvalidWeight) <==> !weights_valid(graph_edges(*g)),
        (result matches Err(error) && error == GraphError::PathCountOverflow) <==> weights_valid(graph_edges(*g))
            && exists|view: SearchView| #[trigger]
            is_overflowing_search(graph_edges(*g), graph_nodes(*g).len(), s, view),
{
    let n = node_count(g);
    let edges = edge_list(g);
    if has_negative_weight(&edges) {
        return Err(GraphError::InvalidWeight);
    }
    let mut search = start(n, s, Ghost(edges@));
    relax(&mut search, g, &edges, Ghost(s));
    let mut next = pick(&search);
    while next.is_some()
        invariant
            edges@ == graph_edges(*g),
            n == graph_nodes(*g).len(),
            n <= u32::MAX,
            search.n() == n,
            edges_fit(edges@, n as int),
            search.settled(edges@, s),
            search.all_parked(edges@),
            picked(search, next),
        decreases n - search.stack@.len(),
    {
        let v = next.unwrap();
        proof {
            lemma_trail_short(search, edges@, s, v);
        }
        settle(&mut search, Ghost(edges@), Ghost(s), v);
        relax(&mut search, g, &edges, Ghost(s));
        next = pick(&search);
    }
    let result = finish(search, s, Ghost(edges@));
    proof {
        if result is Ok {
            let found = result->Ok_0@;
            assert forall|view: SearchView| !#[trigger] is_overflowing_search(edges@, n as nat, s, view) by {
                if is_overflowing_search(edges@, n as nat, s, view) {
                    law_search_unique(edges@, n as nat, s, view, found);
                }
            }
        }
    }
    result
}

/// What the summed dependencies of a graph of `n` nodes are divided by to
/// normalise them: the number of ordered pairs of other nodes that a node
/// can lie between, or 1 where there is no such pair.
pub fn normalization_divisor(n: usize) -> (divisor: u128)
    ensures
        divisor == if n <= 2 {
            1
        } else {
            (n - 1) * (n - 2)
        },
        divisor >= 1,
{
    if n <= 2 {
        1
    } else {
        let a: u128 = (n - 1) as u128;
        let b: u128 = (n - 2) as u128;
        assert(a * b <= 0xffff_ffff_ffff_ffff * 0xffff_ffff_ffff_ffff) by (nonlinear_arith)
            requires
                0 <= a <= 0xffff_ffff_ffff_ffff,
                0 <= b <= 0xffff_ffff_ffff_ffff,
        ;
        assert(a * b >= 1) by (nonlinear_arith)
            requires
                a >= 1,
                b >= 1,
        ;
        a * b
    }
}

} // verus!
