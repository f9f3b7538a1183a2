//! The neighbourhood of a node: what is reached from it in a few steps.

use crate::git_graph::{GitFile, GitGraph};
use crate::store::{edge_list, graph_edges, graph_nodes, incident_edges, lists_incident, node_count};
use petgraph::graph::Graph;
use petgraph::Undirected;
use std::collections::HashSet;
use vstd::prelude::*;

verus! {

/// Whether the edge has `v` as an endpoint.
pub open spec fn touches(edge: (usize, usize, i64), v: usize) -> bool {
    edge.0 == v || edge.1 == v
}

/// The end of an edge at `v` that is not `v`, or `v` for a loop.
pub open spec fn other_end(edge: (usize, usize, i64), v: usize) -> usize {
    if edge.0 == v {
        edge.1
    } else {
        edge.0
    }
}

/// Whether `x` is reached from `v` by fewer than `depth` steps along edges.
/// Nothing is within depth 0, `v` itself is within any other depth.
pub open spec fn within(edges: Seq<(usize, usize, i64)>, v: usize, x: usize, depth: nat) -> bool
    decreases depth,
{
    depth > 0 && (x == v || exists|e: int|
        0 <= e < edges.len() && touches(#[trigger] edges[e], v) && within(
            edges,
            other_end(edges[e], v),
            x,
            (depth - 1) as nat,
        ))
}

/// The nodes within `depth` of `v`.
pub open spec fn neighbourhood(edges: Seq<(usize, usize, i64)>, v: usize, depth: nat) -> Set<usize> {
    Set::new(|x: usize| within(edges, v, x, depth))
}

/// `x` is within `depth` of the other end of one of the first `i` listed
/// edges at `v`.
spec fn over_listed(edges: Seq<(usize, usize, i64)>, ids: Seq<usize>, i: int, v: usize, x: usize, depth: nat) -> bool {
    exists|p: int| 0 <= p < i && within(edges, other_end(edges[(#[trigger] ids[p]) as int], v), x, depth)
}

/// Adds to `seen` every node within `depth` of `v`.
fn collect_neighbors(
    v: usize,
    g: &Graph<GitFile, i64, Undirected>,
    edges: &Vec<(usize, usize, i64)>,
    depth: u64,
    seen: &mut HashSet<usize>,
)
    requires
        edges@ == graph_edges(*g),
        forall|e: int|
            0 <= e < edges@.len() ==> (#[trigger] edges@[e]).0 < graph_nodes(*g).len() && edges@[e].1 < graph_nodes(
                *g,
            ).len(),
    ensures
        forall|x: usize| #[trigger]
            final(seen)@.contains(x) <==> old(seen)@.contains(x) || within(edges@, v, x, depth as nat),
    decreases depth,
{
    broadcast use vstd::std_specs::hash::group_hash_axioms;

    let ghost before = seen@;
    if depth == 0 {
        return ;
    }
    seen.insert(v);
    let n = node_count(g);
    if v >= n {
        proof {
            assert forall|x: usize| within(edges@, v, x, depth as nat) implies x == v by {
                if x != v {
                    let e = choose|e: int|
                        0 <= e < edges@.len() && touches(#[trigger] edges@[e], v) && within(
                            edges@,
                            other_end(edges@[e], v),
                            x,
                            (depth - 1) as nat,
                        );
                    assert(edges@[e].0 < n);
                }
            }
        }
        return ;
    }
    let ids = incident_edges(g, v);
    let ghost less = (depth - 1) as nat;
    let mut i: usize = 0;
    while i < ids.len()
        invariant
            i <= ids@.len(),
            depth > 0,
            less == depth - 1,
            edges@ == graph_edges(*g),
            forall|e: int|
                0 <= e < edges@.len() ==> (#[trigger] edges@[e]).0 < graph_nodes(*g).len() && edges@[e].1
                    < graph_nodes(*g).len(),
            lists_incident(edges@, ids@, v),
            forall|x: usize| #[trigger]
                seen@.contains(x) <==> before.contains(x) || x == v || over_listed(edges@, ids@, i as int, v, x, less),
        decreases ids@.len() - i,
    {
        let edge = edges[ids[i]];
        let next = if edge.0 == v {
            edge.1
        } else {
            edge.0
        };
        let ghost held = seen@;
        collect_neighbors(next, g, edges, depth - 1, seen);
        proof {
            assert(next == other_end(edges@[ids@[i as int] as int], v));
            assert forall|x: usize| #[trigger]
                seen@.contains(x) <==> before.contains(x) || x == v || over_listed(
                    edges@,
                    ids@,
                    i + 1,
                    v,
                    x,
                    less,
                ) by {
                let is_new = within(edges@, next, x, less);
                assert(seen@.contains(x) <==> held.contains(x) || is_new);
                assert(held.contains(x) <==> before.contains(x) || x == v || over_listed(
                    edges@,
                    ids@,
                    i as int,
                    v,
                    x,
                    less,
                ));
                if is_new {
                    assert(within(edges@, other_end(edges@[ids@[i as int] as int], v), x, less));
                }
                if over_listed(edges@, ids@, i as int, v, x, less) {
                    let p = choose|p: int|
                        0 <= p < i && within(edges@, other_end(edges@[(#[trigger] ids@[p]) as int], v), x, less);
                    assert(0 <= p < i + 1);
                }
                if over_listed(edges@, ids@, i + 1, v, x, less) {
                    let p = choose|p: int|
                        0 <= p < i + 1 && within(edges@, other_end(edges@[(#[trigger] ids@[p]) as int], v), x, less);
                    if p < i {
                        assert(over_listed(edges@, ids@, i as int, v, x, less));
                    }
                }
            }
        }
        i += 1;
    }
    proof {
        assert forall|x: usize| #[trigger]
            seen@.contains(x) <==> before.contains(x) || within(edges@, v, x, depth as nat) by {
            assert(seen@.contains(x) <==> before.contains(x) || x == v || over_listed(
                edges@,
                ids@,
                ids@.len() as int,
                v,
                x,
                less,
            ));
            let all = ids@.len() as int;
            if within(edges@, v, x, depth as nat) && x != v {
                let e = choose|e: int|
                    0 <= e < edges@.len() && touches(#[trigger] edges@[e], v) && within(
                        edges@,
                        other_end(edges@[e], v),
                        x,
                        less,
                    );
                let p = choose|p: int| 0 <= p < ids@.len() && #[trigger] ids@[p] == e;
                assert(within(edges@, other_end(edges@[ids@[p] as int], v), x, less));
                assert(over_listed(edges@, ids@, all, v, x, less));
            }
            if over_listed(edges@, ids@, all, v, x, less) {
                let p = choose|p: int|
                    0 <= p < all && within(edges@, other_end(edges@[(#[trigger] ids@[p]) as int], v), x, less);
                let e = ids@[p] as int;
                assert(touches(edges@[e], v));
                assert(within(edges@, v, x, depth as nat));
            }
        }
    }
}

/// The nodes that are reached from node `idx` by fewer than `depth` steps:
/// none for depth 0, `idx` alone for depth 1, its neighbours too for depth
/// 2, and so on. An `idx` that is no node of the graph has no neighbours.
pub fn recurse_neighbors(idx: usize, graph: &GitGraph, depth: u64) -> (near: HashSet<usize>)
    ensures
        near@ == neighbourhood(graph.edges(), idx, depth as nat),
{
    broadcast use vstd::std_specs::hash::group_hash_axioms;

    let g = graph.graph();
    let edges = edge_list(g);
    let mut near: HashSet<usize> = HashSet::new();
    collect_neighbors(idx, g, &edges, depth, &mut near);
    proof {
        assert(near@ =~= neighbourhood(graph.edges(), idx, depth as nat));
    }
    near
}

} // verus!
