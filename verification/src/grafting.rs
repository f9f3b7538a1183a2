//! Bringing the nodes and edges of one graph into another: the step that
//! merging two graphs and dropping deleted files share.

use crate::coupling::{
    appends, came_from, coupling, distinct_paths, grafted_edges, has_path, keeps, kept_weight,
    lemma_coupling_push, lemma_one_link, lemma_place, lemma_weight_grows, lemma_weight_of_link,
    lemma_weight_update, linked, links, lists_path, live_nodes, maps_to, moved, path_of, simple_edges,
    sourced, targets, weights_from,
};
use crate::git_graph::{
    copy_file, is_listed, GitFile,
};
use crate::store::{
    add_edge, add_node, edge_weight, find_edge, graph_edges, graph_nodes, joins, node_count, node_weight,
    set_edge_weight,
};
use crate::names::{indexes, lookup, remember};
use petgraph::graph::Graph;
use std::collections::HashMap;
use petgraph::Undirected;
use vstd::prelude::*;

verus! {

/// Brings the nodes of `source` into `target`. A node whose path is on the
/// `skip` list is left out; one whose path `target` holds already is unified
/// with that node; any other is appended. Returns, for each node of
/// `source`, the index it has in `target`. `names` is the name table of
/// `target` and is kept up to date.
pub(crate) fn graft_nodes(
    target: &mut Graph<GitFile, i64, Undirected>,
    names: &mut HashMap<u64, Vec<usize>>,
    source: &Graph<GitFile, i64, Undirected>,
    skip: &Vec<String>,
) -> (rewrite: Vec<Option<usize>>)
    requires
        indexes(old(names)@, graph_nodes(*old(target))),
        distinct_paths(graph_nodes(*old(target))),
        live_nodes(graph_nodes(*old(target))),
        distinct_paths(graph_nodes(*source)),
        live_nodes(graph_nodes(*source)),
        graph_nodes(*old(target)).len() + graph_nodes(*source).filter(
            keeps(graph_nodes(*old(target)), skip@),
        ).len() <= u32::MAX,
    ensures
        graph_nodes(*final(target)) == graph_nodes(*old(target)) + graph_nodes(*source).filter(
            keeps(graph_nodes(*old(target)), skip@),
        ),
        graph_edges(*final(target)) == graph_edges(*old(target)),
        indexes(final(names)@, graph_nodes(*final(target))),
        distinct_paths(graph_nodes(*final(target))),
        live_nodes(graph_nodes(*final(target))),
        rewrite@.len() == graph_nodes(*source).len(),
        maps_to(
            rewrite@,
            graph_nodes(*source),
            graph_nodes(*final(target)),
            skip@,
            graph_nodes(*source).len() as int,
        ),
        forall|t: int|
            graph_nodes(*old(target)).len() <= t < graph_nodes(*final(target)).len() ==> #[trigger] targets(
                rewrite@,
                rewrite@.len() as int,
                t,
            ),
{
    let ghost base = graph_nodes(*target);
    let ghost from = graph_nodes(*source);
    let ghost keep = keeps(base, skip@);
    let n = node_count(source);
    let mut rewrite: Vec<Option<usize>> = Vec::new();
    let mut i: usize = 0;
    proof {
        assert(from.take(0) =~= Seq::<GitFile>::empty());
        reveal(Seq::filter);
        assert(graph_nodes(*target) =~= base + from.take(0).filter(keep));
    }
    while i < n
        invariant
            i <= n,
            n == from.len(),
            from == graph_nodes(*source),
            keep == keeps(base, skip@),
            distinct_paths(from),
            live_nodes(from),
            from.len() <= u32::MAX,
            base.len() + from.filter(keep).len() <= u32::MAX,
            graph_nodes(*target) == base + from.take(i as int).filter(keep),
            graph_edges(*target) == graph_edges(*old(target)),
            indexes(names@, graph_nodes(*target)),
            distinct_paths(graph_nodes(*target)),
            live_nodes(graph_nodes(*target)),
            rewrite@.len() == i,
            maps_to(rewrite@, from, graph_nodes(*target), skip@, i as int),
            forall|t: int|
                base.len() <= t < graph_nodes(*target).len() ==> #[trigger] targets(rewrite@, i as int, t),
        decreases n - i,
    {
        let ghost nodes = graph_nodes(*target);
        let ghost before = rewrite@;
        proof {
            assert(from.take(i + 1) =~= from.take(i as int).push(from[i as int]));
            from.take(i as int).lemma_filter_push(from[i as int], keep);
            from.lemma_filter_take_len(keep, i + 1);
        }
        match node_weight(source, i) {
            Some(file) => {
                if is_listed(skip, &file.name) {
                    rewrite.push(None);
                } else {
                    match lookup(names, target, &file.name) {
                        Some(t) => {
                            proof {
                                if t >= base.len() {
                                    assert(targets(before, i as int, t as int));
                                    let j = choose|j: int| 0 <= j < i && #[trigger] before[j] == Some(t as usize);
                                    assert(path_of(from, j) == path_of(nodes, t as int));
                                    assert(path_of(from, j) == path_of(from, i as int));
                                }
                                assert(path_of(base, t as int) == file.name@);
                                assert(has_path(base, file.name@));
                            }
                            rewrite.push(Some(t));
                        },
                        None => {
                            proof {
                                if has_path(base, file.name@) {
                                    let t = choose|t: int| 0 <= t < base.len() && #[trigger] path_of(base, t) == file.name@;
                                    assert(path_of(nodes, t) == file.name@);
                                }
                            }
                            let t = add_node(target, copy_file(file));
                            remember(names, &file.name, t, Ghost(nodes), Ghost(graph_nodes(*target)));
                            rewrite.push(Some(t));
                            proof {
                                let grown = graph_nodes(*target);
                                assert forall|a: int, b: int|
                                    0 <= a < grown.len() && 0 <= b < grown.len() && a != b implies #[trigger] path_of(
                                    grown,
                                    a,
                                ) != #[trigger] path_of(grown, b) by {
                                    if a < nodes.len() {
                                        assert(path_of(nodes, a) == path_of(grown, a));
                                    }
                                    if b < nodes.len() {
                                        assert(path_of(nodes, b) == path_of(grown, b));
                                    }
                                }
                                assert(rewrite@[i as int] == Some(t));
                            }
                        },
                    }
                }
            },
            None => {},
        }
        proof {
            let grown = graph_nodes(*target);
            assert forall|j: int| 0 <= j < i + 1 implies match #[trigger] rewrite@[j] {
                Some(t) => t < grown.len() && path_of(grown, t as int) == path_of(from, j) && !lists_path(
                    skip@,
                    path_of(from, j),
                ),
                None => lists_path(skip@, path_of(from, j)),
            } by {
                if j < i {
                    assert(rewrite@[j] == before[j]);
                    match before[j] {
                        Some(t) => {
                            assert(path_of(nodes, t as int) == path_of(grown, t as int));
                        },
                        None => {},
                    }
                }
            }
            assert forall|t: int| base.len() <= t < grown.len() implies #[trigger] targets(rewrite@, i + 1, t) by {
                if t < nodes.len() {
                    assert(targets(before, i as int, t));
                    let j = choose|j: int| 0 <= j < i && #[trigger] before[j] == Some(t as usize);
                    assert(rewrite@[j] == Some(t as usize));
                } else {
                    assert(rewrite@[i as int] == Some(t as usize));
                }
            }
        }
        i += 1;
    }
    proof {
        assert(from.take(n as int) =~= from);
    }
    rewrite
}

/// Every pair is coupled in `edges` as it was in `base`, plus what the first
/// `e` edges of the other graph give it.
pub open spec fn grafted(
    nodes: Seq<GitFile>,
    base: Seq<(usize, usize, i64)>,
    edges: Seq<(usize, usize, i64)>,
    from: Seq<GitFile>,
    other: Seq<(usize, usize, i64)>,
    skip: Seq<String>,
    e: int,
) -> bool {
    forall|x: Seq<char>, y: Seq<char>| #[trigger]
        coupling(nodes, edges, x, y) == coupling(nodes, base, x, y) + kept_weight(from, other, skip, e, x, y)
}

/// Together, no pair is coupled more strongly than an `i64` can say.
pub open spec fn couplings_fit(
    nodes: Seq<GitFile>,
    base: Seq<(usize, usize, i64)>,
    from: Seq<GitFile>,
    other: Seq<(usize, usize, i64)>,
) -> bool {
    forall|x: Seq<char>, y: Seq<char>| #[trigger]
        coupling(nodes, base, x, y) + coupling(from, other, x, y) <= i64::MAX
}

/// An edge with an endpoint that is left out gives no pair anything.
proof fn lemma_graft_skip(
    from: Seq<GitFile>,
    other: Seq<(usize, usize, i64)>,
    skip: Seq<String>,
    e: int,
    x: Seq<char>,
    y: Seq<char>,
)
    requires
        0 <= e < other.len(),
        lists_path(skip, path_of(from, other[e].0 as int)) || lists_path(skip, path_of(from, other[e].1 as int)),
    ensures
        kept_weight(from, other, skip, e + 1, x, y) == kept_weight(from, other, skip, e, x, y),
{
}

/// What a grafted edge gives a pair is what the edge it was taken from gives it.
proof fn lemma_graft_link(
    nodes: Seq<GitFile>,
    edge: (usize, usize, i64),
    from: Seq<GitFile>,
    other: Seq<(usize, usize, i64)>,
    skip: Seq<String>,
    e: int,
    x: Seq<char>,
    y: Seq<char>,
)
    requires
        0 <= e < other.len(),
        joins(edge, edge.0, edge.1),
        (path_of(nodes, edge.0 as int) == path_of(from, other[e].0 as int) && path_of(nodes, edge.1 as int)
            == path_of(from, other[e].1 as int)) || (path_of(nodes, edge.0 as int) == path_of(
            from,
            other[e].1 as int,
        ) && path_of(nodes, edge.1 as int) == path_of(from, other[e].0 as int)),
        !lists_path(skip, path_of(from, other[e].0 as int)),
        !lists_path(skip, path_of(from, other[e].1 as int)),
    ensures
        links(nodes, edge, x, y) == links(from, other[e], x, y),
        kept_weight(from, other, skip, e + 1, x, y) == kept_weight(from, other, skip, e, x, y) + if links(
            nodes,
            edge,
            x,
            y,
        ) {
            other[e].2 as int
        } else {
            0
        },
{
}

/// Adding the weight of the `e`-th edge of the other graph to the edge that
/// connects the same pair here does not overflow.
proof fn lemma_graft_fits(
    nodes: Seq<GitFile>,
    base: Seq<(usize, usize, i64)>,
    edges: Seq<(usize, usize, i64)>,
    f: int,
    from: Seq<GitFile>,
    other: Seq<(usize, usize, i64)>,
    skip: Seq<String>,
    e: int,
)
    requires
        0 <= e < other.len(),
        0 <= f < edges.len(),
        distinct_paths(nodes),
        simple_edges(nodes.len() as int, edges),
        weights_from(other, 0),
        grafted(nodes, base, edges, from, other, skip, e),
        couplings_fit(nodes, base, from, other),
        (path_of(nodes, edges[f].0 as int) == path_of(from, other[e].0 as int) && path_of(nodes, edges[f].1 as int)
            == path_of(from, other[e].1 as int)) || (path_of(nodes, edges[f].0 as int) == path_of(
            from,
            other[e].1 as int,
        ) && path_of(nodes, edges[f].1 as int) == path_of(from, other[e].0 as int)),
        !lists_path(skip, path_of(from, other[e].0 as int)),
        !lists_path(skip, path_of(from, other[e].1 as int)),
    ensures
        edges[f].2 + other[e].2 <= i64::MAX,
{
    let x = path_of(from, other[e].0 as int);
    let y = path_of(from, other[e].1 as int);
    assert(links(nodes, edges[f], x, y));
    lemma_weight_of_link(nodes, edges, f, edges.len() as int, x, y);
    assert(coupling(nodes, edges, x, y) == edges[f].2);
    assert(coupling(nodes, edges, x, y) == coupling(nodes, base, x, y) + kept_weight(from, other, skip, e, x, y));
    assert(coupling(nodes, base, x, y) + coupling(from, other, x, y) <= i64::MAX);
    assert(links(from, other[e], x, y));
    lemma_weight_grows(from, other, e + 1, other.len() as int, x, y);
}

/// An edge that connects the pair of the `e`-th edge of the other graph was
/// there from the start: none of the edges appended so far connects it.
proof fn lemma_found_in_base(
    nodes: Seq<GitFile>,
    base: Seq<(usize, usize, i64)>,
    edges: Seq<(usize, usize, i64)>,
    f: int,
    from: Seq<GitFile>,
    other: Seq<(usize, usize, i64)>,
    e: int,
    ta: usize,
    tb: usize,
)
    requires
        0 <= e < other.len(),
        base.len() <= edges.len(),
        0 <= f < edges.len(),
        distinct_paths(from),
        simple_edges(from.len() as int, other),
        forall|g: int| 0 <= g < base.len() ==> (#[trigger] edges[g]).0 == base[g].0 && edges[g].1 == base[g].1,
        forall|t: int| base.len() <= t < edges.len() ==> sourced(#[trigger] edges[t], nodes, other, from, e),
        joins(edges[f], ta, tb),
        path_of(nodes, ta as int) == path_of(from, other[e].0 as int),
        path_of(nodes, tb as int) == path_of(from, other[e].1 as int),
    ensures
        f < base.len(),
        linked(nodes, base, path_of(from, other[e].0 as int), path_of(from, other[e].1 as int)),
{
    let x = path_of(from, other[e].0 as int);
    let y = path_of(from, other[e].1 as int);
    if f >= base.len() {
        assert(sourced(edges[f], nodes, other, from, e));
        let k = choose|k: int| k < e && #[trigger] came_from(edges[f], nodes, other, from, k);
        assert(links(from, other[k], x, y));
        assert(links(from, other[e], x, y));
        lemma_one_link(from, other, k, e, x, y);
    }
    assert(links(nodes, base[f], x, y));
}

/// Brings the edges of another graph into `target`, whose nodes already
/// hold the other graph's nodes as `rewrite` says. An edge with an endpoint
/// that was left out is left out; one whose pair `target` connects already
/// adds its weight to that edge; any other is appended.
pub(crate) fn graft_edges(
    target: &mut Graph<GitFile, i64, Undirected>,
    other: &Vec<(usize, usize, i64)>,
    rewrite: &Vec<Option<usize>>,
    Ghost(from): Ghost<Seq<GitFile>>,
    Ghost(skip): Ghost<Seq<String>>,
    Ghost(floor): Ghost<int>,
)
    requires
        0 <= floor,
        graph_nodes(*old(target)).len() <= u32::MAX,
        distinct_paths(graph_nodes(*old(target))),
        simple_edges(graph_nodes(*old(target)).len() as int, graph_edges(*old(target))),
        weights_from(graph_edges(*old(target)), floor),
        distinct_paths(from),
        simple_edges(from.len() as int, other@),
        weights_from(other@, floor),
        rewrite@.len() == from.len(),
        maps_to(rewrite@, from, graph_nodes(*old(target)), skip, from.len() as int),
        grafted_edges(graph_nodes(*old(target)), graph_edges(*old(target)), from, other@, skip).len() <= u32::MAX,
        couplings_fit(graph_nodes(*old(target)), graph_edges(*old(target)), from, other@),
    ensures
        graph_nodes(*final(target)) == graph_nodes(*old(target)),
        simple_edges(graph_nodes(*final(target)).len() as int, graph_edges(*final(target))),
        weights_from(graph_edges(*final(target)), floor),
        graph_edges(*old(target)).len() <= graph_edges(*final(target)).len() <= graph_edges(*old(target)).len()
            + other@.len(),
        forall|f: int|
            0 <= f < graph_edges(*old(target)).len() ==> (#[trigger] graph_edges(*final(target))[f]).0
                == graph_edges(*old(target))[f].0 && graph_edges(*final(target))[f].1 == graph_edges(
                *old(target),
            )[f].1,
        grafted(
            graph_nodes(*old(target)),
            graph_edges(*old(target)),
            graph_edges(*final(target)),
            from,
            other@,
            skip,
            other@.len() as int,
        ),
        other@.len() == 0 ==> graph_edges(*final(target)) == graph_edges(*old(target)),
        graph_edges(*final(target)) == grafted_edges(
            graph_nodes(*old(target)),
            graph_edges(*old(target)),
            from,
            other@,
            skip,
        ),
{
    let ghost nodes = graph_nodes(*target);
    let ghost base = graph_edges(*target);
    let ghost fresh = appends(nodes, base, from, skip);
    let ghost mv = moved(nodes, from);
    let mut e: usize = 0;
    proof {
        other@.lemma_filter_len(fresh);
        reveal(Seq::filter);
        assert(other@.take(0) =~= Seq::<(usize, usize, i64)>::empty());
        assert(base.subrange(base.len() as int, base.len() as int) =~= other@.take(0).filter(fresh).map_values(mv));
    }
    while e < other.len()
        invariant
            e <= other@.len(),
            0 <= floor,
            nodes.len() <= u32::MAX,
            graph_nodes(*target) == nodes,
            distinct_paths(nodes),
            simple_edges(nodes.len() as int, graph_edges(*target)),
            weights_from(graph_edges(*target), floor),
            distinct_paths(from),
            simple_edges(from.len() as int, other@),
            weights_from(other@, floor),
            rewrite@.len() == from.len(),
            maps_to(rewrite@, from, nodes, skip, from.len() as int),
            base.len() + other@.filter(fresh).len() <= u32::MAX,
            couplings_fit(nodes, base, from, other@),
            base.len() <= graph_edges(*target).len() <= base.len() + e,
            forall|f: int|
                0 <= f < base.len() ==> (#[trigger] graph_edges(*target)[f]).0 == base[f].0 && graph_edges(
                    *target,
                )[f].1 == base[f].1,
            grafted(nodes, base, graph_edges(*target), from, other@, skip, e as int),
            e == 0 ==> graph_edges(*target) == base,
            fresh == appends(nodes, base, from, skip),
            mv == moved(nodes, from),
            graph_edges(*target).subrange(base.len() as int, graph_edges(*target).len() as int) == other@.take(
                e as int,
            ).filter(fresh).map_values(mv),
            forall|t: int|
                base.len() <= t < graph_edges(*target).len() ==> sourced(
                    #[trigger] graph_edges(*target)[t],
                    nodes,
                    other@,
                    from,
                    e as int,
                ),
        decreases other@.len() - e,
    {
        let edge = other[e];
        let ghost edges = graph_edges(*target);
        let ghost tail = edges.subrange(base.len() as int, edges.len() as int);
        proof {
            assert(other@[e as int].0 < from.len() && other@[e as int].1 < from.len() && other@[e as int].0
                != other@[e as int].1);
            assert(other@.take(e + 1) =~= other@.take(e as int).push(other@[e as int]));
            other@.take(e as int).lemma_filter_push(other@[e as int], fresh);
            other@.lemma_filter_take_len(fresh, e + 1);
            assert(tail.len() == other@.take(e as int).filter(fresh).len());
        }
        let a = rewrite[edge.0];
        let b = rewrite[edge.1];
        match (a, b) {
            (Some(ta), Some(tb)) => {
                proof {
                    assert(path_of(nodes, ta as int) == path_of(from, edge.0 as int));
                    assert(path_of(nodes, tb as int) == path_of(from, edge.1 as int));
                    assert(path_of(from, edge.0 as int) != path_of(from, edge.1 as int));
                    assert(ta != tb);
                }
                match find_edge(target, ta, tb) {
                    Some(f) => {
                        let held = match edge_weight(target, f) {
                            Some(w) => *w,
                            None => 0,
                        };
                        proof {
                            lemma_graft_fits(nodes, base, edges, f as int, from, other@, skip, e as int);
                            lemma_found_in_base(nodes, base, edges, f as int, from, other@, e as int, ta, tb);
                            assert(!fresh(other@[e as int]));
                        }
                        let sum = held + edge.2;
                        set_edge_weight(target, f, sum);
                        proof {
                            let now = graph_edges(*target);
                            assert forall|x: Seq<char>, y: Seq<char>| #[trigger]
                                coupling(nodes, now, x, y) == coupling(nodes, base, x, y) + kept_weight(
                                    from,
                                    other@,
                                    skip,
                                    e + 1,
                                    x,
                                    y,
                                ) by {
                                lemma_weight_update(nodes, edges, f as int, sum, edges.len() as int, x, y);
                                lemma_graft_link(nodes, edges[f as int], from, other@, skip, e as int, x, y);
                                assert(coupling(nodes, edges, x, y) == coupling(nodes, base, x, y) + kept_weight(
                                    from,
                                    other@,
                                    skip,
                                    e as int,
                                    x,
                                    y,
                                ));
                            }
                            assert forall|g: int, h: int|
                                0 <= g < now.len() && 0 <= h < now.len() && g != h implies !joins(
                                #[trigger] now[h],
                                (#[trigger] now[g]).0,
                                now[g].1,
                            ) by {
                                assert(!joins(edges[h], edges[g].0, edges[g].1));
                            }
                            assert(now.subrange(base.len() as int, now.len() as int) =~= tail);
                            assert forall|t: int| base.len() <= t < now.len() implies sourced(
                                #[trigger] now[t],
                                nodes,
                                other@,
                                from,
                                e + 1,
                            ) by {
                                assert(sourced(edges[t], nodes, other@, from, e as int));
                                let k = choose|k: int| k < e && #[trigger] came_from(edges[t], nodes, other@, from, k);
                                assert(came_from(now[t], nodes, other@, from, k));
                            }
                        }
                    },
                    None => {
                        proof {
                            let x = path_of(from, edge.0 as int);
                            let y = path_of(from, edge.1 as int);
                            if linked(nodes, base, x, y) {
                                let g = choose|g: int| 0 <= g < base.len() && links(nodes, #[trigger] base[g], x, y);
                                assert(edges[g].0 == base[g].0 && edges[g].1 == base[g].1);
                                assert(edges[g].0 < nodes.len() && edges[g].1 < nodes.len());
                                assert(joins(edges[g], ta, tb));
                            }
                            assert(fresh(other@[e as int]));
                        }
                        let _ = add_edge(target, ta, tb, edge.2);
                        proof {
                            let now = graph_edges(*target);
                            let added = (ta, tb, edge.2);
                            assert forall|x: Seq<char>, y: Seq<char>| #[trigger]
                                coupling(nodes, now, x, y) == coupling(nodes, base, x, y) + kept_weight(
                                    from,
                                    other@,
                                    skip,
                                    e + 1,
                                    x,
                                    y,
                                ) by {
                                lemma_coupling_push(nodes, edges, added, x, y);
                                lemma_graft_link(nodes, added, from, other@, skip, e as int, x, y);
                                assert(coupling(nodes, edges, x, y) == coupling(nodes, base, x, y) + kept_weight(
                                    from,
                                    other@,
                                    skip,
                                    e as int,
                                    x,
                                    y,
                                ));
                            }
                            assert forall|g: int, h: int|
                                0 <= g < now.len() && 0 <= h < now.len() && g != h implies !joins(
                                #[trigger] now[h],
                                (#[trigger] now[g]).0,
                                now[g].1,
                            ) by {
                                if g < edges.len() && h < edges.len() {
                                    assert(!joins(edges[h], edges[g].0, edges[g].1));
                                } else if g < edges.len() {
                                    assert(!joins(edges[g], ta, tb));
                                } else {
                                    assert(!joins(edges[h], ta, tb));
                                }
                            }
                            lemma_place(nodes, ta);
                            lemma_place(nodes, tb);
                            assert(mv(other@[e as int]) == added);
                            let kept = other@.take(e as int).filter(fresh);
                            assert(kept.push(other@[e as int]).map_values(mv) =~= kept.map_values(mv).push(added));
                            assert(now.subrange(base.len() as int, now.len() as int) =~= tail.push(added));
                            assert forall|t: int| base.len() <= t < now.len() implies sourced(
                                #[trigger] now[t],
                                nodes,
                                other@,
                                from,
                                e + 1,
                            ) by {
                                if t < edges.len() {
                                    assert(sourced(edges[t], nodes, other@, from, e as int));
                                    let k = choose|k: int|
                                        k < e && #[trigger] came_from(edges[t], nodes, other@, from, k);
                                    assert(came_from(now[t], nodes, other@, from, k));
                                } else {
                                    assert(came_from(now[t], nodes, other@, from, e as int));
                                }
                            }
                        }
                    },
                }
            },
            _ => {
                proof {
                    assert forall|x: Seq<char>, y: Seq<char>| #[trigger]
                        coupling(nodes, edges, x, y) == coupling(nodes, base, x, y) + kept_weight(
                            from,
                            other@,
                            skip,
                            e + 1,
                            x,
                            y,
                        ) by {
                        lemma_graft_skip(from, other@, skip, e as int, x, y);
                        assert(coupling(nodes, edges, x, y) == coupling(nodes, base, x, y) + kept_weight(
                            from,
                            other@,
                            skip,
                            e as int,
                            x,
                            y,
                        ));
                    }
                    assert(!fresh(other@[e as int]));
                    assert forall|t: int| base.len() <= t < edges.len() implies sourced(
                        #[trigger] edges[t],
                        nodes,
                        other@,
                        from,
                        e + 1,
                    ) by {
                        assert(sourced(edges[t], nodes, other@, from, e as int));
                        let k = choose|k: int| k < e && #[trigger] came_from(edges[t], nodes, other@, from, k);
                        assert(came_from(edges[t], nodes, other@, from, k));
                    }
                }
            },
        }
        e += 1;
    }
    proof {
        assert(other@.take(other@.len() as int) =~= other@);
        let now = graph_edges(*target);
        let goal = grafted_edges(nodes, base, from, other@, skip);
        let tail = now.subrange(base.len() as int, now.len() as int);
        assert forall|f: int| 0 <= f < base.len() implies now[f] == goal[f] by {
            let x = path_of(nodes, base[f].0 as int);
            let y = path_of(nodes, base[f].1 as int);
            assert(links(nodes, base[f], x, y));
            assert(links(nodes, now[f], x, y));
            lemma_weight_of_link(nodes, base, f, base.len() as int, x, y);
            lemma_weight_of_link(nodes, now, f, now.len() as int, x, y);
            assert(coupling(nodes, now, x, y) == coupling(nodes, base, x, y) + kept_weight(
                from,
                other@,
                skip,
                other@.len() as int,
                x,
                y,
            ));
        }
        assert forall|t: int| base.len() <= t < now.len() implies now[t] == goal[t] by {
            assert(tail[t - base.len()] == now[t]);
        }
        assert(now.len() == goal.len());
        assert(now =~= goal);
    }
}

} // verus!
