//! The graph container. Nodes and edges live in a `petgraph::Graph`; this
//! module states, without proof, what the container's methods do to the two
//! dense arrays it is made of.

use crate::git_graph::GitFile;
use petgraph::graph::{EdgeIndex, Graph, NodeIndex};
use petgraph::visit::EdgeRef;
use petgraph::Undirected;
use vstd::prelude::*;

verus! {

#[verifier::external_type_specification]
#[verifier::external_body]
#[verifier::reject_recursive_types(N)]
#[verifier::reject_recursive_types(E)]
#[verifier::reject_recursive_types(Ty)]
#[verifier::reject_recursive_types(Ix)]
pub struct ExGraph<N, E, Ty, Ix>(Graph<N, E, Ty, Ix>);

#[verifier::external_type_specification]
#[verifier::external_body]
pub struct ExUndirected(Undirected);

/// The node weights of a graph, by node index.
pub uninterp spec fn graph_nodes(g: Graph<GitFile, i64, Undirected>) -> Seq<GitFile>;

/// The edges of a graph, by edge index: source, target and weight.
pub uninterp spec fn graph_edges(g: Graph<GitFile, i64, Undirected>) -> Seq<(usize, usize, i64)>;

/// Whether edge `e` connects `a` and `b`, in either direction.
pub open spec fn joins(e: (usize, usize, i64), a: usize, b: usize) -> bool {
    (e.0 == a && e.1 == b) || (e.0 == b && e.1 == a)
}

/// `ids` lists each edge that has `v` as an endpoint exactly once.
pub open spec fn lists_incident(edges: Seq<(usize, usize, i64)>, ids: Seq<usize>, v: usize) -> bool {
    &&& ids.no_duplicates()
    &&& forall|i: int| 0 <= i < ids.len() ==> (#[trigger] ids[i]) < edges.len()
    &&& forall|e: int|
        0 <= e < edges.len() && ((#[trigger] edges[e]).0 == v || edges[e].1 == v) ==> exists|i: int|
            0 <= i < ids.len() && #[trigger] ids[i] == e
    &&& forall|i: int|
        0 <= i < ids.len() ==> edges[(#[trigger] ids[i]) as int].0 == v || edges[ids[i] as int].1 == v
}

/// `Graph::new_undirected`: the new graph has no node and no edge.
#[verifier::external_body]
pub(crate) fn new_graph() -> (g: Graph<GitFile, i64, Undirected>)
    ensures
        graph_nodes(g) == Seq::<GitFile>::empty(),
        graph_edges(g) == Seq::<(usize, usize, i64)>::empty(),
{
    Graph::new_undirected()
}

/// `Graph::node_count`: the length of the node array, which petgraph never
/// lets outgrow the `u32` index type.
#[verifier::external_body]
pub(crate) fn node_count(g: &Graph<GitFile, i64, Undirected>) -> (n: usize)
    ensures
        n == graph_nodes(*g).len(),
        n <= u32::MAX,
{
    g.node_count()
}

/// `Graph::add_node`: appends the weight to the node array and returns its
/// index; edges are untouched. petgraph panics once the index type is
/// exhausted, which the precondition excludes.
#[verifier::external_body]
pub(crate) fn add_node(g: &mut Graph<GitFile, i64, Undirected>, file: GitFile) -> (idx: usize)
    requires
        graph_nodes(*old(g)).len() < u32::MAX,
    ensures
        idx == graph_nodes(*old(g)).len(),
        graph_nodes(*final(g)) == graph_nodes(*old(g)).push(file),
        graph_edges(*final(g)) == graph_edges(*old(g)),
{
    g.add_node(file).index()
}

/// `Graph::add_edge`: appends the edge to the edge array and returns its
/// index; nodes are untouched. petgraph panics on an endpoint that is no node
/// and once the index type is exhausted, which the precondition excludes.
#[verifier::external_body]
pub(crate) fn add_edge(g: &mut Graph<GitFile, i64, Undirected>, a: usize, b: usize, weight: i64) -> (idx: usize)
    requires
        a < graph_nodes(*old(g)).len(),
        b < graph_nodes(*old(g)).len(),
        graph_nodes(*old(g)).len() <= u32::MAX,
        graph_edges(*old(g)).len() < u32::MAX,
    ensures
        idx == graph_edges(*old(g)).len(),
        graph_edges(*final(g)) == graph_edges(*old(g)).push((a, b, weight)),
        graph_nodes(*final(g)) == graph_nodes(*old(g)),
{
    g.add_edge(NodeIndex::new(a), NodeIndex::new(b), weight).index()
}

/// `Graph::find_edge` on an undirected graph: an edge between `a` and `b` in
/// either direction if there is one, `None` only if there is none. Which of
/// several parallel edges is found is left open.
#[verifier::external_body]
pub(crate) fn find_edge(g: &Graph<GitFile, i64, Undirected>, a: usize, b: usize) -> (found: Option<usize>)
    requires
        a < graph_nodes(*g).len(),
        b < graph_nodes(*g).len(),
        graph_nodes(*g).len() <= u32::MAX,
    ensures
        match found {
            Some(e) => e < graph_edges(*g).len() && joins(graph_edges(*g)[e as int], a, b),
            None => forall|e: int| 0 <= e < graph_edges(*g).len() ==> !joins(#[trigger] graph_edges(*g)[e], a, b),
        },
{
    g.find_edge(NodeIndex::new(a), NodeIndex::new(b)).map(|e| e.index())
}

/// Indexing a `Graph` mutably by an edge index: the place of the weight of
/// edge `e`, to which `weight` is written; endpoints, other edges and nodes
/// are untouched. petgraph panics on an index that is no edge, which the
/// precondition excludes.
#[verifier::external_body]
pub(crate) fn set_edge_weight(g: &mut Graph<GitFile, i64, Undirected>, e: usize, weight: i64)
    requires
        e < graph_edges(*old(g)).len(),
        graph_edges(*old(g)).len() <= u32::MAX,
    ensures
        graph_edges(*final(g)) == graph_edges(*old(g)).update(
            e as int,
            (graph_edges(*old(g))[e as int].0, graph_edges(*old(g))[e as int].1, weight),
        ),
        graph_nodes(*final(g)) == graph_nodes(*old(g)),
{
    g[EdgeIndex::new(e)] = weight;
}

/// `Graph::edge_weight`: the weight of edge `e`, which exists.
#[verifier::external_body]
pub(crate) fn edge_weight(g: &Graph<GitFile, i64, Undirected>, e: usize) -> (weight: Option<&i64>)
    requires
        e < graph_edges(*g).len(),
        graph_edges(*g).len() <= u32::MAX,
    ensures
        weight == Some(&graph_edges(*g)[e as int].2),
{
    g.edge_weight(EdgeIndex::new(e))
}

/// `Graph::node_weight`: the weight of node `a`, which exists.
#[verifier::external_body]
pub(crate) fn node_weight(g: &Graph<GitFile, i64, Undirected>, a: usize) -> (file: Option<&GitFile>)
    requires
        a < graph_nodes(*g).len(),
        graph_nodes(*g).len() <= u32::MAX,
    ensures
        file == Some(&graph_nodes(*g)[a as int]),
{
    g.node_weight(NodeIndex::new(a))
}

/// `Graph::edge_references`: every edge in index order, as source, target and
/// weight. Both endpoints of an edge are nodes of the graph, and the edge
/// array never outgrows the `u32` index type.
#[verifier::external_body]
pub(crate) fn edge_list(g: &Graph<GitFile, i64, Undirected>) -> (list: Vec<(usize, usize, i64)>)
    ensures
        list@ == graph_edges(*g),
        forall|e: int| 0 <= e < list@.len() ==> (#[trigger] list@[e]).0 < graph_nodes(*g).len()
            && list@[e].1 < graph_nodes(*g).len(),
        list@.len() <= u32::MAX,
{
    g.edge_references().map(|e| (e.source().index(), e.target().index(), *e.weight())).collect()
}

/// `Graph::edges` on an undirected graph: the indices of the edges that have
/// `v` as an endpoint, each once (a self-loop too). Their order is left open.
#[verifier::external_body]
pub(crate) fn incident_edges(g: &Graph<GitFile, i64, Undirected>, v: usize) -> (ids: Vec<usize>)
    requires
        v < graph_nodes(*g).len(),
        graph_nodes(*g).len() <= u32::MAX,
    ensures
        lists_incident(graph_edges(*g), ids@, v),
{
    g.edges(NodeIndex::new(v)).map(|e| e.id().index()).collect()
}

} // verus!
