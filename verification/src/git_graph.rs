//! The co-change graph of file paths, and how it is built from change-sets.

use crate::coupling::{
    admitted, appends, fits, turned, lemma_one_link, lemma_weight_of_link, linked, links, as_distances, built, changed, changed_in, changed_upto, clique, cochanges_upto, coupling,
    distinct_listing, distinct_paths, first_seen, has_path, heaviest,
    heaviest_upto, keeps, kept_weight, lemma_changed_grows, lemma_clique_coupling, lemma_clique_simple,
    lemma_cochanges_grow, lemma_coupling_bounded, lemma_grafted_paths, lemma_heaviest, lemma_joined_listing,
    lemma_pairs_bounds, lemma_pairs_count, lemma_weight_more_nodes,
    lemma_weight_unlinked, lists_path, live_nodes, merged, pair_count, pair_row, pairs, pairs_upto, path_of,
    pruned, removed, removed_in, removed_upto, simple_edges, single, unlisted, weights_from, Couplings,
};
use crate::error::GraphError;
use crate::grafting::{couplings_fit, graft_edges, graft_nodes};
use crate::names::{indexes, lookup, remember};
use crate::store::{
    add_edge, add_node, edge_list, find_edge, graph_edges, graph_nodes, joins, new_graph, node_count, node_weight,
    set_edge_weight,
};
use petgraph::graph::Graph;
use std::collections::HashMap;
use petgraph::Undirected;
use vstd::prelude::*;

verus! {

/// What a change did to a file.
#[derive(Copy, Clone, Debug, PartialEq, Eq, Structural)]
pub enum Status {
    Added,
    Deleted,
    Modified,
}

/// One record of a change-set: a path and what happened to it.
#[derive(Clone, Debug)]
pub struct GitFile {
    pub status: Status,
    pub name: String,
}

/// The records of one commit.
pub type ChangeSet = Vec<GitFile>;

/// A copy of a record.
pub fn copy_file(file: &GitFile) -> (copy: GitFile)
    ensures
        copy == *file,
{
    GitFile { status: file.status, name: file.name.clone() }
}

/// Whether a record can be used: one that names no path is an
/// `InvalidRecord`.
pub fn check_record(file: &GitFile) -> (checked: Result<(), GraphError>)
    ensures
        checked is Ok <==> file.name@.len() > 0,
        checked is Err ==> checked == Err::<(), GraphError>(GraphError::InvalidRecord),
{
    if file.name.as_str().is_empty() {
        Err(GraphError::InvalidRecord)
    } else {
        Ok(())
    }
}

/// Whether `paths` lists `name`.
pub fn is_listed(paths: &Vec<String>, name: &String) -> (listed: bool)
    ensures
        listed == lists_path(paths@, name@),
{
    let mut i: usize = 0;
    while i < paths.len()
        invariant
            i <= paths@.len(),
            forall|j: int| 0 <= j < i ==> (#[trigger] paths@[j])@ != name@,
        decreases paths@.len() - i,
    {
        if paths[i] == *name {
            return true;
        }
        i += 1;
    }
    false
}

/// All pairs of two different indices below `n`, smaller first, in
/// lexicographic order.
pub fn combinations_k_2(n: usize) -> (all: Vec<(usize, usize)>)
    ensures
        all@ == pairs(n as int),
{
    let mut all: Vec<(usize, usize)> = Vec::new();
    let mut x: usize = 0;
    while x < n
        invariant
            x <= n,
            all@ == pairs_upto(x as int, n as int),
        decreases n - x,
    {
        let ghost before = all@;
        let mut y: usize = x + 1;
        while y < n
            invariant
                x < n,
                x + 1 <= y <= n,
                all@ == before + pair_row(x, y - x - 1),
            decreases n - y,
        {
            all.push((x, y));
            proof {
                assert(pair_row(x, y - x - 1).push((x, y)) =~= pair_row(x, y + 1 - x - 1));
                assert(all@ =~= before + pair_row(x, y + 1 - x - 1));
            }
            y += 1;
        }
        x += 1;
    }
    all
}

/// Appends to `into` the paths of `other` that it does not list yet.
fn merge_listings(into: &mut Vec<String>, other: &Vec<String>)
    requires
        distinct_listing(old(into)@),
        distinct_listing(other@),
    ensures
        final(into)@ == old(into)@ + other@.filter(unlisted(old(into)@)),
        distinct_listing(final(into)@),
        forall|x: Seq<char>| #[trigger]
            lists_path(final(into)@, x) <==> lists_path(old(into)@, x) || lists_path(other@, x),
{
    let ghost base = into@;
    let ghost keep = unlisted(base);
    let mut i: usize = 0;
    proof {
        reveal(Seq::filter);
        assert(other@.take(0) =~= Seq::<String>::empty());
        assert(into@ =~= base + other@.take(0).filter(keep));
    }
    while i < other.len()
        invariant
            i <= other@.len(),
            keep == unlisted(base),
            distinct_listing(base),
            distinct_listing(other@),
            into@ == base + other@.take(i as int).filter(keep),
            distinct_listing(into@),
        decreases other@.len() - i,
    {
        let ghost before = into@;
        proof {
            assert(other@.take(i + 1) =~= other@.take(i as int).push(other@[i as int]));
            other@.take(i as int).lemma_filter_push(other@[i as int], keep);
            lemma_joined_listing(base, other@, i as int, other@[i as int]@);
        }
        if !is_listed(into, &other[i]) {
            proof {
                if lists_path(base, other@[i as int]@) {
                    let j = choose|j: int| 0 <= j < base.len() && (#[trigger] base[j])@ == other@[i as int]@;
                    assert(before[j]@ == other@[i as int]@);
                }
                assert(keep(other@[i as int]));
            }
            into.push(other[i].clone());
            proof {
                assert(into@ =~= before.push(other@[i as int]));
                assert forall|a: int, b: int| 0 <= a < into@.len() && 0 <= b < into@.len() && a != b implies (
                #[trigger] into@[a])@ != (#[trigger] into@[b])@ by {
                    if a < before.len() && b < before.len() {
                        assert(before[a]@ != before[b]@);
                    } else if a < before.len() {
                        assert(before[a]@ != other@[i as int]@);
                    } else {
                        assert(before[b]@ != other@[i as int]@);
                    }
                }
            }
        } else {
            proof {
                if !lists_path(base, other@[i as int]@) {
                    let j = choose|j: int| 0 <= j < i && (#[trigger] other@.take(i as int)[j])@ == other@[i as int]@;
                    assert(other@[j]@ == other@[i as int]@);
                }
                assert(!keep(other@[i as int]));
            }
        }
        i += 1;
    }
    proof {
        assert(other@.take(other@.len() as int) =~= other@);
        assert forall|x: Seq<char>| #[trigger]
            lists_path(into@, x) <==> lists_path(base, x) || lists_path(other@, x) by {
            lemma_joined_listing(base, other@, other@.len() as int, x);
        }
    }
}

/// Whether the container `big` has room for what `small` would bring in: the
/// nodes that pass `keep`, the edges that pass `fresh`, and for every pair
/// that both connect a weight that is the sum of both.
fn room_for(
    big: &Graph<GitFile, i64, Undirected>,
    names: &HashMap<u64, Vec<usize>>,
    small: &Graph<GitFile, i64, Undirected>,
    Ghost(keep): Ghost<spec_fn(GitFile) -> bool>,
    Ghost(fresh): Ghost<spec_fn((usize, usize, i64)) -> bool>,
    Ghost(nodes): Ghost<Seq<GitFile>>,
) -> (room: bool)
    requires
        indexes(names@, graph_nodes(*big)),
        distinct_paths(graph_nodes(*big)),
        simple_edges(graph_nodes(*big).len() as int, graph_edges(*big)),
        distinct_paths(graph_nodes(*small)),
        simple_edges(graph_nodes(*small).len() as int, graph_edges(*small)),
        weights_from(graph_edges(*big), 0),
        weights_from(graph_edges(*small), 0),
        keep == keeps(graph_nodes(*big), Seq::<String>::empty()),
        nodes == graph_nodes(*big) + graph_nodes(*small).filter(keep),
        fresh == appends(nodes, graph_edges(*big), graph_nodes(*small), Seq::<String>::empty()),
    ensures
        room <==> {
            &&& nodes.len() <= u32::MAX
            &&& graph_edges(*big).len() + graph_edges(*small).filter(fresh).len() <= u32::MAX
            &&& couplings_fit(graph_nodes(*big), graph_edges(*big), graph_nodes(*small), graph_edges(*small))
        },
{
    let ghost base = graph_nodes(*big);
    let ghost from = graph_nodes(*small);
    let ghost held = graph_edges(*big);
    let n = node_count(small);
    let big_nodes = node_count(big);
    let mut new_nodes: usize = 0;
    let mut i: usize = 0;
    proof {
        reveal(Seq::filter);
        assert(from.take(0) =~= Seq::<GitFile>::empty());
    }
    while i < n
        invariant
            i <= n,
            n == from.len(),
            n <= u32::MAX,
            from == graph_nodes(*small),
            base == graph_nodes(*big),
            indexes(names@, base),
            keep == keeps(base, Seq::<String>::empty()),
            new_nodes == from.take(i as int).filter(keep).len(),
            new_nodes <= i,
        decreases n - i,
    {
        proof {
            assert(from.take(i + 1) =~= from.take(i as int).push(from[i as int]));
            from.take(i as int).lemma_filter_push(from[i as int], keep);
        }
        match node_weight(small, i) {
            Some(file) => {
                if lookup(names, big, &file.name).is_none() {
                    new_nodes += 1;
                }
            },
            None => {},
        }
        i += 1;
    }
    proof {
        assert(from.take(n as int) =~= from);
    }
    let other = edge_list(small);
    let big_edges = edge_list(big);
    let mut new_edges: usize = 0;
    let mut heavy = false;
    let mut e: usize = 0;
    proof {
        reveal(Seq::filter);
        assert(other@.take(0) =~= Seq::<(usize, usize, i64)>::empty());
    }
    while e < other.len()
        invariant
            e <= other@.len(),
            other@ == graph_edges(*small),
            other@.len() <= u32::MAX,
            from == graph_nodes(*small),
            from.len() <= u32::MAX,
            base == graph_nodes(*big),
            indexes(names@, base),
            base.len() <= u32::MAX,
            held == graph_edges(*big),
            big_edges@ == held,
            held.len() <= u32::MAX,
            distinct_paths(base),
            simple_edges(base.len() as int, held),
            distinct_paths(from),
            simple_edges(from.len() as int, other@),
            weights_from(other@, 0),
            base.len() <= nodes.len(),
            forall|t: int| 0 <= t < base.len() ==> nodes[t] == base[t],
            fresh == appends(nodes, held, from, Seq::<String>::empty()),
            new_edges == other@.take(e as int).filter(fresh).len(),
            new_edges <= e,
            heavy ==> exists|k: int, f: int|
                0 <= k < e && 0 <= f < held.len() && #[trigger] links(
                    base,
                    held[f],
                    path_of(from, other@[k].0 as int),
                    path_of(from, other@[k].1 as int),
                ) && held[f].2 + other@[k].2 > i64::MAX,
            !heavy ==> forall|k: int, f: int|
                0 <= k < e && 0 <= f < held.len() && #[trigger] links(
                    base,
                    held[f],
                    path_of(from, other@[k].0 as int),
                    path_of(from, other@[k].1 as int),
                ) ==> held[f].2 + other@[k].2 <= i64::MAX,
        decreases other@.len() - e,
    {
        let edge = other[e];
        let ghost x = path_of(from, edge.0 as int);
        let ghost y = path_of(from, edge.1 as int);
        proof {
            assert(other@[e as int].0 < from.len() && other@[e as int].1 < from.len());
            assert(other@.take(e + 1) =~= other@.take(e as int).push(other@[e as int]));
            other@.take(e as int).lemma_filter_push(other@[e as int], fresh);
            assert(!lists_path(Seq::<String>::empty(), x) && !lists_path(Seq::<String>::empty(), y));
        }
        let a = match node_weight(small, edge.0) {
            Some(file) => lookup(names, big, &file.name),
            None => None,
        };
        let b = match node_weight(small, edge.1) {
            Some(file) => lookup(names, big, &file.name),
            None => None,
        };
        let found = match (a, b) {
            (Some(ta), Some(tb)) => find_edge(big, ta, tb),
            _ => None,
        };
        match found {
            Some(f) => {
                proof {
                    assert(links(base, held[f as int], x, y));
                    assert(links(nodes, held[f as int], x, y));
                    assert(linked(nodes, held, x, y));
                    assert(!fresh(other@[e as int]));
                }
                proof {
                    assert(other@[e as int].2 >= 0);
                }
                if big_edges[f].2 > i64::MAX - edge.2 {
                    heavy = true;
                } else {
                    proof {
                        if !heavy {
                            assert forall|k: int, g: int|
                                0 <= k < e + 1 && 0 <= g < held.len() && #[trigger] links(
                                    base,
                                    held[g],
                                    path_of(from, other@[k].0 as int),
                                    path_of(from, other@[k].1 as int),
                                ) implies held[g].2 + other@[k].2 <= i64::MAX by {
                                if k == e {
                                    lemma_one_link(base, held, f as int, g, x, y);
                                }
                            }
                        }
                    }
                }
            },
            None => {
                proof {
                    if linked(nodes, held, x, y) {
                        let g = choose|g: int| 0 <= g < held.len() && links(nodes, #[trigger] held[g], x, y);
                        assert(held[g].0 < base.len() && held[g].1 < base.len());
                        assert(links(base, held[g], x, y));
                        assert(has_path(base, x) && has_path(base, y)) by {
                            assert(path_of(base, held[g].0 as int) == x || path_of(base, held[g].0 as int) == y);
                            assert(path_of(base, held[g].1 as int) == x || path_of(base, held[g].1 as int) == y);
                        }
                        assert(a is Some && b is Some);
                        assert(joins(held[g], a.unwrap(), b.unwrap()));
                    }
                    assert(fresh(other@[e as int]));
                    if !heavy {
                        assert forall|k: int, g: int|
                            0 <= k < e + 1 && 0 <= g < held.len() && #[trigger] links(
                                base,
                                held[g],
                                path_of(from, other@[k].0 as int),
                                path_of(from, other@[k].1 as int),
                            ) implies held[g].2 + other@[k].2 <= i64::MAX by {
                            if k == e {
                                assert(links(nodes, held[g], x, y));
                                assert(linked(nodes, held, x, y));
                            }
                        }
                    }
                }
                new_edges += 1;
            },
        }
        e += 1;
    }
    proof {
        assert(other@.take(other@.len() as int) =~= other@);
        if heavy {
            let (k, f) = choose|k: int, f: int|
                0 <= k < other@.len() && 0 <= f < held.len() && #[trigger] links(
                    base,
                    held[f],
                    path_of(from, other@[k].0 as int),
                    path_of(from, other@[k].1 as int),
                ) && held[f].2 + other@[k].2 > i64::MAX;
            let x = path_of(from, other@[k].0 as int);
            let y = path_of(from, other@[k].1 as int);
            lemma_weight_of_link(base, held, f, held.len() as int, x, y);
            assert(links(from, other@[k], x, y));
            lemma_weight_of_link(from, other@, k, other@.len() as int, x, y);
            assert(coupling(base, held, x, y) + coupling(from, other@, x, y) > i64::MAX);
        } else {
            assert forall|x: Seq<char>, y: Seq<char>| #[trigger]
                coupling(base, held, x, y) + coupling(from, other@, x, y) <= i64::MAX by {
                lemma_coupling_bounded(base, held, x, y);
                lemma_coupling_bounded(from, other@, x, y);
                if linked(base, held, x, y) && linked(from, other@, x, y) {
                    let f = choose|f: int| 0 <= f < held.len() && links(base, #[trigger] held[f], x, y);
                    let k = choose|k: int| 0 <= k < other@.len() && links(from, #[trigger] other@[k], x, y);
                    lemma_weight_of_link(base, held, f, held.len() as int, x, y);
                    lemma_weight_of_link(from, other@, k, other@.len() as int, x, y);
                    assert(links(base, held[f], path_of(from, other@[k].0 as int), path_of(from, other@[k].1 as int)));
                } else if linked(base, held, x, y) {
                    lemma_weight_unlinked(from, other@, other@.len() as int, x, y);
                } else {
                    lemma_weight_unlinked(base, held, held.len() as int, x, y);
                }
            }
        }
    }
    let limit: usize = 0xffff_ffff;
    !heavy && new_nodes <= limit - big_nodes && new_edges <= limit - big_edges.len()
}

/// Whether the `i`-th record is the first one of its path, and the path is
/// not empty.
fn is_first_seen(records: &Vec<GitFile>, i: usize) -> (first: bool)
    requires
        i < records@.len(),
    ensures
        first == first_seen(records@, i as int),
{
    if check_record(&records[i]).is_err() {
        return false;
    }
    let mut j: usize = 0;
    while j < i
        invariant
            j <= i,
            i < records@.len(),
            forall|k: int| 0 <= k < j ==> (#[trigger] records@[k]).name@ != records@[i as int].name@,
        decreases i - j,
    {
        if records[j].name == records[i].name {
            return false;
        }
        j += 1;
    }
    true
}

/// How many files a change-set changes.
fn count_changed(records: &Vec<GitFile>) -> (count: usize)
    ensures
        count == changed(records@).len(),
{
    let mut count: usize = 0;
    let mut i: usize = 0;
    while i < records.len()
        invariant
            i <= records@.len(),
            count == changed_upto(records@, i as int).len(),
            count <= i,
        decreases records@.len() - i,
    {
        if is_first_seen(records, i) {
            match records[i].status {
                Status::Deleted => {},
                _ => {
                    count += 1;
                },
            }
        }
        i += 1;
    }
    count
}

/// Whether the container can hold the edges that couple every two of `k`
/// files.
fn pairs_fit(k: usize) -> (fit: bool)
    ensures
        fit == (pair_count(k as int) <= u32::MAX),
{
    if k <= 1 {
        assert(pair_count(k as int) == 0) by (nonlinear_arith)
            requires
                0 <= k <= 1,
        ;
        true
    } else {
        let a: u128 = k as u128;
        assert(a * (a - 1) <= 0xffff_ffff_ffff_ffff * 0xffff_ffff_ffff_ffff) by (nonlinear_arith)
            requires
                1 <= a <= 0xffff_ffff_ffff_ffff,
        ;
        a * (a - 1) / 2 <= 0xffff_ffff
    }
}

/// The co-change graph: one node per file path, one edge per pair of paths
/// that changed together, weighted by how often they did. It also carries
/// a name table, in which every node is filed under the hash of its path,
/// the paths that were seen deleted, and whether its weights have been
/// turned into distances.
pub struct GitGraph {
    graph: Graph<GitFile, i64, Undirected>,
    names: HashMap<u64, Vec<usize>>,
    deleted: Vec<String>,
    distances: bool,
}

impl GitGraph {
    /// The nodes, by node index.
    pub closed spec fn nodes(&self) -> Seq<GitFile> {
        graph_nodes(self.graph)
    }

    /// The edges, by edge index: source, target and weight.
    pub closed spec fn edges(&self) -> Seq<(usize, usize, i64)> {
        graph_edges(self.graph)
    }

    /// The paths that were seen deleted.
    pub closed spec fn deleted_paths(&self) -> Seq<String> {
        self.deleted@
    }

    /// Whether the weights are distances rather than counts.
    pub closed spec fn is_distances(&self) -> bool {
        self.distances
    }

    /// Whether the name table files every node under the hash of its path.
    pub closed spec fn named(&self) -> bool {
        indexes(self.names@, graph_nodes(self.graph))
    }

    /// What the graph holds.
    pub open spec fn couplings(&self) -> Couplings {
        Couplings {
            nodes: self.nodes(),
            edges: self.edges(),
            deleted: self.deleted_paths(),
            distances: self.is_distances(),
        }
    }

    /// The least weight an edge may have: a count is at least 1, a distance
    /// at least 0.
    pub open spec fn floor(&self) -> int {
        if self.is_distances() {
            0
        } else {
            1
        }
    }

    /// The invariant: paths are unique and not empty, no node stands for a
    /// deleted file, every edge connects two different nodes, no pair is
    /// connected twice, no weight is below the floor, both arrays fit the
    /// container's index type, and the name table files every node.
    pub open spec fn wf(&self) -> bool {
        &&& self.nodes().len() <= u32::MAX
        &&& self.edges().len() <= u32::MAX
        &&& distinct_paths(self.nodes())
        &&& live_nodes(self.nodes())
        &&& simple_edges(self.nodes().len() as int, self.edges())
        &&& weights_from(self.edges(), self.floor())
        &&& distinct_listing(self.deleted_paths())
        &&& self.named()
    }

    /// Whether the graph holds a node for path `x`.
    pub open spec fn has(&self, x: Seq<char>) -> bool {
        has_path(self.nodes(), x)
    }

    /// The weight of the edge between `x` and `y`, 0 where there is none.
    pub open spec fn weight(&self, x: Seq<char>, y: Seq<char>) -> int {
        coupling(self.nodes(), self.edges(), x, y)
    }

    /// Whether path `x` was seen deleted.
    pub open spec fn deletes(&self, x: Seq<char>) -> bool {
        lists_path(self.deleted_paths(), x)
    }

    /// The graph of one change-set. Records without a path are dropped, and
    /// of several records for one path only the first counts. Every file
    /// that is changed becomes a node, in record order; every two of them
    /// are coupled once, in the order of `combinations_k_2`; every file
    /// that is deleted is listed as deleted and gets no node.
    pub fn from_chageset(changes: ChangeSet) -> (graph: GitGraph)
        requires
            pair_count(changed(changes@).len() as int) <= u32::MAX,
        ensures
            graph.wf(),
            !graph.is_distances(),
            graph.couplings() == single(changes@),
    {
        GitGraph::from_records(&changes)
    }

    /// The graph of one change-set, or `None` where the container cannot
    /// hold an edge for every two files that the change-set changes.
    pub fn try_from_records(changes: &ChangeSet) -> (graph: Option<GitGraph>)
        ensures
            graph is Some <==> pair_count(changed(changes@).len() as int) <= u32::MAX,
            graph matches Some(one) ==> one.wf() && one.couplings() == single(changes@),
    {
        if pairs_fit(count_changed(changes)) {
            Some(GitGraph::from_records(changes))
        } else {
            None
        }
    }

    /// The graph of one change-set that is borrowed.
    pub fn from_records(changes: &ChangeSet) -> (graph: GitGraph)
        requires
            pair_count(changed(changes@).len() as int) <= u32::MAX,
        ensures
            graph.wf(),
            !graph.is_distances(),
            graph.couplings() == single(changes@),
    {
        let ghost records = changes@;
        let ghost total = changed(records).len() as int;
        proof {
            assert(total < u32::MAX) by (nonlinear_arith)
                requires
                    total * (total - 1) / 2 <= u32::MAX,
                    0 <= total,
            ;
        }
        let mut graph = new_graph();
        let mut names: HashMap<u64, Vec<usize>> = HashMap::new();
        let mut deleted: Vec<String> = Vec::new();
        let mut i: usize = 0;
        while i < changes.len()
            invariant
                i <= records.len(),
                records == changes@,
                total == changed(records).len(),
                total < u32::MAX,
                indexes(names@, graph_nodes(graph)),
                graph_nodes(graph) == changed_upto(records, i as int),
                graph_edges(graph) == Seq::<(usize, usize, i64)>::empty(),
                deleted@ == removed_upto(records, i as int),
                distinct_paths(graph_nodes(graph)),
                live_nodes(graph_nodes(graph)),
                distinct_listing(deleted@),
                forall|j: int|
                    0 <= j < i && (#[trigger] records[j]).name@.len() > 0 ==> has_path(
                        graph_nodes(graph),
                        records[j].name@,
                    ) || lists_path(deleted@, records[j].name@),
                forall|t: int|
                    0 <= t < graph_nodes(graph).len() ==> exists|j: int|
                        0 <= j < i && (#[trigger] records[j]).name@ == #[trigger] path_of(graph_nodes(graph), t),
                forall|t: int|
                    0 <= t < deleted@.len() ==> exists|j: int|
                        0 <= j < i && (#[trigger] records[j]).name@ == (#[trigger] deleted@[t])@,
            decreases records.len() - i,
        {
            let file = &changes[i];
            let ghost nodes = graph_nodes(graph);
            let ghost listed = deleted@;
            let mut fresh = false;
            if check_record(file).is_ok() {
                let known = lookup(&names, &graph, &file.name);
                if known.is_none() && !is_listed(&deleted, &file.name) {
                    fresh = true;
                }
            }
            proof {
                if fresh {
                    assert forall|j: int| 0 <= j < i implies (#[trigger] records[j]).name@ != records[i as int].name@ by {
                        if records[j].name@ == records[i as int].name@ {
                            assert(has_path(nodes, records[j].name@) || lists_path(listed, records[j].name@));
                        }
                    }
                    assert(first_seen(records, i as int));
                } else if file.name@.len() > 0 {
                    if has_path(nodes, file.name@) {
                        let t = choose|t: int| 0 <= t < nodes.len() && #[trigger] path_of(nodes, t) == file.name@;
                        let j = choose|j: int| 0 <= j < i && (#[trigger] records[j]).name@ == path_of(nodes, t);
                        assert(records[j].name@ == records[i as int].name@);
                    } else {
                        let t = choose|t: int| 0 <= t < listed.len() && (#[trigger] listed[t])@ == file.name@;
                        let j = choose|j: int| 0 <= j < i && (#[trigger] records[j]).name@ == listed[t]@;
                        assert(records[j].name@ == records[i as int].name@);
                    }
                    assert(!first_seen(records, i as int));
                }
                lemma_changed_grows(records, i + 1, records.len() as int);
            }
            if fresh {
                match file.status {
                    Status::Deleted => {
                        deleted.push(file.name.clone());
                        proof {
                            assert(deleted@[listed.len() as int]@ == records[i as int].name@);
                        }
                    },
                    _ => {
                        let added = add_node(&mut graph, copy_file(file));
                        remember(&mut names, &file.name, added, Ghost(nodes), Ghost(graph_nodes(graph)));
                        proof {
                            let grown = graph_nodes(graph);
                            assert(path_of(grown, added as int) == records[i as int].name@);
                            assert forall|a: int, b: int|
                                0 <= a < grown.len() && 0 <= b < grown.len() && a != b implies #[trigger] path_of(
                                grown,
                                a,
                            ) != #[trigger] path_of(grown, b) by {
                                if a < nodes.len() {
                                    assert(path_of(nodes, a) == path_of(grown, a));
                                }
                                if b < nodes.len() {
                                    assert(path_of(nodes, b) == path_of(grown, b));
                                }
                            }
                            assert forall|t: int| 0 <= t < nodes.len() implies path_of(graph_nodes(graph), t) == path_of(
                                nodes,
                                t,
                            ) by {}
                        }
                    },
                }
            }
            proof {
                let now = graph_nodes(graph);
                assert forall|j: int| 0 <= j < i + 1 && (#[trigger] records[j]).name@.len() > 0 implies has_path(
                    now,
                    records[j].name@,
                ) || lists_path(deleted@, records[j].name@) by {
                    if j < i {
                        if has_path(nodes, records[j].name@) {
                            let t = choose|t: int| 0 <= t < nodes.len() && #[trigger] path_of(nodes, t) == records[j].name@;
                            assert(path_of(now, t) == records[j].name@);
                        } else {
                            let t = choose|t: int| 0 <= t < listed.len() && (#[trigger] listed[t])@ == records[j].name@;
                            assert(deleted@[t]@ == records[j].name@);
                        }
                    } else if fresh {
                        if file.status == Status::Deleted {
                            assert(deleted@[listed.len() as int]@ == records[j].name@);
                        } else {
                            assert(path_of(now, nodes.len() as int) == records[j].name@);
                        }
                    } else {
                        if has_path(nodes, records[j].name@) {
                            let t = choose|t: int| 0 <= t < nodes.len() && #[trigger] path_of(nodes, t) == records[j].name@;
                            assert(path_of(now, t) == records[j].name@);
                        } else {
                            let t = choose|t: int| 0 <= t < listed.len() && (#[trigger] listed[t])@ == records[j].name@;
                            assert(deleted@[t]@ == records[j].name@);
                        }
                    }
                }
                assert forall|t: int| 0 <= t < now.len() implies exists|j: int|
                    0 <= j < i + 1 && (#[trigger] records[j]).name@ == #[trigger] path_of(now, t) by {
                    if t < nodes.len() {
                        let j = choose|j: int| 0 <= j < i && (#[trigger] records[j]).name@ == path_of(nodes, t);
                        assert(records[j].name@ == path_of(now, t));
                    } else {
                        assert(records[i as int].name@ == path_of(now, t));
                    }
                }
                assert forall|t: int| 0 <= t < deleted@.len() implies exists|j: int|
                    0 <= j < i + 1 && (#[trigger] records[j]).name@ == (#[trigger] deleted@[t])@ by {
                    if t < listed.len() {
                        let j = choose|j: int| 0 <= j < i && (#[trigger] records[j]).name@ == listed[t]@;
                        assert(records[j].name@ == deleted@[t]@);
                    } else {
                        assert(records[i as int].name@ == deleted@[t]@);
                    }
                }
            }
            i += 1;
        }
        let k = node_count(&graph);
        let combos = combinations_k_2(k);
        proof {
            lemma_clique_simple(k as int);
            lemma_pairs_count(k as int);
        }
        let mut e: usize = 0;
        while e < combos.len()
            invariant
                e <= combos@.len(),
                combos@ == pairs(k as int),
                combos@.len() == pair_count(k as int),
                pair_count(k as int) <= u32::MAX,
                k == graph_nodes(graph).len(),
                k <= u32::MAX,
                graph_nodes(graph) == changed(records),
                indexes(names@, graph_nodes(graph)),
                graph_edges(graph).len() == e,
                forall|f: int|
                    0 <= f < e ==> #[trigger] graph_edges(graph)[f] == (combos@[f].0, combos@[f].1, 1i64),
            decreases combos@.len() - e,
        {
            let pair = combos[e];
            proof {
                lemma_pairs_bounds(k as int, k as int, e as int);
            }
            let _ = add_edge(&mut graph, pair.0, pair.1, 1);
            e += 1;
        }
        proof {
            assert(graph_edges(graph) =~= clique(k as int));
        }
        GitGraph { graph, names, deleted, distances: false }
    }

    /// The number of nodes.
    pub fn len(&self) -> (n: usize)
        ensures
            n == self.nodes().len(),
    {
        node_count(&self.graph)
    }

    /// Whether `self` holds what graphs `a` and `b` hold together: every
    /// path of either, every pair coupled by the sum of its couplings in
    /// both, and every path that either saw deleted.
    pub open spec fn merges(&self, a: GitGraph, b: GitGraph) -> bool {
        &&& forall|x: Seq<char>| #[trigger] self.has(x) <==> a.has(x) || b.has(x)
        &&& forall|x: Seq<char>, y: Seq<char>| #[trigger] self.weight(x, y) == a.weight(x, y) + b.weight(x, y)
        &&& forall|x: Seq<char>| #[trigger] self.deletes(x) <==> a.deletes(x) || b.deletes(x)
    }

    /// Whether two graphs hold the same: the same paths, the same coupling
    /// of every pair, the same deleted paths. Which index a node or an edge
    /// has plays no part.
    pub open spec fn same_graph(&self, other: GitGraph) -> bool {
        &&& forall|x: Seq<char>| #[trigger] self.has(x) <==> other.has(x)
        &&& forall|x: Seq<char>, y: Seq<char>| #[trigger] self.weight(x, y) == other.weight(x, y)
        &&& forall|x: Seq<char>| #[trigger] self.deletes(x) <==> other.deletes(x)
    }

    /// Whether the two graphs can be merged: the container can hold their
    /// merge, and no coupling outgrows an `i64`.
    pub open spec fn fits_with(&self, other: GitGraph) -> bool {
        &&& fits(merged(self.couplings(), other.couplings()))
        &&& forall|x: Seq<char>, y: Seq<char>| #[trigger] self.weight(x, y) + other.weight(x, y) <= i64::MAX
    }

    /// Whether the two graphs can be merged, for a caller to test before it
    /// merges them.
    pub fn can_merge(&self, other: &GitGraph) -> (fits: bool)
        requires
            self.wf(),
            other.wf(),
            !self.is_distances(),
            !other.is_distances(),
        ensures
            fits == self.fits_with(*other),
    {
        let (big, small) = if self.len() >= other.len() {
            (self, other)
        } else {
            (other, self)
        };
        let ghost all = merged(self.couplings(), other.couplings());
        let ghost keep = keeps(big.nodes(), Seq::<String>::empty());
        let ghost fresh = appends(all.nodes, big.edges(), small.nodes(), Seq::<String>::empty());
        let room = room_for(&big.graph, &big.names, &small.graph, Ghost(keep), Ghost(fresh), Ghost(all.nodes));
        proof {
            assert forall|x: Seq<char>, y: Seq<char>|
                self.weight(x, y) + other.weight(x, y) == big.weight(x, y) + small.weight(x, y) by {}
            if room {
                assert forall|x: Seq<char>, y: Seq<char>| #[trigger]
                    self.weight(x, y) + other.weight(x, y) <= i64::MAX by {
                    assert(big.weight(x, y) + small.weight(x, y) <= i64::MAX);
                }
            } else if self.fits_with(*other) {
                assert forall|x: Seq<char>, y: Seq<char>| #[trigger]
                    coupling(big.nodes(), big.edges(), x, y) + coupling(small.nodes(), small.edges(), x, y)
                        <= i64::MAX by {
                    assert(self.weight(x, y) + other.weight(x, y) <= i64::MAX);
                }
            }
        }
        room
    }

    /// Merges two graphs of counts. The nodes of the smaller graph are
    /// brought into the larger one: a path that the larger graph holds is
    /// unified with its node there, any other is appended. Each edge of the
    /// smaller graph adds its weight to the edge between the same two paths,
    /// or is appended where there is none. The paths seen deleted are
    /// united.
    pub fn merge(self, other: GitGraph) -> (union: GitGraph)
        requires
            self.wf(),
            other.wf(),
            !self.is_distances(),
            !other.is_distances(),
            self.fits_with(other),
        ensures
            union.wf(),
            !union.is_distances(),
            union.couplings() == merged(self.couplings(), other.couplings()),
            union.merges(self, other),
            union.nodes().len() <= self.nodes().len() + other.nodes().len(),
            union.edges().len() <= self.edges().len() + other.edges().len(),
    {
        let ghost a = self;
        let ghost b = other;
        let (mut big, small) = if self.len() >= other.len() {
            (self, other)
        } else {
            (other, self)
        };
        let ghost large = big;
        let nothing: Vec<String> = Vec::new();
        let small_edges = edge_list(&small.graph);
        proof {
            assert(nothing@ =~= Seq::<String>::empty());
        }
        let rewrite = graft_nodes(&mut big.graph, &mut big.names, &small.graph, &nothing);
        proof {
            let nodes = graph_nodes(big.graph);
            small.nodes().lemma_filter_len(keeps(large.nodes(), nothing@));
            assert forall|x: Seq<char>, y: Seq<char>| #[trigger]
                coupling(nodes, large.edges(), x, y) + coupling(small.nodes(), small.edges(), x, y)
                    <= i64::MAX by {
                lemma_weight_more_nodes(large.nodes(), nodes, large.edges(), large.edges().len() as int, x, y);
                assert(a.weight(x, y) + b.weight(x, y) <= i64::MAX);
            }
        }
        graft_edges(&mut big.graph, &small_edges, &rewrite, Ghost(small.nodes()), Ghost(nothing@), Ghost(1int));
        merge_listings(&mut big.deleted, &small.deleted);
        proof {
            let nodes = graph_nodes(big.graph);
            assert(nothing@ =~= Seq::<String>::empty());
            assert forall|x: Seq<char>| #[trigger] big.has(x) <==> a.has(x) || b.has(x) by {
                lemma_grafted_paths(large.nodes(), small.nodes(), nodes, rewrite@, nothing@, x);
            }
            assert forall|x: Seq<char>, y: Seq<char>| #[trigger]
                big.weight(x, y) == a.weight(x, y) + b.weight(x, y) by {
                lemma_weight_more_nodes(large.nodes(), nodes, large.edges(), large.edges().len() as int, x, y);
                assert(coupling(nodes, big.edges(), x, y) == coupling(nodes, large.edges(), x, y) + kept_weight(
                    small.nodes(),
                    small.edges(),
                    nothing@,
                    small.edges().len() as int,
                    x,
                    y,
                ));
            }
        }
        big
    }

    /// The graph without the files that were seen deleted: their nodes and
    /// the edges at them are gone, all else is as it was, in the same order.
    pub fn without_deleted(self) -> (kept: GitGraph)
        requires
            self.wf(),
            !self.is_distances(),
        ensures
            kept.wf(),
            !kept.is_distances(),
            kept.couplings() == pruned(self.couplings()),
            forall|x: Seq<char>| #[trigger] kept.has(x) <==> self.has(x) && !self.deletes(x),
            forall|x: Seq<char>, y: Seq<char>| #[trigger]
                kept.weight(x, y) == if self.deletes(x) || self.deletes(y) {
                    0
                } else {
                    self.weight(x, y)
                },
    {
        let mut graph = new_graph();
        let mut names: HashMap<u64, Vec<usize>> = HashMap::new();
        let edges = edge_list(&self.graph);
        let ghost base = graph_nodes(graph);
        proof {
            self.nodes().lemma_filter_len(keeps(base, self.deleted@));
        }
        let rewrite = graft_nodes(&mut graph, &mut names, &self.graph, &self.deleted);
        proof {
            let nodes = graph_nodes(graph);
            self.edges().lemma_filter_len(appends(nodes, graph_edges(graph), self.nodes(), self.deleted@));
            assert(nodes =~= self.nodes().filter(keeps(base, self.deleted@)));
            assert forall|x: Seq<char>, y: Seq<char>| #[trigger]
                coupling(nodes, graph_edges(graph), x, y) + coupling(self.nodes(), self.edges(), x, y)
                    <= i64::MAX by {
                lemma_weight_unlinked(nodes, graph_edges(graph), 0, x, y);
                lemma_coupling_bounded(self.nodes(), self.edges(), x, y);
            }
        }
        graft_edges(&mut graph, &edges, &rewrite, Ghost(self.nodes()), Ghost(self.deleted@), Ghost(1int));
        let kept = GitGraph { graph, names, deleted: self.deleted, distances: false };
        proof {
            let nodes = kept.nodes();
            assert forall|x: Seq<char>| #[trigger] kept.has(x) <==> self.has(x) && !self.deletes(x) by {
                lemma_grafted_paths(base, self.nodes(), nodes, rewrite@, self.deleted@, x);
            }
            assert forall|x: Seq<char>, y: Seq<char>| #[trigger]
                kept.weight(x, y) == if self.deletes(x) || self.deletes(y) {
                    0
                } else {
                    self.weight(x, y)
                } by {
                lemma_weight_unlinked(nodes, Seq::<(usize, usize, i64)>::empty(), 0, x, y);
                assert(coupling(nodes, kept.edges(), x, y) == coupling(
                    nodes,
                    Seq::<(usize, usize, i64)>::empty(),
                    x,
                    y,
                ) + kept_weight(self.nodes(), self.edges(), self.deleted@, self.edges().len() as int, x, y));
            }
        }
        kept
    }

    /// Turns every count into a distance: the greatest count in the graph
    /// minus the edge's own. What changed together most often is then at
    /// distance 0. Nodes, endpoints and the deleted paths stay.
    pub fn to_distances(self) -> (after: GitGraph)
        requires
            self.wf(),
            !self.is_distances(),
        ensures
            after.wf(),
            after.couplings() == turned(self.couplings()),
    {
        let counts = edge_list(&self.graph);
        let ghost before = self.edges();
        let mut most: i64 = 0;
        let mut e: usize = 0;
        while e < counts.len()
            invariant
                e <= counts@.len(),
                most == heaviest_upto(counts@, e as int),
            decreases counts@.len() - e,
        {
            if counts[e].2 > most {
                most = counts[e].2;
            }
            e += 1;
        }
        let mut graph = self.graph;
        let mut f: usize = 0;
        while f < counts.len()
            invariant
                f <= counts@.len(),
                counts@ == before,
                before.len() <= u32::MAX,
                most == heaviest(before),
                weights_from(before, 1),
                graph_nodes(graph) == self.nodes(),
                graph_edges(graph).len() == before.len(),
                forall|h: int| 0 <= h < f ==> #[trigger] graph_edges(graph)[h] == as_distances(before)[h],
                forall|h: int| f <= h < before.len() ==> #[trigger] graph_edges(graph)[h] == before[h],
            decreases counts@.len() - f,
        {
            proof {
                lemma_heaviest(before, before.len() as int, f as int);
            }
            set_edge_weight(&mut graph, f, most - counts[f].2);
            f += 1;
        }
        proof {
            assert(graph_edges(graph) =~= as_distances(before));
            let after = graph_edges(graph);
            assert forall|h: int| 0 <= h < after.len() implies (#[trigger] after[h]).2 >= 0 by {
                lemma_heaviest(before, before.len() as int, h);
            }
            assert forall|g: int, h: int| 0 <= g < after.len() && 0 <= h < after.len() && g != h implies !joins(
                #[trigger] after[h],
                (#[trigger] after[g]).0,
                after[g].1,
            ) by {
                assert(!joins(before[h], before[g].0, before[g].1));
            }
            assert forall|h: int| 0 <= h < after.len() implies (#[trigger] after[h]).0 < self.nodes().len()
                && after[h].1 < self.nodes().len() && after[h].0 != after[h].1 by {
                assert(before[h].0 < self.nodes().len());
            }
        }
        GitGraph { graph, names: self.names, deleted: self.deleted, distances: true }
    }

    /// The graph that holds nothing.
    pub fn new() -> (graph: GitGraph)
        ensures
            graph.wf(),
            !graph.is_distances(),
            graph.nodes() == Seq::<GitFile>::empty(),
            graph.edges() == Seq::<(usize, usize, i64)>::empty(),
            graph.deleted_paths() == Seq::<String>::empty(),
    {
        GitGraph { graph: new_graph(), names: HashMap::new(), deleted: Vec::new(), distances: false }
    }

    /// The container with the nodes and edges, to read.
    pub fn graph(&self) -> (g: &Graph<GitFile, i64, Undirected>)
        ensures
            graph_nodes(*g) == self.nodes(),
            graph_edges(*g) == self.edges(),
    {
        &self.graph
    }

    /// The paths that were seen deleted.
    pub fn deleted(&self) -> (paths: &Vec<String>)
        ensures
            paths@ == self.deleted_paths(),
    {
        &self.deleted
    }

    /// Whether the weights are distances rather than counts.
    pub fn holds_distances(&self) -> (yes: bool)
        ensures
            yes == self.is_distances(),
    {
        self.distances
    }

    /// The index of the node that carries `name`, if there is one: looked
    /// up in the name table, among the nodes filed under the hash of the
    /// name.
    pub fn index_of(&self, name: &String) -> (found: Option<usize>)
        requires
            self.wf(),
        ensures
            match found {
                Some(i) => i < self.nodes().len() && path_of(self.nodes(), i as int) == name@,
                None => !self.has(name@),
            },
    {
        lookup(&self.names, &self.graph, name)
    }

    /// Whether `self` holds what the first `j` change-sets give: a node for
    /// every path that an admitted one changes, every pair coupled as often
    /// as an admitted one changes both, and every path that an admitted one
    /// deletes.
    pub open spec fn built_from(&self, sets: Seq<Vec<GitFile>>, threshold: int, j: int) -> bool {
        &&& forall|x: Seq<char>| #[trigger] self.has(x) <==> changed_in(sets, threshold, j, x)
        &&& forall|x: Seq<char>, y: Seq<char>| #[trigger]
            self.weight(x, y) == cochanges_upto(sets, threshold, j, x, y)
        &&& forall|x: Seq<char>| #[trigger] self.deletes(x) <==> removed_in(sets, threshold, j, x)
    }

    /// One more change-set that is admitted, merged in.
    proof fn lemma_built_step(self, one: GitGraph, merged: GitGraph, sets: Seq<Vec<GitFile>>, threshold: int, j: int)
        requires
            0 <= j < sets.len(),
            admitted(sets[j]@, threshold),
            self.built_from(sets, threshold, j),
            one.wf(),
            one.couplings() == single(sets[j]@),
            merged.merges(self, one) || merged.merges(one, self),
        ensures
            merged.built_from(sets, threshold, j + 1),
    {
        assert forall|x: Seq<char>| #[trigger] merged.has(x) <==> changed_in(sets, threshold, j + 1, x) by {
            assert(merged.has(x) <==> self.has(x) || one.has(x));
            assert(self.has(x) <==> changed_in(sets, threshold, j, x));
            if changed_in(sets, threshold, j, x) {
                let i = choose|i: int|
                    0 <= i < j && i < sets.len() && admitted((#[trigger] sets[i])@, threshold) && has_path(
                        changed(sets[i]@),
                        x,
                    );
                assert(0 <= i < j + 1 && admitted(sets[i]@, threshold) && has_path(changed(sets[i]@), x));
            }
            if one.has(x) {
                assert(admitted(sets[j]@, threshold) && has_path(changed(sets[j]@), x));
            }
            if changed_in(sets, threshold, j + 1, x) {
                let i = choose|i: int|
                    0 <= i < j + 1 && i < sets.len() && admitted((#[trigger] sets[i])@, threshold) && has_path(
                        changed(sets[i]@),
                        x,
                    );
                if i < j {
                    assert(changed_in(sets, threshold, j, x));
                }
            }
        }
        assert forall|x: Seq<char>, y: Seq<char>| #[trigger]
            merged.weight(x, y) == cochanges_upto(sets, threshold, j + 1, x, y) by {
            assert(merged.weight(x, y) == self.weight(x, y) + one.weight(x, y));
            assert(self.weight(x, y) == cochanges_upto(sets, threshold, j, x, y));
            lemma_clique_coupling(one.nodes(), x, y);
        }
        assert forall|x: Seq<char>| #[trigger] merged.deletes(x) <==> removed_in(sets, threshold, j + 1, x) by {
            assert(merged.deletes(x) <==> self.deletes(x) || one.deletes(x));
            assert(self.deletes(x) <==> removed_in(sets, threshold, j, x));
            if removed_in(sets, threshold, j, x) {
                let i = choose|i: int|
                    0 <= i < j && i < sets.len() && admitted((#[trigger] sets[i])@, threshold) && lists_path(
                        removed(sets[i]@),
                        x,
                    );
                assert(0 <= i < j + 1 && admitted(sets[i]@, threshold) && lists_path(removed(sets[i]@), x));
            }
            if one.deletes(x) {
                assert(admitted(sets[j]@, threshold) && lists_path(removed(sets[j]@), x));
            }
            if removed_in(sets, threshold, j + 1, x) {
                let i = choose|i: int|
                    0 <= i < j + 1 && i < sets.len() && admitted((#[trigger] sets[i])@, threshold) && lists_path(
                        removed(sets[i]@),
                        x,
                    );
                if i < j {
                    assert(removed_in(sets, threshold, j, x));
                }
            }
        }
    }

    /// One more change-set that is passed over.
    proof fn lemma_built_skip(self, sets: Seq<Vec<GitFile>>, threshold: int, j: int)
        requires
            0 <= j < sets.len(),
            !admitted(sets[j]@, threshold),
            self.built_from(sets, threshold, j),
        ensures
            self.built_from(sets, threshold, j + 1),
    {
        assert forall|x: Seq<char>| #[trigger] self.has(x) <==> changed_in(sets, threshold, j + 1, x) by {
            assert(self.has(x) <==> changed_in(sets, threshold, j, x));
            if changed_in(sets, threshold, j, x) {
                let i = choose|i: int|
                    0 <= i < j && i < sets.len() && admitted((#[trigger] sets[i])@, threshold) && has_path(
                        changed(sets[i]@),
                        x,
                    );
                assert(0 <= i < j + 1 && admitted(sets[i]@, threshold) && has_path(changed(sets[i]@), x));
            }
            if changed_in(sets, threshold, j + 1, x) {
                let i = choose|i: int|
                    0 <= i < j + 1 && i < sets.len() && admitted((#[trigger] sets[i])@, threshold) && has_path(
                        changed(sets[i]@),
                        x,
                    );
                assert(i < j);
            }
        }
        assert forall|x: Seq<char>, y: Seq<char>| #[trigger]
            self.weight(x, y) == cochanges_upto(sets, threshold, j + 1, x, y) by {
            assert(self.weight(x, y) == cochanges_upto(sets, threshold, j, x, y));
        }
        assert forall|x: Seq<char>| #[trigger] self.deletes(x) <==> removed_in(sets, threshold, j + 1, x) by {
            assert(self.deletes(x) <==> removed_in(sets, threshold, j, x));
            if removed_in(sets, threshold, j, x) {
                let i = choose|i: int|
                    0 <= i < j && i < sets.len() && admitted((#[trigger] sets[i])@, threshold) && lists_path(
                        removed(sets[i]@),
                        x,
                    );
                assert(0 <= i < j + 1 && admitted(sets[i]@, threshold) && lists_path(removed(sets[i]@), x));
            }
            if removed_in(sets, threshold, j + 1, x) {
                let i = choose|i: int|
                    0 <= i < j + 1 && i < sets.len() && admitted((#[trigger] sets[i])@, threshold) && lists_path(
                        removed(sets[i]@),
                        x,
                    );
                assert(i < j);
            }
        }
    }
}

impl Default for GitGraph {
    fn default() -> (graph: GitGraph)
        ensures
            graph.wf(),
            !graph.is_distances(),
            graph.nodes() == Seq::<GitFile>::empty(),
            graph.edges() == Seq::<(usize, usize, i64)>::empty(),
            graph.deleted_paths() == Seq::<String>::empty(),
    {
        GitGraph::new()
    }
}

/// The threshold that `build_graph` applies: a change-set with more records
/// is passed over.
pub const MAX_CHANGES: usize = 40;

/// Whether the change-sets can be built into one graph: the container can
/// hold the graph of every admitted change-set and the graph of every run
/// of change-sets from the first on, and no coupling outgrows an `i64`.
pub open spec fn buildable(sets: Seq<Vec<GitFile>>, threshold: int) -> bool {
    &&& forall|j: int|
        0 <= j < sets.len() && admitted((#[trigger] sets[j])@, threshold) ==> pair_count(
            changed(sets[j]@).len() as int,
        ) <= u32::MAX
    &&& forall|j: int| 0 <= j <= sets.len() ==> fits(#[trigger] built(sets, threshold, j))
    &&& forall|x: Seq<char>, y: Seq<char>| #[trigger]
        cochanges_upto(sets, threshold, sets.len() as int, x, y) <= i64::MAX
}

/// Builds the graph of a run of change-sets, deleted files still in it: the
/// graph of each admitted change-set, merged one after the other.
pub fn build_shard(changes: &Vec<ChangeSet>, threshold: usize) -> (graph: GitGraph)
    requires
        buildable(changes@, threshold as int),
    ensures
        graph.wf(),
        !graph.is_distances(),
        graph.couplings() == built(changes@, threshold as int, changes@.len() as int),
        graph.built_from(changes@, threshold as int, changes@.len() as int),
{
    let ghost sets = changes@;
    let ghost limit = threshold as int;
    let mut graph = GitGraph::new();
    let mut j: usize = 0;
    proof {
        assert forall|x: Seq<char>, y: Seq<char>| #[trigger] graph.weight(x, y) == 0 by {
            lemma_weight_unlinked(graph.nodes(), graph.edges(), 0, x, y);
        }
    }
    while j < changes.len()
        invariant
            j <= sets.len(),
            sets == changes@,
            limit == threshold,
            buildable(sets, limit),
            graph.wf(),
            !graph.is_distances(),
            graph.built_from(sets, limit, j as int),
            graph.couplings() == built(sets, limit, j as int),
        decreases sets.len() - j,
    {
        if changes[j].len() <= threshold {
            proof {
                assert(admitted(sets[j as int]@, limit));
            }
            let one = GitGraph::from_records(&changes[j]);
            let ghost before = graph;
            proof {
                lemma_clique_simple(one.nodes().len() as int);
                assert forall|x: Seq<char>, y: Seq<char>| #[trigger]
                    graph.weight(x, y) + one.weight(x, y) <= i64::MAX by {
                    lemma_cochanges_grow(sets, limit, j + 1, sets.len() as int, x, y);
                    lemma_clique_coupling(one.nodes(), x, y);
                    assert(graph.weight(x, y) == cochanges_upto(sets, limit, j as int, x, y));
                    assert(cochanges_upto(sets, limit, sets.len() as int, x, y) <= i64::MAX);
                }
                assert(fits(built(sets, limit, j + 1)));
            }
            graph = graph.merge(one);
            proof {
                before.lemma_built_step(one, graph, sets, limit, j as int);
            }
        } else {
            proof {
                graph.lemma_built_skip(sets, limit, j as int);
            }
        }
        j += 1;
    }
    graph
}

/// Builds the final graph of all change-sets: `build_shard`, and then, if
/// asked for, every file that was seen deleted is dropped.
pub fn build_graph_with(changes: Vec<ChangeSet>, threshold: usize, drop_deleted: bool) -> (graph: GitGraph)
    requires
        buildable(changes@, threshold as int),
    ensures
        graph.wf(),
        !graph.is_distances(),
        graph.couplings() == if drop_deleted {
            pruned(built(changes@, threshold as int, changes@.len() as int))
        } else {
            built(changes@, threshold as int, changes@.len() as int)
        },
        forall|x: Seq<char>| #[trigger]
            graph.has(x) <==> changed_in(changes@, threshold as int, changes@.len() as int, x) && !(drop_deleted
                && removed_in(changes@, threshold as int, changes@.len() as int, x)),
        forall|x: Seq<char>, y: Seq<char>| #[trigger]
            graph.weight(x, y) == if drop_deleted && (removed_in(
                changes@,
                threshold as int,
                changes@.len() as int,
                x,
            ) || removed_in(changes@, threshold as int, changes@.len() as int, y)) {
                0
            } else {
                cochanges_upto(changes@, threshold as int, changes@.len() as int, x, y)
            },
        forall|x: Seq<char>| #[trigger]
            graph.deletes(x) <==> removed_in(changes@, threshold as int, changes@.len() as int, x),
{
    let all = build_shard(&changes, threshold);
    if drop_deleted {
        let kept = all.without_deleted();
        proof {
            assert forall|x: Seq<char>| #[trigger]
                kept.deletes(x) <==> removed_in(changes@, threshold as int, changes@.len() as int, x) by {
                assert(all.deletes(x) <==> removed_in(changes@, threshold as int, changes@.len() as int, x));
            }
            assert forall|x: Seq<char>| #[trigger]
                kept.has(x) <==> changed_in(changes@, threshold as int, changes@.len() as int, x) && !removed_in(
                    changes@,
                    threshold as int,
                    changes@.len() as int,
                    x,
                ) by {
                assert(all.has(x) <==> changed_in(changes@, threshold as int, changes@.len() as int, x));
                assert(all.deletes(x) <==> removed_in(changes@, threshold as int, changes@.len() as int, x));
            }
            assert forall|x: Seq<char>, y: Seq<char>| #[trigger]
                kept.weight(x, y) == if removed_in(changes@, threshold as int, changes@.len() as int, x)
                    || removed_in(changes@, threshold as int, changes@.len() as int, y) {
                    0
                } else {
                    cochanges_upto(changes@, threshold as int, changes@.len() as int, x, y)
                } by {
                assert(all.weight(x, y) == cochanges_upto(changes@, threshold as int, changes@.len() as int, x, y));
                assert(all.deletes(x) <==> removed_in(changes@, threshold as int, changes@.len() as int, x));
                assert(all.deletes(y) <==> removed_in(changes@, threshold as int, changes@.len() as int, y));
            }
        }
        kept
    } else {
        all
    }
}

/// Builds the final graph of all change-sets with the usual settings:
/// change-sets of more than `MAX_CHANGES` records are passed over, and files
/// that were seen deleted are dropped, whenever that was.
pub fn build_graph(changes: Vec<ChangeSet>) -> (graph: GitGraph)
    requires
        buildable(changes@, MAX_CHANGES as int),
    ensures
        graph.wf(),
        !graph.is_distances(),
        graph.couplings() == pruned(built(changes@, MAX_CHANGES as int, changes@.len() as int)),
        forall|x: Seq<char>| #[trigger]
            graph.has(x) <==> changed_in(changes@, MAX_CHANGES as int, changes@.len() as int, x) && !removed_in(
                changes@,
                MAX_CHANGES as int,
                changes@.len() as int,
                x,
            ),
        forall|x: Seq<char>, y: Seq<char>| #[trigger]
            graph.weight(x, y) == if removed_in(changes@, MAX_CHANGES as int, changes@.len() as int, x)
                || removed_in(changes@, MAX_CHANGES as int, changes@.len() as int, y) {
                0
            } else {
                cochanges_upto(changes@, MAX_CHANGES as int, changes@.len() as int, x, y)
            },
        forall|x: Seq<char>| #[trigger]
            graph.deletes(x) <==> removed_in(changes@, MAX_CHANGES as int, changes@.len() as int, x),
{
    build_graph_with(changes, MAX_CHANGES, true)
}

/// Builds the graph of a run of change-sets as `build_shard` does, testing
/// before every step whether the container can hold the outcome: `None`
/// where it cannot.
pub fn try_build_shard(changes: &Vec<ChangeSet>, threshold: usize) -> (outcome: Option<GitGraph>)
    ensures
        outcome is Some <==> buildable(changes@, threshold as int),
        outcome matches Some(graph) ==> graph.wf() && !graph.is_distances() && graph.couplings() == built(
            changes@,
            threshold as int,
            changes@.len() as int,
        ) && graph.built_from(changes@, threshold as int, changes@.len() as int),
{
    let ghost sets = changes@;
    let ghost limit = threshold as int;
    let mut graph = GitGraph::new();
    let mut j: usize = 0;
    proof {
        assert forall|x: Seq<char>, y: Seq<char>| #[trigger] graph.weight(x, y) == 0 by {
            lemma_weight_unlinked(graph.nodes(), graph.edges(), 0, x, y);
        }
    }
    while j < changes.len()
        invariant
            j <= sets.len(),
            sets == changes@,
            limit == threshold,
            graph.wf(),
            !graph.is_distances(),
            graph.built_from(sets, limit, j as int),
            graph.couplings() == built(sets, limit, j as int),
            forall|i: int|
                0 <= i < j && admitted((#[trigger] sets[i])@, limit) ==> pair_count(changed(sets[i]@).len() as int)
                    <= u32::MAX,
            forall|i: int| 0 <= i <= j ==> fits(#[trigger] built(sets, limit, i)),
        decreases sets.len() - j,
    {
        if changes[j].len() <= threshold {
            proof {
                assert(admitted(sets[j as int]@, limit));
            }
            let one = match GitGraph::try_from_records(&changes[j]) {
                Some(one) => one,
                None => {
                    return None;
                },
            };
            let ghost before = graph;
            proof {
                lemma_clique_simple(one.nodes().len() as int);
                assert(merged(graph.couplings(), one.couplings()) == built(sets, limit, j + 1));
            }
            if !graph.can_merge(&one) {
                proof {
                    if fits(built(sets, limit, j + 1)) {
                        let (x, y) = choose|x: Seq<char>, y: Seq<char>| #[trigger]
                            graph.weight(x, y) + one.weight(x, y) > i64::MAX;
                        lemma_clique_coupling(one.nodes(), x, y);
                        assert(graph.weight(x, y) == cochanges_upto(sets, limit, j as int, x, y));
                        lemma_cochanges_grow(sets, limit, j + 1, sets.len() as int, x, y);
                        assert(cochanges_upto(sets, limit, sets.len() as int, x, y) > i64::MAX);
                    }
                }
                return None;
            }
            graph = graph.merge(one);
            proof {
                before.lemma_built_step(one, graph, sets, limit, j as int);
                assert forall|i: int| 0 <= i <= j + 1 implies fits(#[trigger] built(sets, limit, i)) by {
                    if i == j + 1 {
                        assert(graph.couplings() == built(sets, limit, j + 1));
                    }
                }
            }
        } else {
            proof {
                graph.lemma_built_skip(sets, limit, j as int);
            }
        }
        j += 1;
    }
    proof {
        assert forall|x: Seq<char>, y: Seq<char>| #[trigger]
            cochanges_upto(sets, limit, sets.len() as int, x, y) <= i64::MAX by {
            lemma_coupling_bounded(graph.nodes(), graph.edges(), x, y);
            assert(graph.weight(x, y) == cochanges_upto(sets, limit, sets.len() as int, x, y));
        }
    }
    Some(graph)
}

/// Builds the final graph of all change-sets as `build_graph_with` does, or
/// gives `None` where the container cannot hold it.
pub fn try_build_graph_with(changes: Vec<ChangeSet>, threshold: usize, drop_deleted: bool) -> (outcome: Option<GitGraph>)
    ensures
        outcome is Some <==> buildable(changes@, threshold as int),
        outcome matches Some(graph) ==> graph.wf() && graph.couplings() == if drop_deleted {
            pruned(built(changes@, threshold as int, changes@.len() as int))
        } else {
            built(changes@, threshold as int, changes@.len() as int)
        },
{
    match try_build_shard(&changes, threshold) {
        Some(all) => {
            if drop_deleted {
                Some(all.without_deleted())
            } else {
                Some(all)
            }
        },
        None => None,
    }
}

/// Builds the final graph of all change-sets with the usual settings as
/// `build_graph` does, or gives `None` where the container cannot hold it.
pub fn try_build_graph(changes: Vec<ChangeSet>) -> (outcome: Option<GitGraph>)
    ensures
        outcome is Some <==> buildable(changes@, MAX_CHANGES as int),
        outcome matches Some(graph) ==> graph.wf() && graph.couplings() == pruned(
            built(changes@, MAX_CHANGES as int, changes@.len() as int),
        ),
{
    try_build_graph_with(changes, MAX_CHANGES, true)
}

} // verus!
