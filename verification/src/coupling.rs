//! The co-change graph as mathematics: which paths it holds, how strongly two
//! paths are coupled, and what one change-set contributes.

use crate::git_graph::{GitFile, Status};
use crate::store::joins;
use vstd::prelude::*;

verus! {

/// The path of the `i`-th node.
pub open spec fn path_of(nodes: Seq<GitFile>, i: int) -> Seq<char> {
    nodes[i].name@
}

/// Whether some node carries path `x`.
pub open spec fn has_path(nodes: Seq<GitFile>, x: Seq<char>) -> bool {
    exists|i: int| 0 <= i < nodes.len() && #[trigger] path_of(nodes, i) == x
}

/// Whether `paths` lists `x`.
pub open spec fn lists_path(paths: Seq<String>, x: Seq<char>) -> bool {
    exists|i: int| 0 <= i < paths.len() && (#[trigger] paths[i])@ == x
}

/// No two nodes carry the same path.
pub open spec fn distinct_paths(nodes: Seq<GitFile>) -> bool {
    forall|i: int, j: int|
        0 <= i < nodes.len() && 0 <= j < nodes.len() && i != j ==> #[trigger] path_of(nodes, i) != #[trigger] path_of(
            nodes,
            j,
        )
}

/// Whether edge `e` connects the nodes that carry `x` and `y`.
pub open spec fn links(nodes: Seq<GitFile>, e: (usize, usize, i64), x: Seq<char>, y: Seq<char>) -> bool {
    (path_of(nodes, e.0 as int) == x && path_of(nodes, e.1 as int) == y) || (path_of(nodes, e.0 as int) == y
        && path_of(nodes, e.1 as int) == x)
}

/// The summed weight of the first `m` edges that connect `x` and `y`.
pub open spec fn weight_upto(
    nodes: Seq<GitFile>,
    edges: Seq<(usize, usize, i64)>,
    m: int,
    x: Seq<char>,
    y: Seq<char>,
) -> int
    decreases m,
{
    if m <= 0 {
        0
    } else {
        weight_upto(nodes, edges, m - 1, x, y) + if links(nodes, edges[m - 1], x, y) {
            edges[m - 1].2 as int
        } else {
            0
        }
    }
}

/// How strongly `x` and `y` are coupled: the weight of the edge between them,
/// 0 where there is none.
pub open spec fn coupling(nodes: Seq<GitFile>, edges: Seq<(usize, usize, i64)>, x: Seq<char>, y: Seq<char>) -> int {
    weight_upto(nodes, edges, edges.len() as int, x, y)
}

/// Every edge connects two different nodes of the graph, and no two edges
/// connect the same pair.
pub open spec fn simple_edges(n: int, edges: Seq<(usize, usize, i64)>) -> bool {
    &&& forall|e: int|
        0 <= e < edges.len() ==> (#[trigger] edges[e]).0 < n && edges[e].1 < n && edges[e].0 != edges[e].1
    &&& forall|e: int, f: int|
        0 <= e < edges.len() && 0 <= f < edges.len() && e != f ==> !joins(
            #[trigger] edges[f],
            (#[trigger] edges[e]).0,
            edges[e].1,
        )
}

/// Every weight is at least `floor`.
pub open spec fn weights_from(edges: Seq<(usize, usize, i64)>, floor: int) -> bool {
    forall|e: int| 0 <= e < edges.len() ==> (#[trigger] edges[e]).2 >= floor
}

/// The test that a node of another graph passes when it is to be added to
/// nodes `into`: its path is neither there already nor on the `skip` list.
pub open spec fn keeps(into: Seq<GitFile>, skip: Seq<String>) -> spec_fn(GitFile) -> bool {
    |file: GitFile| !has_path(into, file.name@) && !lists_path(skip, file.name@)
}

/// The test that a path passes when it is to be added to the list `into`.
pub open spec fn unlisted(into: Seq<String>) -> spec_fn(String) -> bool {
    |path: String| !lists_path(into, path@)
}

/// What the pair `x`, `y` gets from another graph whose nodes on the `skip`
/// list are left out: its coupling there up to edge `m`, unless `x` or `y` is
/// left out.
pub open spec fn kept_weight(
    nodes: Seq<GitFile>,
    edges: Seq<(usize, usize, i64)>,
    skip: Seq<String>,
    m: int,
    x: Seq<char>,
    y: Seq<char>,
) -> int {
    if lists_path(skip, x) || lists_path(skip, y) {
        0
    } else {
        weight_upto(nodes, edges, m, x, y)
    }
}

/// Where each of the first `i` nodes of `from` has gone in `nodes`: to the
/// node with its path, or nowhere if its path is on the `skip` list.
pub open spec fn maps_to(
    rewrite: Seq<Option<usize>>,
    from: Seq<GitFile>,
    nodes: Seq<GitFile>,
    skip: Seq<String>,
    i: int,
) -> bool {
    forall|j: int|
        0 <= j < i ==> match #[trigger] rewrite[j] {
            Some(t) => t < nodes.len() && path_of(nodes, t as int) == path_of(from, j) && !lists_path(
                skip,
                path_of(from, j),
            ),
            None => lists_path(skip, path_of(from, j)),
        }
}

/// The index of the node that carries `x`.
pub open spec fn place(nodes: Seq<GitFile>, x: Seq<char>) -> usize {
    choose|i: usize| i < nodes.len() && path_of(nodes, i as int) == x
}

/// Whether some edge connects the nodes that carry `x` and `y`.
pub open spec fn linked(nodes: Seq<GitFile>, edges: Seq<(usize, usize, i64)>, x: Seq<char>, y: Seq<char>) -> bool {
    exists|e: int| 0 <= e < edges.len() && links(nodes, #[trigger] edges[e], x, y)
}

/// The test that an edge of another graph passes when it is to be appended
/// to `edges`: neither endpoint is left out, and `edges` does not connect
/// its pair of paths yet.
pub open spec fn appends(
    nodes: Seq<GitFile>,
    edges: Seq<(usize, usize, i64)>,
    from: Seq<GitFile>,
    skip: Seq<String>,
) -> spec_fn((usize, usize, i64)) -> bool {
    |e: (usize, usize, i64)|
        !lists_path(skip, path_of(from, e.0 as int)) && !lists_path(skip, path_of(from, e.1 as int)) && !linked(
            nodes,
            edges,
            path_of(from, e.0 as int),
            path_of(from, e.1 as int),
        )
}

/// An edge of another graph as it is appended: between the nodes that carry
/// the paths of its endpoints, with its weight.
pub open spec fn moved(nodes: Seq<GitFile>, from: Seq<GitFile>) -> spec_fn((usize, usize, i64)) -> (
    usize,
    usize,
    i64,
) {
    |e: (usize, usize, i64)| (place(nodes, path_of(from, e.0 as int)), place(nodes, path_of(from, e.1 as int)), e.2)
}

/// The edge connects the paths that the `k`-th edge of another graph
/// connects there.
pub open spec fn came_from(
    edge: (usize, usize, i64),
    nodes: Seq<GitFile>,
    other: Seq<(usize, usize, i64)>,
    from: Seq<GitFile>,
    k: int,
) -> bool {
    &&& 0 <= k < other.len()
    &&& path_of(nodes, edge.0 as int) == path_of(from, other[k].0 as int)
    &&& path_of(nodes, edge.1 as int) == path_of(from, other[k].1 as int)
}

/// The edge connects the paths that one of the first `e` edges of another
/// graph connects there.
pub open spec fn sourced(
    edge: (usize, usize, i64),
    nodes: Seq<GitFile>,
    other: Seq<(usize, usize, i64)>,
    from: Seq<GitFile>,
    e: int,
) -> bool {
    exists|k: int| k < e && #[trigger] came_from(edge, nodes, other, from, k)
}

/// One of the first `i` nodes has gone to index `t`.
pub open spec fn targets(rewrite: Seq<Option<usize>>, i: int, t: int) -> bool {
    exists|j: int| 0 <= j < i && j < rewrite.len() && #[trigger] rewrite[j] == Some(t as usize)
}

// ---------------------------------------------------------------------------
// One change-set
// ---------------------------------------------------------------------------

/// The `i`-th record is the first one of its path, and the path is not empty.
pub open spec fn first_seen(records: Seq<GitFile>, i: int) -> bool {
    &&& records[i].name@.len() > 0
    &&& forall|j: int| 0 <= j < i ==> (#[trigger] records[j]).name@ != records[i].name@
}

/// The files that the first `i` records change: the first record of each
/// path, unless it deletes the file or names no path, in record order.
pub open spec fn changed_upto(records: Seq<GitFile>, i: int) -> Seq<GitFile>
    decreases i,
{
    if i <= 0 {
        Seq::empty()
    } else if first_seen(records, i - 1) && records[i - 1].status != Status::Deleted {
        changed_upto(records, i - 1).push(records[i - 1])
    } else {
        changed_upto(records, i - 1)
    }
}

/// The paths that the first `i` records delete: the first record of each
/// path where it deletes the file, in record order.
pub open spec fn removed_upto(records: Seq<GitFile>, i: int) -> Seq<String>
    decreases i,
{
    if i <= 0 {
        Seq::empty()
    } else if first_seen(records, i - 1) && records[i - 1].status == Status::Deleted {
        removed_upto(records, i - 1).push(records[i - 1].name)
    } else {
        removed_upto(records, i - 1)
    }
}

/// The files that a change-set changes.
pub open spec fn changed(records: Seq<GitFile>) -> Seq<GitFile> {
    changed_upto(records, records.len() as int)
}

/// The paths that a change-set deletes.
pub open spec fn removed(records: Seq<GitFile>) -> Seq<String> {
    removed_upto(records, records.len() as int)
}

// ---------------------------------------------------------------------------
// Whole graphs
// ---------------------------------------------------------------------------

/// What a graph holds: its nodes and its edges by index, the paths that
/// were seen deleted, and whether its weights are distances rather than
/// counts.
pub struct Couplings {
    pub nodes: Seq<GitFile>,
    pub edges: Seq<(usize, usize, i64)>,
    pub deleted: Seq<String>,
    pub distances: bool,
}

/// The edges of a graph after another graph was brought in, `nodes` being
/// the nodes it then has. The edges it had keep their place and their
/// endpoints, and each gains what the other graph gives its pair. Behind
/// them follow the other graph's edges that pass the test of `appends`, in
/// their order, moved to the nodes that carry their paths.
pub open spec fn grafted_edges(
    nodes: Seq<GitFile>,
    base: Seq<(usize, usize, i64)>,
    from: Seq<GitFile>,
    other: Seq<(usize, usize, i64)>,
    skip: Seq<String>,
) -> Seq<(usize, usize, i64)> {
    Seq::new(
        base.len(),
        |f: int|
            (
                base[f].0,
                base[f].1,
                (base[f].2 + kept_weight(
                    from,
                    other,
                    skip,
                    other.len() as int,
                    path_of(nodes, base[f].0 as int),
                    path_of(nodes, base[f].1 as int),
                )) as i64,
            ),
    ) + other.filter(appends(nodes, base, from, skip)).map_values(moved(nodes, from))
}

/// The graph of one change-set: a node for every file it changes, every two
/// of them coupled once, and the paths it deletes.
pub open spec fn single(records: Seq<GitFile>) -> Couplings {
    Couplings {
        nodes: changed(records),
        edges: clique(changed(records).len() as int),
        deleted: removed(records),
        distances: false,
    }
}

/// The merge of two graphs: the one with fewer nodes (the second, where
/// they have as many) is brought into the other.
pub open spec fn merged(a: Couplings, b: Couplings) -> Couplings {
    let big = if a.nodes.len() >= b.nodes.len() {
        a
    } else {
        b
    };
    let small = if a.nodes.len() >= b.nodes.len() {
        b
    } else {
        a
    };
    let nodes = big.nodes + small.nodes.filter(keeps(big.nodes, Seq::empty()));
    Couplings {
        nodes,
        edges: grafted_edges(nodes, big.edges, small.nodes, small.edges, Seq::empty()),
        deleted: big.deleted + small.deleted.filter(unlisted(big.deleted)),
        distances: a.distances || b.distances,
    }
}

/// Whether the container can hold the graph: neither array outgrows its
/// `u32` index type.
pub open spec fn fits(all: Couplings) -> bool {
    all.nodes.len() <= u32::MAX && all.edges.len() <= u32::MAX
}

/// The graph without the files that were seen deleted.
pub open spec fn pruned(all: Couplings) -> Couplings {
    let nodes = all.nodes.filter(keeps(Seq::empty(), all.deleted));
    Couplings {
        nodes,
        edges: grafted_edges(nodes, Seq::empty(), all.nodes, all.edges, all.deleted),
        deleted: all.deleted,
        distances: all.distances,
    }
}

/// The graph of the first `j` change-sets: the graphs of those that are
/// admitted, merged one after the other into a graph that starts empty.
pub open spec fn built(sets: Seq<Vec<GitFile>>, threshold: int, j: int) -> Couplings
    decreases j,
{
    if j <= 0 {
        Couplings { nodes: Seq::empty(), edges: Seq::empty(), deleted: Seq::empty(), distances: false }
    } else if admitted(sets[j - 1]@, threshold) {
        merged(built(sets, threshold, j - 1), single(sets[j - 1]@))
    } else {
        built(sets, threshold, j - 1)
    }
}

// ---------------------------------------------------------------------------
// Distances
// ---------------------------------------------------------------------------

/// The greatest weight among the first `m` edges, 0 where there is none.
pub open spec fn heaviest_upto(edges: Seq<(usize, usize, i64)>, m: int) -> int
    decreases m,
{
    if m <= 0 {
        0
    } else {
        let rest = heaviest_upto(edges, m - 1);
        if edges[m - 1].2 > rest {
            edges[m - 1].2 as int
        } else {
            rest
        }
    }
}

/// The greatest weight in the graph, 0 where it has no edge.
pub open spec fn heaviest(edges: Seq<(usize, usize, i64)>) -> int {
    heaviest_upto(edges, edges.len() as int)
}

/// The edges with each count turned into a distance: the greatest count
/// minus the edge's own, so that what changes together often lies close.
pub open spec fn as_distances(edges: Seq<(usize, usize, i64)>) -> Seq<(usize, usize, i64)> {
    Seq::new(edges.len(), |e: int| (edges[e].0, edges[e].1, (heaviest(edges) - edges[e].2) as i64))
}

/// The graph with every count turned into a distance.
pub open spec fn turned(all: Couplings) -> Couplings {
    Couplings { nodes: all.nodes, edges: as_distances(all.edges), deleted: all.deleted, distances: true }
}

// ---------------------------------------------------------------------------
// Many change-sets
// ---------------------------------------------------------------------------

/// Whether a change-set is small enough to count: one with more records than
/// the threshold says nothing about coupling and is passed over.
pub open spec fn admitted(records: Seq<GitFile>, threshold: int) -> bool {
    records.len() <= threshold
}

/// What one change-set gives the pair `x`, `y`: 1 if it changes both.
pub open spec fn cochange(records: Seq<GitFile>, x: Seq<char>, y: Seq<char>) -> int {
    if x != y && has_path(changed(records), x) && has_path(changed(records), y) {
        1
    } else {
        0
    }
}

/// In how many of the first `j` change-sets that are admitted `x` and `y`
/// change together.
pub open spec fn cochanges_upto(sets: Seq<Vec<GitFile>>, threshold: int, j: int, x: Seq<char>, y: Seq<char>) -> int
    decreases j,
{
    if j <= 0 {
        0
    } else {
        cochanges_upto(sets, threshold, j - 1, x, y) + if admitted(sets[j - 1]@, threshold) {
            cochange(sets[j - 1]@, x, y)
        } else {
            0
        }
    }
}

/// Whether one of the first `j` change-sets is admitted and changes `x`.
pub open spec fn changed_in(sets: Seq<Vec<GitFile>>, threshold: int, j: int, x: Seq<char>) -> bool {
    exists|i: int|
        0 <= i < j && i < sets.len() && admitted((#[trigger] sets[i])@, threshold) && has_path(changed(sets[i]@), x)
}

/// Whether one of the first `j` change-sets is admitted and deletes `x`.
pub open spec fn removed_in(sets: Seq<Vec<GitFile>>, threshold: int, j: int, x: Seq<char>) -> bool {
    exists|i: int|
        0 <= i < j && i < sets.len() && admitted((#[trigger] sets[i])@, threshold) && lists_path(
            removed(sets[i]@),
            x,
        )
}

// ---------------------------------------------------------------------------
// Pairs
// ---------------------------------------------------------------------------

/// The pairs `(x, y)` with `y` from `x + 1` up to `x + 1 + len`.
pub open spec fn pair_row(x: usize, len: int) -> Seq<(usize, usize)> {
    Seq::new(len as nat, |j: int| (x, (x + 1 + j) as usize))
}

/// The pairs `(x, y)` with `x < rows` and `x < y < n`, ordered by `x` and
/// then by `y`.
pub open spec fn pairs_upto(rows: int, n: int) -> Seq<(usize, usize)>
    decreases rows,
{
    if rows <= 0 {
        Seq::empty()
    } else {
        pairs_upto(rows - 1, n) + pair_row((rows - 1) as usize, n - rows)
    }
}

/// All pairs of two different numbers below `n`, smaller first, in
/// lexicographic order.
pub open spec fn pairs(n: int) -> Seq<(usize, usize)> {
    pairs_upto(n, n)
}

/// The number of pairs of two different numbers below `n`.
pub open spec fn pair_count(n: int) -> int {
    n * (n - 1) / 2
}

/// The edges that couple every two of `n` files once.
pub open spec fn clique(n: int) -> Seq<(usize, usize, i64)> {
    pairs(n).map_values(|p: (usize, usize)| (p.0, p.1, 1i64))
}

/// No path is listed twice, and none is empty.
pub open spec fn distinct_listing(paths: Seq<String>) -> bool {
    &&& forall|i: int| 0 <= i < paths.len() ==> (#[trigger] paths[i])@.len() > 0
    &&& forall|i: int, j: int|
        0 <= i < paths.len() && 0 <= j < paths.len() && i != j ==> (#[trigger] paths[i])@ != (#[trigger] paths[j])@
}

/// Every node names a path and stands for a file that exists.
pub open spec fn live_nodes(nodes: Seq<GitFile>) -> bool {
    forall|i: int|
        0 <= i < nodes.len() ==> (#[trigger] nodes[i]).name@.len() > 0 && nodes[i].status != Status::Deleted
}

// ---------------------------------------------------------------------------
// Lemmas on pairs
// ---------------------------------------------------------------------------

/// Twice the number of pairs in the first `rows` rows.
pub proof fn lemma_pairs_len(rows: int, n: int)
    requires
        0 <= rows <= n,
    ensures
        2 * pairs_upto(rows, n).len() == 2 * rows * n - rows * (rows + 1),
    decreases rows,
{
    if rows > 0 {
        lemma_pairs_len(rows - 1, n);
        assert(pairs_upto(rows, n).len() == pairs_upto(rows - 1, n).len() + (n - rows));
        assert(2 * (rows - 1) * n - (rows - 1) * rows + 2 * (n - rows) == 2 * rows * n - rows * (rows + 1))
            by (nonlinear_arith);
    } else {
        assert(2 * rows * n - rows * (rows + 1) == 0) by (nonlinear_arith)
            requires
                rows == 0,
        ;
    }
}

/// There are `n (n - 1) / 2` pairs.
pub proof fn lemma_pairs_count(n: int)
    requires
        0 <= n,
    ensures
        pairs(n).len() == pair_count(n),
{
    lemma_pairs_len(n, n);
    assert(2 * n * n - n * (n + 1) == n * (n - 1)) by (nonlinear_arith);
}

/// Every pair of the first `rows` rows is `(x, y)` with `x < rows` and
/// `x < y < n`.
pub proof fn lemma_pairs_bounds(rows: int, n: int, i: int)
    requires
        0 <= rows <= n <= usize::MAX,
        0 <= i < pairs_upto(rows, n).len(),
    ensures
        pairs_upto(rows, n)[i].0 < rows,
        pairs_upto(rows, n)[i].0 < pairs_upto(rows, n)[i].1 < n,
    decreases rows,
{
    if rows > 0 {
        let before = pairs_upto(rows - 1, n);
        if i < before.len() {
            lemma_pairs_bounds(rows - 1, n, i);
        }
    }
}

/// The pairs are in strictly increasing lexicographic order.
pub proof fn lemma_pairs_sorted(rows: int, n: int, i: int, j: int)
    requires
        0 <= rows <= n <= usize::MAX,
        0 <= i < j < pairs_upto(rows, n).len(),
    ensures
        ({
            let p = pairs_upto(rows, n)[i];
            let q = pairs_upto(rows, n)[j];
            p.0 < q.0 || (p.0 == q.0 && p.1 < q.1)
        }),
    decreases rows,
{
    if rows > 0 {
        let before = pairs_upto(rows - 1, n);
        if j < before.len() {
            lemma_pairs_sorted(rows - 1, n, i, j);
        } else if i < before.len() {
            lemma_pairs_bounds(rows - 1, n, i);
        }
    }
}

/// Every pair `(x, y)` with `x < rows` and `x < y < n` is among the first
/// `rows` rows.
pub proof fn lemma_pairs_complete(rows: int, n: int, x: usize, y: usize) -> (i: int)
    requires
        0 <= rows <= n <= usize::MAX,
        x < rows,
        x < y < n,
    ensures
        0 <= i < pairs_upto(rows, n).len(),
        pairs_upto(rows, n)[i] == (x, y),
    decreases rows,
{
    let before = pairs_upto(rows - 1, n);
    if x < rows - 1 {
        lemma_pairs_complete(rows - 1, n, x, y)
    } else {
        let i = before.len() + (y - x - 1);
        assert(pair_row((rows - 1) as usize, n - rows)[y - x - 1] == (x, y));
        i
    }
}

/// The clique on `n` nodes has simple edges of weight 1.
pub proof fn lemma_clique_simple(n: int)
    requires
        0 <= n <= usize::MAX,
    ensures
        simple_edges(n, clique(n)),
        weights_from(clique(n), 1),
        clique(n).len() == pair_count(n),
{
    lemma_pairs_count(n);
    let edges = clique(n);
    assert forall|e: int| 0 <= e < edges.len() implies (#[trigger] edges[e]).0 < n && edges[e].1 < n && edges[e].0
        != edges[e].1 by {
        lemma_pairs_bounds(n, n, e);
    }
    assert forall|e: int, f: int| 0 <= e < edges.len() && 0 <= f < edges.len() && e != f implies !joins(
        #[trigger] edges[f],
        (#[trigger] edges[e]).0,
        edges[e].1,
    ) by {
        lemma_pairs_bounds(n, n, e);
        lemma_pairs_bounds(n, n, f);
        if e < f {
            lemma_pairs_sorted(n, n, e, f);
        } else {
            lemma_pairs_sorted(n, n, f, e);
        }
    }
}

// ---------------------------------------------------------------------------
// Lemmas on change-sets
// ---------------------------------------------------------------------------

/// More records change no fewer files.
pub proof fn lemma_changed_grows(records: Seq<GitFile>, i: int, j: int)
    requires
        0 <= i <= j,
    ensures
        changed_upto(records, i).len() <= changed_upto(records, j).len(),
        removed_upto(records, i).len() <= removed_upto(records, j).len(),
    decreases j,
{
    if i < j {
        lemma_changed_grows(records, i, j - 1);
    }
}

// ---------------------------------------------------------------------------
// Lemmas on coupling
// ---------------------------------------------------------------------------

/// Coupling reads the paths of the edges' endpoints only: more nodes behind
/// them change nothing.
pub proof fn lemma_weight_more_nodes(
    nodes: Seq<GitFile>,
    grown: Seq<GitFile>,
    edges: Seq<(usize, usize, i64)>,
    m: int,
    x: Seq<char>,
    y: Seq<char>,
)
    requires
        0 <= m <= edges.len(),
        nodes.len() <= grown.len(),
        forall|i: int| 0 <= i < nodes.len() ==> #[trigger] path_of(grown, i) == path_of(nodes, i),
        forall|e: int| 0 <= e < edges.len() ==> (#[trigger] edges[e]).0 < nodes.len() && edges[e].1 < nodes.len(),
    ensures
        weight_upto(grown, edges, m, x, y) == weight_upto(nodes, edges, m, x, y),
    decreases m,
{
    if m > 0 {
        lemma_weight_more_nodes(nodes, grown, edges, m - 1, x, y);
        let e = edges[m - 1];
        assert(path_of(grown, e.0 as int) == path_of(nodes, e.0 as int));
        assert(path_of(grown, e.1 as int) == path_of(nodes, e.1 as int));
    }
}

/// The weight of the first `m` edges does not depend on the edges behind
/// them.
pub proof fn lemma_weight_same_prefix(
    nodes: Seq<GitFile>,
    a: Seq<(usize, usize, i64)>,
    b: Seq<(usize, usize, i64)>,
    m: int,
    x: Seq<char>,
    y: Seq<char>,
)
    requires
        0 <= m <= a.len(),
        m <= b.len(),
        forall|e: int| 0 <= e < m ==> a[e] == b[e],
    ensures
        weight_upto(nodes, a, m, x, y) == weight_upto(nodes, b, m, x, y),
    decreases m,
{
    if m > 0 {
        lemma_weight_same_prefix(nodes, a, b, m - 1, x, y);
    }
}

/// A new edge adds its weight to the pair it connects, and to no other.
pub proof fn lemma_coupling_push(
    nodes: Seq<GitFile>,
    edges: Seq<(usize, usize, i64)>,
    edge: (usize, usize, i64),
    x: Seq<char>,
    y: Seq<char>,
)
    ensures
        coupling(nodes, edges.push(edge), x, y) == coupling(nodes, edges, x, y) + if links(nodes, edge, x, y) {
            edge.2 as int
        } else {
            0
        },
{
    lemma_weight_same_prefix(nodes, edges, edges.push(edge), edges.len() as int, x, y);
}

/// A changed weight changes the coupling of the pair that the edge connects
/// by the difference, and no other.
pub proof fn lemma_weight_update(
    nodes: Seq<GitFile>,
    edges: Seq<(usize, usize, i64)>,
    f: int,
    weight: i64,
    m: int,
    x: Seq<char>,
    y: Seq<char>,
)
    requires
        0 <= f < edges.len(),
        0 <= m <= edges.len(),
    ensures
        weight_upto(nodes, edges.update(f, (edges[f].0, edges[f].1, weight)), m, x, y) == weight_upto(
            nodes,
            edges,
            m,
            x,
            y,
        ) + if f < m && links(nodes, edges[f], x, y) {
            weight - edges[f].2
        } else {
            0
        },
    decreases m,
{
    if m > 0 {
        lemma_weight_update(nodes, edges, f, weight, m - 1, x, y);
    }
}

/// Coupling is symmetric.
pub proof fn lemma_weight_symmetric(
    nodes: Seq<GitFile>,
    edges: Seq<(usize, usize, i64)>,
    m: int,
    x: Seq<char>,
    y: Seq<char>,
)
    ensures
        weight_upto(nodes, edges, m, x, y) == weight_upto(nodes, edges, m, y, x),
    decreases m,
{
    if m > 0 {
        lemma_weight_symmetric(nodes, edges, m - 1, x, y);
    }
}

/// With no negative weight, the weight of a pair only grows along the edge
/// array, from 0.
pub proof fn lemma_weight_grows(
    nodes: Seq<GitFile>,
    edges: Seq<(usize, usize, i64)>,
    a: int,
    b: int,
    x: Seq<char>,
    y: Seq<char>,
)
    requires
        0 <= a <= b <= edges.len(),
        weights_from(edges, 0),
    ensures
        0 <= weight_upto(nodes, edges, a, x, y) <= weight_upto(nodes, edges, b, x, y),
    decreases b,
{
    if a < b {
        lemma_weight_grows(nodes, edges, a, b - 1, x, y);
        assert(edges[b - 1].2 >= 0);
    } else if a > 0 {
        lemma_weight_grows(nodes, edges, a - 1, a - 1, x, y);
        assert(edges[a - 1].2 >= 0);
    }
}

/// Where no edge among the first `m` connects `x` and `y`, their weight is 0.
pub proof fn lemma_weight_unlinked(
    nodes: Seq<GitFile>,
    edges: Seq<(usize, usize, i64)>,
    m: int,
    x: Seq<char>,
    y: Seq<char>,
)
    requires
        0 <= m <= edges.len(),
        forall|e: int| 0 <= e < m ==> !links(nodes, #[trigger] edges[e], x, y),
    ensures
        weight_upto(nodes, edges, m, x, y) == 0,
    decreases m,
{
    if m > 0 {
        lemma_weight_unlinked(nodes, edges, m - 1, x, y);
    }
}

/// In a graph with unique paths and simple edges, an edge that connects `x`
/// and `y` is the only one that does.
pub proof fn lemma_one_link(
    nodes: Seq<GitFile>,
    edges: Seq<(usize, usize, i64)>,
    e: int,
    f: int,
    x: Seq<char>,
    y: Seq<char>,
)
    requires
        distinct_paths(nodes),
        simple_edges(nodes.len() as int, edges),
        0 <= e < edges.len(),
        0 <= f < edges.len(),
        links(nodes, edges[e], x, y),
        links(nodes, edges[f], x, y),
    ensures
        e == f,
{
    let a = edges[e];
    let b = edges[f];
    if e != f {
        assert(a.0 < nodes.len() && a.1 < nodes.len() && b.0 < nodes.len() && b.1 < nodes.len());
        assert(a.0 != a.1 && b.0 != b.1);
        if path_of(nodes, a.0 as int) == path_of(nodes, b.0 as int) {
            assert(a.0 == b.0);
            assert(path_of(nodes, a.1 as int) == path_of(nodes, b.1 as int));
            assert(a.1 == b.1);
        } else {
            assert(path_of(nodes, a.0 as int) == path_of(nodes, b.1 as int));
            assert(a.0 == b.1);
            assert(path_of(nodes, a.1 as int) == path_of(nodes, b.0 as int));
            assert(a.1 == b.0);
        }
        assert(joins(edges[f], edges[e].0, edges[e].1));
    }
}

/// In a graph with unique paths and simple edges, the weight of the first
/// `m` edges between `x` and `y` is that of the one edge that connects them,
/// once it is among them.
pub proof fn lemma_weight_of_link(
    nodes: Seq<GitFile>,
    edges: Seq<(usize, usize, i64)>,
    e: int,
    m: int,
    x: Seq<char>,
    y: Seq<char>,
)
    requires
        distinct_paths(nodes),
        simple_edges(nodes.len() as int, edges),
        0 <= e < edges.len(),
        0 <= m <= edges.len(),
        links(nodes, edges[e], x, y),
    ensures
        weight_upto(nodes, edges, m, x, y) == if e < m {
            edges[e].2 as int
        } else {
            0
        },
    decreases m,
{
    if m > 0 {
        lemma_weight_of_link(nodes, edges, e, m - 1, x, y);
        if m - 1 != e && links(nodes, edges[m - 1], x, y) {
            lemma_one_link(nodes, edges, e, m - 1, x, y);
        }
    }
}

/// In a graph with unique paths and simple edges, no coupling exceeds an
/// `i64`.
pub proof fn lemma_coupling_bounded(nodes: Seq<GitFile>, edges: Seq<(usize, usize, i64)>, x: Seq<char>, y: Seq<char>)
    requires
        distinct_paths(nodes),
        simple_edges(nodes.len() as int, edges),
    ensures
        i64::MIN <= coupling(nodes, edges, x, y) <= i64::MAX,
{
    if exists|e: int| 0 <= e < edges.len() && links(nodes, #[trigger] edges[e], x, y) {
        let e = choose|e: int| 0 <= e < edges.len() && links(nodes, #[trigger] edges[e], x, y);
        lemma_weight_of_link(nodes, edges, e, edges.len() as int, x, y);
    } else {
        lemma_weight_unlinked(nodes, edges, edges.len() as int, x, y);
    }
}

/// Which paths a graph holds after the nodes of another were brought in.
pub proof fn lemma_grafted_paths(
    base: Seq<GitFile>,
    from: Seq<GitFile>,
    nodes: Seq<GitFile>,
    rewrite: Seq<Option<usize>>,
    skip: Seq<String>,
    x: Seq<char>,
)
    requires
        base.len() <= nodes.len() <= usize::MAX,
        forall|i: int| 0 <= i < base.len() ==> nodes[i] == base[i],
        rewrite.len() == from.len(),
        maps_to(rewrite, from, nodes, skip, from.len() as int),
        forall|t: int| base.len() <= t < nodes.len() ==> #[trigger] targets(rewrite, rewrite.len() as int, t),
    ensures
        has_path(nodes, x) <==> has_path(base, x) || (has_path(from, x) && !lists_path(skip, x)),
{
    if has_path(nodes, x) {
        let t = choose|t: int| 0 <= t < nodes.len() && #[trigger] path_of(nodes, t) == x;
        if t < base.len() {
            assert(path_of(base, t) == x);
        } else {
            assert(targets(rewrite, rewrite.len() as int, t));
            let j = choose|j: int|
                0 <= j < rewrite.len() && j < rewrite.len() && #[trigger] rewrite[j] == Some(t as usize);
            assert(rewrite[j] == Some(t as usize));
            assert(path_of(from, j) == x);
        }
    }
    if has_path(base, x) {
        let t = choose|t: int| 0 <= t < base.len() && #[trigger] path_of(base, t) == x;
        assert(path_of(nodes, t) == x);
    }
    if has_path(from, x) && !lists_path(skip, x) {
        let j = choose|j: int| 0 <= j < from.len() && #[trigger] path_of(from, j) == x;
        match rewrite[j] {
            Some(t) => {
                assert(path_of(nodes, t as int) == x);
            },
            None => {},
        }
    }
}

/// Which paths a list holds after the unlisted ones of another were
/// appended.
pub proof fn lemma_joined_listing(into: Seq<String>, other: Seq<String>, i: int, x: Seq<char>)
    requires
        0 <= i <= other.len(),
    ensures
        lists_path(into + other.take(i).filter(unlisted(into)), x) <==> lists_path(into, x) || lists_path(
            other.take(i),
            x,
        ),
    decreases i,
{
    let keep = unlisted(into);
    let joined = into + other.take(i).filter(keep);
    if i == 0 {
        reveal(Seq::filter);
        assert(other.take(0) =~= Seq::<String>::empty());
        assert(joined =~= into);
    } else {
        lemma_joined_listing(into, other, i - 1, x);
        let before = into + other.take(i - 1).filter(keep);
        assert(other.take(i) =~= other.take(i - 1).push(other[i - 1]));
        other.take(i - 1).lemma_filter_push(other[i - 1], keep);
        if lists_path(other.take(i), x) {
            let j = choose|j: int| 0 <= j < i && (#[trigger] other.take(i)[j])@ == x;
            if j < i - 1 {
                assert(other.take(i - 1)[j]@ == x);
            }
        }
        if lists_path(other.take(i - 1), x) {
            let j = choose|j: int| 0 <= j < i - 1 && (#[trigger] other.take(i - 1)[j])@ == x;
            assert(other.take(i)[j]@ == x);
        }
        if keep(other[i - 1]) {
            assert(joined =~= before.push(other[i - 1]));
            if lists_path(joined, x) {
                let j = choose|j: int| 0 <= j < joined.len() && (#[trigger] joined[j])@ == x;
                if j < before.len() {
                    assert(before[j]@ == x);
                } else {
                    assert(other.take(i)[i - 1]@ == x);
                }
            }
            if lists_path(before, x) {
                let j = choose|j: int| 0 <= j < before.len() && (#[trigger] before[j])@ == x;
                assert(joined[j]@ == x);
            }
            if other[i - 1]@ == x {
                assert(joined[before.len() as int]@ == x);
            }
        } else {
            assert(joined =~= before);
            if other[i - 1]@ == x {
                assert(lists_path(into, x));
            }
        }
        if lists_path(other.take(i), x) && !lists_path(other.take(i - 1), x) {
            let j = choose|j: int| 0 <= j < i && (#[trigger] other.take(i)[j])@ == x;
            assert(j == i - 1) by {
                if j < i - 1 {
                    assert(other.take(i - 1)[j]@ == x);
                }
            }
            assert(other[i - 1]@ == x);
        }
    }
}

/// In the graph of one change-set, two different files that it changes are
/// coupled once, and nothing else is coupled.
pub proof fn lemma_clique_coupling(nodes: Seq<GitFile>, x: Seq<char>, y: Seq<char>)
    requires
        distinct_paths(nodes),
        nodes.len() <= usize::MAX,
    ensures
        coupling(nodes, clique(nodes.len() as int), x, y) == if x != y && has_path(nodes, x) && has_path(
            nodes,
            y,
        ) {
            1int
        } else {
            0int
        },
{
    let n = nodes.len() as int;
    let edges = clique(n);
    lemma_clique_simple(n);
    if x != y && has_path(nodes, x) && has_path(nodes, y) {
        let a = choose|a: int| 0 <= a < nodes.len() && #[trigger] path_of(nodes, a) == x;
        let b = choose|b: int| 0 <= b < nodes.len() && #[trigger] path_of(nodes, b) == y;
        let i = if a < b {
            lemma_pairs_complete(n, n, a as usize, b as usize)
        } else {
            lemma_pairs_complete(n, n, b as usize, a as usize)
        };
        assert(links(nodes, edges[i], x, y));
        lemma_weight_of_link(nodes, edges, i, edges.len() as int, x, y);
    } else {
        assert forall|e: int| 0 <= e < edges.len() implies !links(nodes, #[trigger] edges[e], x, y) by {
            lemma_pairs_bounds(n, n, e);
            if links(nodes, edges[e], x, y) {
                assert(path_of(nodes, edges[e].0 as int) != path_of(nodes, edges[e].1 as int));
            }
        }
        lemma_weight_unlinked(nodes, edges, edges.len() as int, x, y);
    }
}

/// How often two paths change together only grows along the change-sets,
/// from 0.
pub proof fn lemma_cochanges_grow(
    sets: Seq<Vec<GitFile>>,
    threshold: int,
    i: int,
    j: int,
    x: Seq<char>,
    y: Seq<char>,
)
    requires
        0 <= i <= j,
    ensures
        0 <= cochanges_upto(sets, threshold, i, x, y) <= cochanges_upto(sets, threshold, j, x, y),
    decreases j,
{
    if i < j {
        lemma_cochanges_grow(sets, threshold, i, j - 1, x, y);
    } else if i > 0 {
        lemma_cochanges_grow(sets, threshold, i - 1, i - 1, x, y);
    }
}


/// The greatest weight is an `i64`, is not negative, and no edge among those
/// it was taken from outweighs it.
pub proof fn lemma_heaviest(edges: Seq<(usize, usize, i64)>, m: int, e: int)
    requires
        0 <= m <= edges.len(),
    ensures
        0 <= heaviest_upto(edges, m) <= i64::MAX,
        0 <= e < m ==> edges[e].2 <= heaviest_upto(edges, m),
    decreases m,
{
    if m > 0 {
        lemma_heaviest(edges, m - 1, e);
    }
}

/// Where paths are unique, the place of a node's path is the node.
pub proof fn lemma_place(nodes: Seq<GitFile>, i: usize)
    requires
        distinct_paths(nodes),
        i < nodes.len(),
    ensures
        place(nodes, path_of(nodes, i as int)) == i,
{
    let j = place(nodes, path_of(nodes, i as int));
    assert(j < nodes.len() && path_of(nodes, j as int) == path_of(nodes, i as int));
}

} // verus!
