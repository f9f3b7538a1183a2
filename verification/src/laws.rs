//! What holds of merging in general: the order and the grouping in which
//! change-sets are built and merged do not matter to what the graph holds.

use crate::coupling::{
    admitted, changed, changed_in, cochange, cochanges_upto, has_path, lemma_weight_symmetric, lists_path, removed,
    removed_in,
};
use crate::git_graph::{GitFile, GitGraph};
use vstd::prelude::*;

verus! {

/// Coupling has no direction: a pair is coupled as strongly one way round as
/// the other.
pub proof fn law_coupling_symmetric(graph: GitGraph, x: Seq<char>, y: Seq<char>)
    ensures
        graph.weight(x, y) == graph.weight(y, x),
{
    lemma_weight_symmetric(graph.nodes(), graph.edges(), graph.edges().len() as int, x, y);
}

/// Merging is commutative: the two graphs may be merged either way round.
pub proof fn law_merge_commutative(a: GitGraph, b: GitGraph, ab: GitGraph, ba: GitGraph)
    requires
        ab.merges(a, b),
        ba.merges(b, a),
    ensures
        ab.same_graph(ba),
{
    assert forall|x: Seq<char>| #[trigger] ab.has(x) <==> ba.has(x) by {
        assert(ba.has(x) <==> b.has(x) || a.has(x));
    }
    assert forall|x: Seq<char>, y: Seq<char>| #[trigger] ab.weight(x, y) == ba.weight(x, y) by {
        assert(ba.weight(x, y) == b.weight(x, y) + a.weight(x, y));
    }
    assert forall|x: Seq<char>| #[trigger] ab.deletes(x) <==> ba.deletes(x) by {
        assert(ba.deletes(x) <==> b.deletes(x) || a.deletes(x));
    }
}

/// Merging is associative: three graphs may be merged in either grouping.
pub proof fn law_merge_associative(
    a: GitGraph,
    b: GitGraph,
    c: GitGraph,
    ab: GitGraph,
    bc: GitGraph,
    left: GitGraph,
    right: GitGraph,
)
    requires
        ab.merges(a, b),
        left.merges(ab, c),
        bc.merges(b, c),
        right.merges(a, bc),
    ensures
        left.same_graph(right),
{
    assert forall|x: Seq<char>| #[trigger] left.has(x) <==> right.has(x) by {
        assert(right.has(x) <==> a.has(x) || bc.has(x));
        assert(ab.has(x) <==> a.has(x) || b.has(x));
        assert(bc.has(x) <==> b.has(x) || c.has(x));
    }
    assert forall|x: Seq<char>, y: Seq<char>| #[trigger] left.weight(x, y) == right.weight(x, y) by {
        assert(right.weight(x, y) == a.weight(x, y) + bc.weight(x, y));
        assert(ab.weight(x, y) == a.weight(x, y) + b.weight(x, y));
        assert(bc.weight(x, y) == b.weight(x, y) + c.weight(x, y));
    }
    assert forall|x: Seq<char>| #[trigger] left.deletes(x) <==> right.deletes(x) by {
        assert(right.deletes(x) <==> a.deletes(x) || bc.deletes(x));
        assert(ab.deletes(x) <==> a.deletes(x) || b.deletes(x));
        assert(bc.deletes(x) <==> b.deletes(x) || c.deletes(x));
    }
}

/// The graph that holds nothing is the identity of merging.
pub proof fn law_merge_identity(nothing: GitGraph, a: GitGraph, merged: GitGraph)
    requires
        nothing.nodes().len() == 0,
        nothing.edges().len() == 0,
        nothing.deleted_paths().len() == 0,
        merged.merges(nothing, a) || merged.merges(a, nothing),
    ensures
        merged.same_graph(a),
{
    assert forall|x: Seq<char>| #[trigger] merged.has(x) <==> a.has(x) by {
        assert(merged.has(x) <==> nothing.has(x) || a.has(x));
    }
    assert forall|x: Seq<char>, y: Seq<char>| #[trigger] merged.weight(x, y) == a.weight(x, y) by {
        assert(merged.weight(x, y) == nothing.weight(x, y) + a.weight(x, y));
        assert(nothing.weight(x, y) == 0);
    }
    assert forall|x: Seq<char>| #[trigger] merged.deletes(x) <==> a.deletes(x) by {
        assert(merged.deletes(x) <==> nothing.deletes(x) || a.deletes(x));
    }
}

/// A way to build one graph from change-sets: a shard is built from a run of
/// change-sets, and two trees are merged into one.
pub enum MergeTree {
    Shard(Seq<Vec<GitFile>>),
    Merge(Box<MergeTree>, Box<MergeTree>),
}

impl MergeTree {
    /// The change-sets of all shards, from left to right.
    pub open spec fn leaves(self) -> Seq<Vec<GitFile>>
        decreases self,
    {
        match self {
            MergeTree::Shard(sets) => sets,
            MergeTree::Merge(left, right) => left.leaves() + right.leaves(),
        }
    }

    /// Whether the tree gives a node for path `x`: a shard does if one of its
    /// admitted change-sets changes `x`, a merge if either side does.
    pub open spec fn has(self, threshold: int, x: Seq<char>) -> bool
        decreases self,
    {
        match self {
            MergeTree::Shard(sets) => changed_in(sets, threshold, sets.len() as int, x),
            MergeTree::Merge(left, right) => left.has(threshold, x) || right.has(threshold, x),
        }
    }

    /// How the tree couples `x` and `y`: a shard by how often its admitted
    /// change-sets change both, a merge by the sum of both sides.
    pub open spec fn weight(self, threshold: int, x: Seq<char>, y: Seq<char>) -> int
        decreases self,
    {
        match self {
            MergeTree::Shard(sets) => cochanges_upto(sets, threshold, sets.len() as int, x, y),
            MergeTree::Merge(left, right) => left.weight(threshold, x, y) + right.weight(threshold, x, y),
        }
    }

    /// Whether the tree lists `x` as deleted: a shard does if one of its
    /// admitted change-sets deletes `x`, a merge if either side does.
    pub open spec fn deletes(self, threshold: int, x: Seq<char>) -> bool
        decreases self,
    {
        match self {
            MergeTree::Shard(sets) => removed_in(sets, threshold, sets.len() as int, x),
            MergeTree::Merge(left, right) => left.deletes(threshold, x) || right.deletes(threshold, x),
        }
    }

    /// Whether `graph` holds what the tree gives.
    pub open spec fn yields(self, threshold: int, graph: GitGraph) -> bool {
        &&& forall|x: Seq<char>| #[trigger] graph.has(x) <==> self.has(threshold, x)
        &&& forall|x: Seq<char>, y: Seq<char>| #[trigger] graph.weight(x, y) == self.weight(threshold, x, y)
        &&& forall|x: Seq<char>| #[trigger] graph.deletes(x) <==> self.deletes(threshold, x)
    }
}

/// What is built from a run of change-sets is what the shard of that run
/// gives.
pub proof fn law_shard_yields(sets: Seq<Vec<GitFile>>, threshold: int, graph: GitGraph)
    requires
        graph.built_from(sets, threshold, sets.len() as int),
    ensures
        MergeTree::Shard(sets).yields(threshold, graph),
{
}

/// What merges the yields of two trees is what the merge of the trees gives.
pub proof fn law_merge_yields(
    left: MergeTree,
    right: MergeTree,
    threshold: int,
    a: GitGraph,
    b: GitGraph,
    merged: GitGraph,
)
    requires
        left.yields(threshold, a),
        right.yields(threshold, b),
        merged.merges(a, b),
    ensures
        MergeTree::Merge(Box::new(left), Box::new(right)).yields(threshold, merged),
{
    let tree = MergeTree::Merge(Box::new(left), Box::new(right));
    assert forall|x: Seq<char>| #[trigger] merged.has(x) <==> tree.has(threshold, x) by {
        assert(merged.has(x) <==> a.has(x) || b.has(x));
        assert(a.has(x) <==> left.has(threshold, x));
        assert(b.has(x) <==> right.has(threshold, x));
    }
    assert forall|x: Seq<char>, y: Seq<char>| #[trigger] merged.weight(x, y) == tree.weight(threshold, x, y) by {
        assert(merged.weight(x, y) == a.weight(x, y) + b.weight(x, y));
        assert(a.weight(x, y) == left.weight(threshold, x, y));
        assert(b.weight(x, y) == right.weight(threshold, x, y));
    }
    assert forall|x: Seq<char>| #[trigger] merged.deletes(x) <==> tree.deletes(threshold, x) by {
        assert(merged.deletes(x) <==> a.deletes(x) || b.deletes(x));
        assert(a.deletes(x) <==> left.deletes(threshold, x));
        assert(b.deletes(x) <==> right.deletes(threshold, x));
    }
}

/// What one more change-set adds to a count of co-changes.
pub open spec fn count_one(threshold: int, x: Seq<char>, y: Seq<char>) -> spec_fn(int, Vec<GitFile>) -> int {
    |sum: int, records: Vec<GitFile>|
        sum + if admitted(records@, threshold) {
            cochange(records@, x, y)
        } else {
            0
        }
}

/// The count of co-changes is a sum over the change-sets.
proof fn lemma_cochanges_fold(sets: Seq<Vec<GitFile>>, threshold: int, j: int, x: Seq<char>, y: Seq<char>)
    requires
        0 <= j <= sets.len(),
    ensures
        cochanges_upto(sets, threshold, j, x, y) == sets.take(j).fold_left(0int, count_one(threshold, x, y)),
    decreases j,
{
    if j > 0 {
        lemma_cochanges_fold(sets, threshold, j - 1, x, y);
        assert(sets.take(j).drop_last() =~= sets.take(j - 1));
        assert(sets.take(j).last() == sets[j - 1]);
    }
}

/// The order of the change-sets does not matter to how often two paths
/// change together, nor to which paths are changed and which deleted.
proof fn lemma_order_free(a: Seq<Vec<GitFile>>, b: Seq<Vec<GitFile>>, threshold: int, x: Seq<char>, y: Seq<char>)
    requires
        a.to_multiset() == b.to_multiset(),
    ensures
        cochanges_upto(a, threshold, a.len() as int, x, y) == cochanges_upto(b, threshold, b.len() as int, x, y),
        changed_in(a, threshold, a.len() as int, x) ==> changed_in(b, threshold, b.len() as int, x),
        removed_in(a, threshold, a.len() as int, x) ==> removed_in(b, threshold, b.len() as int, x),
{
    broadcast use vstd::seq_lib::group_to_multiset_ensures;

    let f = count_one(threshold, x, y);
    lemma_cochanges_fold(a, threshold, a.len() as int, x, y);
    lemma_cochanges_fold(b, threshold, b.len() as int, x, y);
    assert(a.take(a.len() as int) =~= a);
    assert(b.take(b.len() as int) =~= b);
    assert(vstd::seq_lib::commutative_foldl(f));
    vstd::seq_lib::lemma_fold_left_permutation(a, b, f, 0int);
    if changed_in(a, threshold, a.len() as int, x) {
        let i = choose|i: int|
            0 <= i < a.len() && i < a.len() && admitted((#[trigger] a[i])@, threshold) && has_path(changed(a[i]@), x);
        assert(a.contains(a[i]));
        assert(b.to_multiset().count(a[i]) > 0);
        assert(b.contains(a[i]));
        let k = choose|k: int| 0 <= k < b.len() && b[k] == a[i];
        assert(admitted(b[k]@, threshold) && has_path(changed(b[k]@), x));
    }
    if removed_in(a, threshold, a.len() as int, x) {
        let i = choose|i: int|
            0 <= i < a.len() && i < a.len() && admitted((#[trigger] a[i])@, threshold) && lists_path(
                removed(a[i]@),
                x,
            );
        assert(a.contains(a[i]));
        assert(b.to_multiset().count(a[i]) > 0);
        assert(b.contains(a[i]));
        let k = choose|k: int| 0 <= k < b.len() && b[k] == a[i];
        assert(admitted(b[k]@, threshold) && lists_path(removed(b[k]@), x));
    }
}

/// What two runs of change-sets give together is what their concatenation
/// gives.
proof fn lemma_concat(a: Seq<Vec<GitFile>>, b: Seq<Vec<GitFile>>, threshold: int, j: int, x: Seq<char>, y: Seq<char>)
    requires
        0 <= j <= b.len(),
    ensures
        cochanges_upto(a + b, threshold, a.len() + j, x, y) == cochanges_upto(a, threshold, a.len() as int, x, y)
            + cochanges_upto(b, threshold, j, x, y),
        changed_in(a + b, threshold, a.len() + j, x) <==> changed_in(a, threshold, a.len() as int, x) || changed_in(
            b,
            threshold,
            j,
            x,
        ),
        removed_in(a + b, threshold, a.len() + j, x) <==> removed_in(a, threshold, a.len() as int, x) || removed_in(
            b,
            threshold,
            j,
            x,
        ),
    decreases j,
{
    let all = a + b;
    if j == 0 {
        lemma_prefix(a, all, threshold, a.len() as int, x, y);
    } else {
        lemma_concat(a, b, threshold, j - 1, x, y);
        assert(all[a.len() + j - 1] == b[j - 1]);
        if changed_in(all, threshold, a.len() + j, x) {
            let i = choose|i: int|
                0 <= i < a.len() + j && i < all.len() && admitted((#[trigger] all[i])@, threshold) && has_path(
                    changed(all[i]@),
                    x,
                );
            if i < a.len() + j - 1 {
                assert(changed_in(all, threshold, a.len() + j - 1, x));
            } else {
                assert(admitted(b[j - 1]@, threshold) && has_path(changed(b[j - 1]@), x));
            }
        }
        if changed_in(b, threshold, j, x) {
            let i = choose|i: int|
                0 <= i < j && i < b.len() && admitted((#[trigger] b[i])@, threshold) && has_path(changed(b[i]@), x);
            assert(all[a.len() + i] == b[i]);
            assert(admitted(all[a.len() + i]@, threshold) && has_path(changed(all[a.len() + i]@), x));
        }
        if changed_in(a, threshold, a.len() as int, x) {
            assert(changed_in(all, threshold, a.len() + j - 1, x));
            let i = choose|i: int|
                0 <= i < a.len() + j - 1 && i < all.len() && admitted((#[trigger] all[i])@, threshold) && has_path(
                    changed(all[i]@),
                    x,
                );
            assert(admitted(all[i]@, threshold) && has_path(changed(all[i]@), x));
        }
        if removed_in(all, threshold, a.len() + j, x) {
            let i = choose|i: int|
                0 <= i < a.len() + j && i < all.len() && admitted((#[trigger] all[i])@, threshold) && lists_path(
                    removed(all[i]@),
                    x,
                );
            if i < a.len() + j - 1 {
                assert(removed_in(all, threshold, a.len() + j - 1, x));
            } else {
                assert(admitted(b[j - 1]@, threshold) && lists_path(removed(b[j - 1]@), x));
            }
        }
        if removed_in(b, threshold, j, x) {
            let i = choose|i: int|
                0 <= i < j && i < b.len() && admitted((#[trigger] b[i])@, threshold) && lists_path(removed(b[i]@), x);
            assert(all[a.len() + i] == b[i]);
            assert(admitted(all[a.len() + i]@, threshold) && lists_path(removed(all[a.len() + i]@), x));
        }
        if removed_in(a, threshold, a.len() as int, x) {
            assert(removed_in(all, threshold, a.len() + j - 1, x));
            let i = choose|i: int|
                0 <= i < a.len() + j - 1 && i < all.len() && admitted((#[trigger] all[i])@, threshold)
                    && lists_path(removed(all[i]@), x);
            assert(admitted(all[i]@, threshold) && lists_path(removed(all[i]@), x));
        }
    }
}

/// What the first `j` change-sets give does not depend on those behind.
proof fn lemma_prefix(a: Seq<Vec<GitFile>>, all: Seq<Vec<GitFile>>, threshold: int, j: int, x: Seq<char>, y: Seq<char>)
    requires
        0 <= j <= a.len() <= all.len(),
        forall|i: int| 0 <= i < a.len() ==> a[i] == all[i],
    ensures
        cochanges_upto(all, threshold, j, x, y) == cochanges_upto(a, threshold, j, x, y),
        changed_in(all, threshold, j, x) <==> changed_in(a, threshold, j, x),
        removed_in(all, threshold, j, x) <==> removed_in(a, threshold, j, x),
    decreases j,
{
    if j > 0 {
        lemma_prefix(a, all, threshold, j - 1, x, y);
    }
    if changed_in(all, threshold, j, x) {
        let i = choose|i: int|
            0 <= i < j && i < all.len() && admitted((#[trigger] all[i])@, threshold) && has_path(changed(all[i]@), x);
        assert(admitted(a[i]@, threshold) && has_path(changed(a[i]@), x));
    }
    if changed_in(a, threshold, j, x) {
        let i = choose|i: int|
            0 <= i < j && i < a.len() && admitted((#[trigger] a[i])@, threshold) && has_path(changed(a[i]@), x);
        assert(admitted(all[i]@, threshold) && has_path(changed(all[i]@), x));
    }
    if removed_in(all, threshold, j, x) {
        let i = choose|i: int|
            0 <= i < j && i < all.len() && admitted((#[trigger] all[i])@, threshold) && lists_path(
                removed(all[i]@),
                x,
            );
        assert(admitted(a[i]@, threshold) && lists_path(removed(a[i]@), x));
    }
    if removed_in(a, threshold, j, x) {
        let i = choose|i: int|
            0 <= i < j && i < a.len() && admitted((#[trigger] a[i])@, threshold) && lists_path(removed(a[i]@), x);
        assert(admitted(all[i]@, threshold) && lists_path(removed(all[i]@), x));
    }
}

/// What a merge tree gives is what its leaves give in order.
proof fn lemma_tree_builds(tree: MergeTree, threshold: int, x: Seq<char>, y: Seq<char>)
    ensures
        tree.has(threshold, x) <==> changed_in(tree.leaves(), threshold, tree.leaves().len() as int, x),
        tree.weight(threshold, x, y) == cochanges_upto(
            tree.leaves(),
            threshold,
            tree.leaves().len() as int,
            x,
            y,
        ),
        tree.deletes(threshold, x) <==> removed_in(tree.leaves(), threshold, tree.leaves().len() as int, x),
    decreases tree,
{
    match tree {
        MergeTree::Shard(sets) => {},
        MergeTree::Merge(left, right) => {
            lemma_tree_builds(*left, threshold, x, y);
            lemma_tree_builds(*right, threshold, x, y);
            lemma_concat(left.leaves(), right.leaves(), threshold, right.leaves().len() as int, x, y);
        },
    }
}

/// However a list of change-sets is cut into shards, in whatever order the
/// shards take them, and in whatever shape the shards are merged, the graph
/// that comes out holds the same as the graph built from the whole list.
pub proof fn law_any_merge_tree(
    tree: MergeTree,
    sets: Seq<Vec<GitFile>>,
    threshold: int,
    graph: GitGraph,
    whole: GitGraph,
)
    requires
        tree.leaves().to_multiset() == sets.to_multiset(),
        tree.yields(threshold, graph),
        whole.built_from(sets, threshold, sets.len() as int),
    ensures
        graph.same_graph(whole),
{
    let leaves = tree.leaves();
    assert forall|x: Seq<char>| #[trigger] graph.has(x) <==> whole.has(x) by {
        lemma_tree_builds(tree, threshold, x, x);
        lemma_order_free(leaves, sets, threshold, x, x);
        lemma_order_free(sets, leaves, threshold, x, x);
        assert(graph.has(x) <==> tree.has(threshold, x));
        assert(whole.has(x) <==> changed_in(sets, threshold, sets.len() as int, x));
    }
    assert forall|x: Seq<char>, y: Seq<char>| #[trigger] graph.weight(x, y) == whole.weight(x, y) by {
        lemma_tree_builds(tree, threshold, x, y);
        lemma_order_free(leaves, sets, threshold, x, y);
        assert(graph.weight(x, y) == tree.weight(threshold, x, y));
        assert(whole.weight(x, y) == cochanges_upto(sets, threshold, sets.len() as int, x, y));
    }
    assert forall|x: Seq<char>| #[trigger] graph.deletes(x) <==> whole.deletes(x) by {
        lemma_tree_builds(tree, threshold, x, x);
        lemma_order_free(leaves, sets, threshold, x, x);
        lemma_order_free(sets, leaves, threshold, x, x);
        assert(graph.deletes(x) <==> tree.deletes(threshold, x));
        assert(whole.deletes(x) <==> removed_in(sets, threshold, sets.len() as int, x));
    }
}

/// Wherever a list of change-sets is cut in two, either part may be empty,
/// merging the graphs built from the two parts gives what is built from the
/// whole list.
pub proof fn law_split_build(
    first: Seq<Vec<GitFile>>,
    second: Seq<Vec<GitFile>>,
    threshold: int,
    left: GitGraph,
    right: GitGraph,
    merged: GitGraph,
    whole: GitGraph,
)
    requires
        left.built_from(first, threshold, first.len() as int),
        right.built_from(second, threshold, second.len() as int),
        merged.merges(left, right) || merged.merges(right, left),
        whole.built_from(first + second, threshold, (first + second).len() as int),
    ensures
        merged.same_graph(whole),
{
    let all = first + second;
    assert forall|x: Seq<char>| #[trigger] merged.has(x) <==> whole.has(x) by {
        lemma_concat(first, second, threshold, second.len() as int, x, x);
        assert(merged.has(x) <==> left.has(x) || right.has(x));
        assert(left.has(x) <==> changed_in(first, threshold, first.len() as int, x));
        assert(right.has(x) <==> changed_in(second, threshold, second.len() as int, x));
        assert(whole.has(x) <==> changed_in(all, threshold, all.len() as int, x));
    }
    assert forall|x: Seq<char>, y: Seq<char>| #[trigger] merged.weight(x, y) == whole.weight(x, y) by {
        lemma_concat(first, second, threshold, second.len() as int, x, y);
        assert(merged.weight(x, y) == left.weight(x, y) + right.weight(x, y));
        assert(left.weight(x, y) == cochanges_upto(first, threshold, first.len() as int, x, y));
        assert(right.weight(x, y) == cochanges_upto(second, threshold, second.len() as int, x, y));
        assert(whole.weight(x, y) == cochanges_upto(all, threshold, all.len() as int, x, y));
    }
    assert forall|x: Seq<char>| #[trigger] merged.deletes(x) <==> whole.deletes(x) by {
        lemma_concat(first, second, threshold, second.len() as int, x, x);
        assert(merged.deletes(x) <==> left.deletes(x) || right.deletes(x));
        assert(left.deletes(x) <==> removed_in(first, threshold, first.len() as int, x));
        assert(right.deletes(x) <==> removed_in(second, threshold, second.len() as int, x));
        assert(whole.deletes(x) <==> removed_in(all, threshold, all.len() as int, x));
    }
}

/// The graphs built from a list of change-sets and from any list with the
/// same change-sets in another order hold the same.
pub proof fn law_permuted_build(
    sets: Seq<Vec<GitFile>>,
    shuffled: Seq<Vec<GitFile>>,
    threshold: int,
    graph: GitGraph,
    other: GitGraph,
)
    requires
        sets.to_multiset() == shuffled.to_multiset(),
        graph.built_from(sets, threshold, sets.len() as int),
        other.built_from(shuffled, threshold, shuffled.len() as int),
    ensures
        graph.same_graph(other),
{
    assert forall|x: Seq<char>| #[trigger] graph.has(x) <==> other.has(x) by {
        lemma_order_free(sets, shuffled, threshold, x, x);
        lemma_order_free(shuffled, sets, threshold, x, x);
        assert(graph.has(x) <==> changed_in(sets, threshold, sets.len() as int, x));
        assert(other.has(x) <==> changed_in(shuffled, threshold, shuffled.len() as int, x));
    }
    assert forall|x: Seq<char>, y: Seq<char>| #[trigger] graph.weight(x, y) == other.weight(x, y) by {
        lemma_order_free(sets, shuffled, threshold, x, y);
        assert(graph.weight(x, y) == cochanges_upto(sets, threshold, sets.len() as int, x, y));
        assert(other.weight(x, y) == cochanges_upto(shuffled, threshold, shuffled.len() as int, x, y));
    }
    assert forall|x: Seq<char>| #[trigger] graph.deletes(x) <==> other.deletes(x) by {
        lemma_order_free(sets, shuffled, threshold, x, x);
        lemma_order_free(shuffled, sets, threshold, x, x);
        assert(graph.deletes(x) <==> removed_in(sets, threshold, sets.len() as int, x));
        assert(other.deletes(x) <==> removed_in(shuffled, threshold, shuffled.len() as int, x));
    }
}

/// A file that an admitted change-set deletes is absent from the final
/// graph, whatever other change-sets do to it, before or after.
pub proof fn law_deleted_is_absent(
    sets: Seq<Vec<GitFile>>,
    threshold: int,
    all: GitGraph,
    kept: GitGraph,
    i: int,
    x: Seq<char>,
)
    requires
        all.built_from(sets, threshold, sets.len() as int),
        forall|p: Seq<char>| #[trigger] kept.has(p) <==> all.has(p) && !all.deletes(p),
        0 <= i < sets.len(),
        admitted(sets[i]@, threshold),
        lists_path(removed(sets[i]@), x),
    ensures
        !kept.has(x),
{
    assert(removed_in(sets, threshold, sets.len() as int, x));
    assert(all.deletes(x) <==> removed_in(sets, threshold, sets.len() as int, x));
    assert(kept.has(x) <==> all.has(x) && !all.deletes(x));
}

} // verus!
