//! The name table: where the node of a path is found without going through
//! all nodes. Nodes are filed under the hash of their path; a path is looked
//! up among the nodes filed under its hash.

use crate::coupling::{has_path, path_of};
use crate::git_graph::GitFile;
use crate::store::{graph_nodes, node_count, node_weight};
use petgraph::graph::Graph;
use petgraph::Undirected;
use std::collections::hash_map::DefaultHasher;
use std::collections::HashMap;
use std::hash::Hasher;
use vstd::prelude::*;
use vstd::std_specs::hash::DefaultHasherAdditionalSpecFns;

verus! {

/// The hash under which a path is filed.
pub open spec fn path_hash(path: Seq<char>) -> u64 {
    DefaultHasher::spec_finish(seq![vstd::utf8::encode_utf8(path)])
}

/// The table files every node under the hash of its path, and files
/// nothing that is no node.
pub open spec fn indexes(table: Map<u64, Vec<usize>>, nodes: Seq<GitFile>) -> bool {
    &&& forall|i: int|
        0 <= i < nodes.len() ==> table.contains_key(path_hash(#[trigger] path_of(nodes, i))) && filed(
            table[path_hash(path_of(nodes, i))]@,
            i,
        )
    &&& forall|k: u64, j: int|
        table.contains_key(k) && 0 <= j < table[k]@.len() ==> (#[trigger] table[k]@[j]) < nodes.len()
}

/// Whether node `i` is among those filed in one place.
pub open spec fn filed(bucket: Seq<usize>, i: int) -> bool {
    exists|j: int| 0 <= j < bucket.len() && #[trigger] bucket[j] == i
}

/// The hash of a path.
pub fn hash_path(name: &String) -> (hash: u64)
    ensures
        hash == path_hash(name@),
{
    let mut hasher = DefaultHasher::new();
    hasher.write(name.as_str().as_bytes());
    proof {
        assert(hasher@ =~= seq![vstd::utf8::encode_utf8(name@)]);
    }
    hasher.finish()
}

/// The node that carries `name`, if there is one.
pub(crate) fn lookup(
    table: &HashMap<u64, Vec<usize>>,
    g: &Graph<GitFile, i64, Undirected>,
    name: &String,
) -> (found: Option<usize>)
    requires
        indexes(table@, graph_nodes(*g)),
    ensures
        match found {
            Some(i) => i < graph_nodes(*g).len() && path_of(graph_nodes(*g), i as int) == name@,
            None => !has_path(graph_nodes(*g), name@),
        },
{
    broadcast use vstd::std_specs::hash::group_hash_axioms;

    let ghost nodes = graph_nodes(*g);
    let n = node_count(g);
    let hash = hash_path(name);
    match table.get(&hash) {
        None => {
            proof {
                if has_path(nodes, name@) {
                    let i = choose|i: int| 0 <= i < nodes.len() && #[trigger] path_of(nodes, i) == name@;
                    assert(table@.contains_key(path_hash(path_of(nodes, i))));
                }
            }
            None
        },
        Some(bucket) => {
            let mut j: usize = 0;
            while j < bucket.len()
                invariant
                    j <= bucket@.len(),
                    n == nodes.len(),
                    n <= u32::MAX,
                    nodes == graph_nodes(*g),
                    table@.contains_key(hash),
                    table@[hash] == *bucket,
                    indexes(table@, nodes),
                    forall|k: int| 0 <= k < j ==> path_of(nodes, (#[trigger] bucket@[k]) as int) != name@,
                decreases bucket@.len() - j,
            {
                let i = bucket[j];
                proof {
                    assert(table@[hash]@[j as int] < nodes.len());
                }
                match node_weight(g, i) {
                    Some(file) => {
                        if file.name == *name {
                            return Some(i);
                        }
                    },
                    None => {},
                }
                j += 1;
            }
            proof {
                if has_path(nodes, name@) {
                    let i = choose|i: int| 0 <= i < nodes.len() && #[trigger] path_of(nodes, i) == name@;
                    assert(filed(table@[path_hash(path_of(nodes, i))]@, i));
                    let k = choose|k: int| 0 <= k < bucket@.len() && #[trigger] bucket@[k] == i;
                    assert(path_of(nodes, bucket@[k] as int) != name@);
                }
            }
            None
        },
    }
}

/// Files the node that was added last, which carries `name`.
pub(crate) fn remember(
    table: &mut HashMap<u64, Vec<usize>>,
    name: &String,
    i: usize,
    Ghost(before): Ghost<Seq<GitFile>>,
    Ghost(nodes): Ghost<Seq<GitFile>>,
)
    requires
        indexes(old(table)@, before),
        nodes.len() == before.len() + 1,
        forall|k: int| 0 <= k < before.len() ==> #[trigger] path_of(nodes, k) == path_of(before, k),
        i == before.len(),
        path_of(nodes, i as int) == name@,
    ensures
        indexes(final(table)@, nodes),
{
    broadcast use vstd::std_specs::hash::group_hash_axioms;

    let ghost held = table@;
    let hash = hash_path(name);
    let mut bucket = match table.remove(&hash) {
        Some(bucket) => bucket,
        None => Vec::new(),
    };
    let ghost first = bucket@;
    bucket.push(i);
    let ghost grown = bucket@;
    table.insert(hash, bucket);
    proof {
        assert forall|k: int| 0 <= k < nodes.len() implies table@.contains_key(
            path_hash(#[trigger] path_of(nodes, k)),
        ) && filed(table@[path_hash(path_of(nodes, k))]@, k) by {
            let at = path_hash(path_of(nodes, k));
            if k < before.len() {
                assert(path_of(nodes, k) == path_of(before, k));
                assert(held.contains_key(at) && filed(held[at]@, k));
                let j = choose|j: int| 0 <= j < held[at]@.len() && #[trigger] held[at]@[j] == k;
                if at == hash {
                    assert(grown[j] == k);
                } else {
                    assert(table@[at]@[j] == k);
                }
            } else {
                assert(grown[first.len() as int] == k);
            }
        }
        assert forall|k: u64, j: int| table@.contains_key(k) && 0 <= j < table@[k]@.len() implies (
        #[trigger] table@[k]@[j]) < nodes.len() by {
            if k == hash {
                if j < first.len() {
                    assert(held.contains_key(hash));
                    assert(held[hash]@[j] < before.len());
                }
            } else {
                assert(held.contains_key(k));
                assert(held[k]@[j] < before.len());
            }
        }
    }
}

} // verus!
