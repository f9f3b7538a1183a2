use rorqual::analyser::centrality::normalization_divisor;
use rorqual::git_graph::{build_graph, GitFile, GitGraph, Status};
use rorqual::neighbourhood::recurse_neighbors;
use std::collections::HashSet;

fn chain() -> GitGraph {
    let file = |name: &str| GitFile { status: Status::Added, name: name.to_string() };
    build_graph(vec![
        vec![file("a"), file("b")],
        vec![file("b"), file("c")],
        vec![file("c"), file("d")],
        vec![file("e")],
    ])
}

fn set(items: &[usize]) -> HashSet<usize> {
    items.iter().copied().collect()
}

#[test]
fn nothing_is_within_depth_zero() {
    let graph = chain();
    assert_eq!(recurse_neighbors(0, &graph, 0), set(&[]));
}

#[test]
fn neighbourhood_grows_with_depth() {
    let graph = chain();
    let at = |name: &str| graph.index_of(&name.to_string()).unwrap();
    let (a, b, c, d, e) = (at("a"), at("b"), at("c"), at("d"), at("e"));
    assert_eq!(recurse_neighbors(a, &graph, 1), set(&[a]));
    assert_eq!(recurse_neighbors(a, &graph, 2), set(&[a, b]));
    assert_eq!(recurse_neighbors(a, &graph, 3), set(&[a, b, c]));
    assert_eq!(recurse_neighbors(a, &graph, 4), set(&[a, b, c, d]));
    assert_eq!(recurse_neighbors(a, &graph, 9), set(&[a, b, c, d]));
    assert_eq!(recurse_neighbors(c, &graph, 2), set(&[b, c, d]));
    assert_eq!(recurse_neighbors(e, &graph, 5), set(&[e]));
}

#[test]
fn unknown_node_has_no_neighbours() {
    let graph = chain();
    assert_eq!(recurse_neighbors(77, &graph, 3), set(&[77]));
    assert_eq!(recurse_neighbors(77, &graph, 0), set(&[]));
}

#[test]
fn divisor_counts_ordered_pairs_of_other_nodes() {
    assert_eq!(normalization_divisor(0), 1);
    assert_eq!(normalization_divisor(1), 1);
    assert_eq!(normalization_divisor(2), 1);
    assert_eq!(normalization_divisor(3), 2);
    assert_eq!(normalization_divisor(4), 6);
    assert_eq!(normalization_divisor(10), 72);
    assert_eq!(
        normalization_divisor(usize::MAX),
        (usize::MAX as u128 - 1) * (usize::MAX as u128 - 2)
    );
}
