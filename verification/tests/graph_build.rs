use petgraph::graph::NodeIndex;
use petgraph::visit::EdgeRef;
use rorqual::error::GraphError;
use rorqual::names::hash_path;
use rorqual::git_graph::{
    build_graph, build_graph_with, build_shard, check_record, combinations_k_2, copy_file, is_listed,
    try_build_graph, try_build_graph_with, try_build_shard, ChangeSet, GitFile, GitGraph, Status, MAX_CHANGES,
};

fn file(status: Status, name: &str) -> GitFile {
    GitFile { status, name: name.to_string() }
}

fn added(names: &[&str]) -> ChangeSet {
    names.iter().map(|n| file(Status::Added, n)).collect()
}

/// The edges of a graph as pairs of paths with their weight, each pair with
/// the smaller path first, sorted.
fn named_edges(graph: &GitGraph) -> Vec<(String, String, i64)> {
    let g = graph.graph();
    let mut edges: Vec<(String, String, i64)> = g
        .edge_references()
        .map(|e| {
            let a = g[e.source()].name.clone();
            let b = g[e.target()].name.clone();
            if a <= b {
                (a, b, *e.weight())
            } else {
                (b, a, *e.weight())
            }
        })
        .collect();
    edges.sort();
    edges
}

fn named_nodes(graph: &GitGraph) -> Vec<String> {
    let mut names: Vec<String> = graph.graph().node_weights().map(|f| f.name.clone()).collect();
    names.sort();
    names
}

fn edge(a: &str, b: &str, w: i64) -> (String, String, i64) {
    (a.to_string(), b.to_string(), w)
}

#[test]
fn test_build_graph_single_changeset() {
    let first_changeset = vec![
        GitFile { status: Status::Added, name: "a".to_string() },
        GitFile { status: Status::Added, name: "b".to_string() },
        GitFile { status: Status::Added, name: "c".to_string() },
    ];

    let graph = build_graph(vec![first_changeset]);

    // Check name lookup integrity
    assert_eq!(graph.len(), 3);
    assert_eq!(graph.graph().node_count(), 3);
    for v in graph.graph().node_indices() {
        let k = &graph.graph()[v].name;
        assert_eq!(graph.index_of(k), Some(v.index()));
    }

    // Check edges
    assert_eq!(graph.graph().edge_count(), 3);
    let expected_edges = vec![("a", "b"), ("a", "c"), ("b", "c")];
    let edges: Vec<(&str, &str)> = graph
        .graph()
        .edge_references()
        .map(|e| (e.source(), e.target()))
        .map(|(a, b)| (&graph.graph()[a].name, &graph.graph()[b].name))
        .map(|(a, b)| (a.as_str(), b.as_str()))
        .collect();
    assert_eq!(edges, expected_edges);
    for e in graph.graph().edge_references() {
        assert_eq!(e.weight().to_owned(), 1);
    }
}

#[test]
fn test_build_graph_multi_changesets() {
    let change_sets = vec![
        vec![GitFile { status: Status::Added, name: "a".to_string() }],
        vec![
            GitFile { status: Status::Added, name: "b".to_string() },
            GitFile { status: Status::Added, name: "c".to_string() },
        ],
        vec![
            GitFile { status: Status::Modified, name: "a".to_string() },
            GitFile { status: Status::Added, name: "d".to_string() },
        ],
        vec![
            GitFile { status: Status::Modified, name: "a".to_string() },
            GitFile { status: Status::Added, name: "b".to_string() },
            GitFile { status: Status::Added, name: "c".to_string() },
        ],
    ];

    let graph = build_graph(change_sets);

    assert_eq!(graph.len(), 4);
    assert_eq!(graph.graph().node_count(), graph.len());

    // Check edges
    let expected_edges = vec![("a", "b"), ("a", "c"), ("a", "d"), ("b", "c")];
    let mut edges: Vec<(&str, &str)> = graph
        .graph()
        .edge_references()
        .map(|e| (e.source(), e.target()))
        .map(|(a, b)| (&graph.graph()[a].name, &graph.graph()[b].name))
        .map(|(a, b)| (a.as_str(), b.as_str()))
        .collect();
    edges.sort_by(|a, b| a.1.cmp(b.1));
    edges.sort_by(|a, b| a.0.cmp(b.0));
    assert_eq!(edges, expected_edges);
    let b_idx = NodeIndex::new(graph.index_of(&"b".to_string()).unwrap());
    let c_idx = NodeIndex::new(graph.index_of(&"c".to_string()).unwrap());
    let b_c_edge = graph.graph().find_edge(b_idx, c_idx).unwrap();
    assert_eq!(graph.graph()[b_c_edge], 2);
    for e in graph.graph().edge_references() {
        if e.id() == b_c_edge {
            continue;
        }
        assert_eq!(e.weight().to_owned(), 1);
    }
}

#[test]
fn test_combinations() {
    let c: Vec<(usize, usize)> = combinations_k_2(4);
    let expected: Vec<(usize, usize)> = vec![(0, 1), (0, 2), (0, 3), (1, 2), (1, 3), (2, 3)];
    assert_eq!(c.len(), expected.len());
    assert_eq!(c, expected);
}

#[test]
fn combinations_of_few() {
    assert_eq!(combinations_k_2(0), vec![]);
    assert_eq!(combinations_k_2(1), vec![]);
    assert_eq!(combinations_k_2(2), vec![(0, 1)]);
    assert_eq!(combinations_k_2(10).len(), 45);
}

#[test]
fn copy_keeps_both_fields() {
    let first = file(Status::Modified, "src/lib.rs");
    let copy = copy_file(&first);
    assert_eq!(copy.name, "src/lib.rs");
    assert_eq!(copy.status, Status::Modified);
}

#[test]
fn listing_finds_exact_paths_only() {
    let paths = vec!["a".to_string(), "bc".to_string()];
    assert!(is_listed(&paths, &"bc".to_string()));
    assert!(!is_listed(&paths, &"b".to_string()));
    assert!(!is_listed(&vec![], &"a".to_string()));
}

#[test]
fn empty_input_gives_empty_graph() {
    let graph = build_graph(vec![]);
    assert_eq!(graph.len(), 0);
    assert_eq!(graph.graph().edge_count(), 0);
    assert!(graph.deleted().is_empty());
    assert!(!graph.holds_distances());
    let fresh = GitGraph::default();
    assert_eq!(fresh.len(), 0);
    assert_eq!(GitGraph::new().graph().node_count(), 0);
}

#[test]
fn single_file_makes_a_node_without_edges() {
    let graph = build_graph(vec![added(&["d"])]);
    assert_eq!(named_nodes(&graph), vec!["d"]);
    assert_eq!(graph.graph().edge_count(), 0);
}

#[test]
fn nodes_keep_record_order_and_status() {
    let graph = GitGraph::from_chageset(vec![
        file(Status::Modified, "z"),
        file(Status::Added, "a"),
        file(Status::Added, "m"),
    ]);
    let names: Vec<&str> = graph.graph().node_weights().map(|f| f.name.as_str()).collect();
    assert_eq!(names, vec!["z", "a", "m"]);
    assert_eq!(graph.graph()[NodeIndex::new(0)].status, Status::Modified);
    assert_eq!(graph.graph()[NodeIndex::new(1)].status, Status::Added);
    let ends: Vec<(usize, usize, i64)> =
        graph.graph().edge_references().map(|e| (e.source().index(), e.target().index(), *e.weight())).collect();
    assert_eq!(ends, vec![(0, 1, 1), (0, 2, 1), (1, 2, 1)]);
}

#[test]
fn first_record_of_a_path_wins() {
    let graph = GitGraph::from_chageset(vec![
        file(Status::Added, "a"),
        file(Status::Deleted, "a"),
        file(Status::Deleted, "b"),
        file(Status::Modified, "b"),
        file(Status::Modified, "c"),
        file(Status::Added, "c"),
    ]);
    assert_eq!(named_nodes(&graph), vec!["a", "c"]);
    assert_eq!(graph.deleted(), &vec!["b".to_string()]);
    assert_eq!(graph.graph()[NodeIndex::new(1)].status, Status::Modified);
    assert_eq!(named_edges(&graph), vec![edge("a", "c", 1)]);
}

#[test]
fn record_without_path_is_dropped() {
    let graph = GitGraph::from_chageset(vec![
        file(Status::Added, "a"),
        file(Status::Added, ""),
        file(Status::Deleted, ""),
        file(Status::Added, "b"),
    ]);
    assert_eq!(named_nodes(&graph), vec!["a", "b"]);
    assert!(graph.deleted().is_empty());
    assert_eq!(named_edges(&graph), vec![edge("a", "b", 1)]);
}

#[test]
fn oversized_change_set_is_passed_over() {
    let names: Vec<String> = (0..41).map(|i| format!("f{}", i)).collect();
    let big: ChangeSet = names.iter().map(|n| file(Status::Added, n)).collect();
    assert_eq!(big.len(), MAX_CHANGES + 1);
    let graph = build_graph(vec![big.clone(), added(&["x", "y"])]);
    assert_eq!(named_nodes(&graph), vec!["x", "y"]);
    assert_eq!(named_edges(&graph), vec![edge("x", "y", 1)]);

    let mut exact = big.clone();
    exact.pop();
    let graph = build_graph(vec![exact]);
    assert_eq!(graph.len(), 40);
    assert_eq!(graph.graph().edge_count(), 780);

    let wide = build_graph_with(vec![big], 41, true);
    assert_eq!(wide.len(), 41);
    assert_eq!(wide.graph().edge_count(), 820);
}

#[test]
fn oversized_change_set_deletes_nothing() {
    let mut big: ChangeSet = (0..40).map(|i| file(Status::Added, &format!("f{}", i))).collect();
    big.push(file(Status::Deleted, "x"));
    let graph = build_graph(vec![big, added(&["x", "y"])]);
    assert_eq!(named_nodes(&graph), vec!["x", "y"]);
    assert!(graph.deleted().is_empty());
}

#[test]
fn deleted_file_is_absent_whenever_it_was_deleted() {
    let early = vec![
        vec![file(Status::Deleted, "x")],
        added(&["x", "y", "z"]),
        added(&["y", "z"]),
    ];
    let graph = build_graph(early);
    assert_eq!(named_nodes(&graph), vec!["y", "z"]);
    assert_eq!(named_edges(&graph), vec![edge("y", "z", 2)]);
    assert_eq!(graph.index_of(&"x".to_string()), None);
    assert_eq!(graph.deleted(), &vec!["x".to_string()]);

    let late = vec![
        added(&["x", "y", "z"]),
        added(&["y", "z"]),
        vec![file(Status::Modified, "y"), file(Status::Deleted, "x")],
    ];
    let graph = build_graph(late);
    assert_eq!(named_nodes(&graph), vec!["y", "z"]);
    assert_eq!(named_edges(&graph), vec![edge("y", "z", 2)]);
}

#[test]
fn deleted_file_stays_when_removal_is_off() {
    let sets = vec![added(&["x", "y"]), vec![file(Status::Deleted, "x")]];
    let graph = build_graph_with(sets, MAX_CHANGES, false);
    assert_eq!(named_nodes(&graph), vec!["x", "y"]);
    assert_eq!(named_edges(&graph), vec![edge("x", "y", 1)]);
    assert_eq!(graph.deleted(), &vec!["x".to_string()]);
}

#[test]
fn without_deleted_keeps_order_of_the_rest() {
    let a = GitGraph::from_chageset(added(&["p", "q", "r", "s"]));
    let b = GitGraph::from_chageset(vec![file(Status::Deleted, "q")]);
    let merged = a.merge(b);
    assert_eq!(merged.len(), 4);
    let kept = merged.without_deleted();
    let names: Vec<&str> = kept.graph().node_weights().map(|f| f.name.as_str()).collect();
    assert_eq!(names, vec!["p", "r", "s"]);
    assert_eq!(named_edges(&kept), vec![edge("p", "r", 1), edge("p", "s", 1), edge("r", "s", 1)]);
    assert_eq!(kept.deleted(), &vec!["q".to_string()]);
}

#[test]
fn merge_adds_weights_and_unites_nodes() {
    let a = GitGraph::from_chageset(added(&["b", "c"]));
    let b = GitGraph::from_chageset(added(&["a", "b", "c"]));
    let merged = a.merge(b);
    assert_eq!(named_nodes(&merged), vec!["a", "b", "c"]);
    assert_eq!(named_edges(&merged), vec![edge("a", "b", 1), edge("a", "c", 1), edge("b", "c", 2)]);
}

#[test]
fn merge_keeps_the_larger_graph_in_front() {
    let small = GitGraph::from_chageset(vec![file(Status::Modified, "b"), file(Status::Added, "x")]);
    let large = GitGraph::from_chageset(added(&["a", "b", "c"]));
    let merged = small.merge(large);
    let names: Vec<&str> = merged.graph().node_weights().map(|f| f.name.as_str()).collect();
    assert_eq!(names, vec!["a", "b", "c", "x"]);
    assert_eq!(merged.graph()[NodeIndex::new(1)].status, Status::Added);

    let first = GitGraph::from_chageset(vec![file(Status::Modified, "b"), file(Status::Added, "x")]);
    let second = GitGraph::from_chageset(added(&["b", "y"]));
    let merged = first.merge(second);
    let names: Vec<&str> = merged.graph().node_weights().map(|f| f.name.as_str()).collect();
    assert_eq!(names, vec!["b", "x", "y"]);
    assert_eq!(merged.graph()[NodeIndex::new(0)].status, Status::Modified);
}

#[test]
fn merge_with_empty_graph_changes_nothing() {
    let left = GitGraph::new().merge(GitGraph::from_chageset(added(&["a", "b", "c"])));
    let right = GitGraph::from_chageset(added(&["a", "b", "c"])).merge(GitGraph::new());
    for graph in [&left, &right] {
        let names: Vec<&str> = graph.graph().node_weights().map(|f| f.name.as_str()).collect();
        assert_eq!(names, vec!["a", "b", "c"]);
        let ends: Vec<(usize, usize, i64)> = graph
            .graph()
            .edge_references()
            .map(|e| (e.source().index(), e.target().index(), *e.weight()))
            .collect();
        assert_eq!(ends, vec![(0, 1, 1), (0, 2, 1), (1, 2, 1)]);
    }
}

#[test]
fn merge_unites_deleted_paths() {
    let a = GitGraph::from_chageset(vec![file(Status::Deleted, "x"), file(Status::Deleted, "y")]);
    let b = GitGraph::from_chageset(vec![file(Status::Deleted, "y"), file(Status::Deleted, "z")]);
    let merged = a.merge(b);
    assert_eq!(merged.deleted(), &vec!["x".to_string(), "y".to_string(), "z".to_string()]);
    assert_eq!(merged.len(), 0);
}

fn sample() -> Vec<ChangeSet> {
    vec![
        added(&["d"]),
        added(&["b", "c"]),
        added(&["a", "b", "c"]),
        vec![file(Status::Modified, "a"), file(Status::Modified, "e"), file(Status::Deleted, "q")],
        added(&["e", "b", "q"]),
        added(&["c", "e", "a", "d"]),
    ]
}

#[test]
fn two_change_sets_and_a_single_file() {
    let sets = vec![added(&["b", "c"]), added(&["a", "b", "c"]), added(&["d"])];
    let expected = vec![edge("a", "b", 1), edge("a", "c", 1), edge("b", "c", 2)];
    let graph = build_graph(sets.clone());
    assert_eq!(graph.len(), 4);
    assert_eq!(named_edges(&graph), expected);

    let mut reversed = sets.clone();
    reversed.reverse();
    let graph = build_graph(reversed);
    assert_eq!(graph.len(), 4);
    assert_eq!(named_edges(&graph), expected);

    for cut in 0..=sets.len() {
        let left = build_shard(&sets[..cut].to_vec(), MAX_CHANGES);
        let right = build_shard(&sets[cut..].to_vec(), MAX_CHANGES);
        let graph = left.merge(right).without_deleted();
        assert_eq!(graph.len(), 4);
        assert_eq!(named_edges(&graph), expected);
    }
}

#[test]
fn every_split_builds_the_same_graph() {
    let sets = sample();
    let whole = build_graph(sets.clone());
    assert_eq!(named_nodes(&whole), vec!["a", "b", "c", "d", "e"]);
    assert_eq!(
        named_edges(&whole),
        vec![
            edge("a", "b", 1),
            edge("a", "c", 2),
            edge("a", "d", 1),
            edge("a", "e", 2),
            edge("b", "c", 2),
            edge("b", "e", 1),
            edge("c", "d", 1),
            edge("c", "e", 1),
            edge("d", "e", 1),
        ]
    );
    for cut in 0..=sets.len() {
        let left = build_shard(&sets[..cut].to_vec(), MAX_CHANGES);
        let right = build_shard(&sets[cut..].to_vec(), MAX_CHANGES);
        let one_way = left.merge(right).without_deleted();
        let left = build_shard(&sets[..cut].to_vec(), MAX_CHANGES);
        let right = build_shard(&sets[cut..].to_vec(), MAX_CHANGES);
        let other_way = right.merge(left).without_deleted();
        for graph in [&one_way, &other_way] {
            assert_eq!(named_nodes(graph), named_nodes(&whole));
            assert_eq!(named_edges(graph), named_edges(&whole));
            assert_eq!(graph.deleted(), whole.deleted());
        }
    }
}

#[test]
fn merge_tree_shape_does_not_matter() {
    let sets = sample();
    let shard = |i: usize| GitGraph::from_chageset(sets[i].clone());
    let left_deep = shard(0).merge(shard(1)).merge(shard(2)).merge(shard(3)).merge(shard(4)).merge(shard(5));
    let right_deep = shard(0).merge(shard(1).merge(shard(2).merge(shard(3).merge(shard(4).merge(shard(5))))));
    let balanced = shard(0).merge(shard(1)).merge(shard(2)).merge(shard(3).merge(shard(4)).merge(shard(5)));
    let shuffled = shard(4).merge(shard(2)).merge(shard(5).merge(shard(0))).merge(shard(3).merge(shard(1)));
    let whole = build_shard(&sets, MAX_CHANGES);
    for graph in [&left_deep, &right_deep, &balanced, &shuffled] {
        assert_eq!(named_nodes(graph), named_nodes(&whole));
        assert_eq!(named_edges(graph), named_edges(&whole));
        let mut deleted = graph.deleted().clone();
        deleted.sort();
        assert_eq!(deleted, vec!["q".to_string()]);
    }
}

#[test]
fn distances_are_greatest_count_minus_count() {
    let sets = vec![added(&["a", "b", "c"]), added(&["b", "c"]), added(&["b", "c", "d"])];
    let counts = build_graph(sets);
    assert_eq!(
        named_edges(&counts),
        vec![edge("a", "b", 1), edge("a", "c", 1), edge("b", "c", 3), edge("b", "d", 1), edge("c", "d", 1)]
    );
    let before: Vec<(usize, usize)> =
        counts.graph().edge_references().map(|e| (e.source().index(), e.target().index())).collect();
    let turned = counts.to_distances();
    assert!(turned.holds_distances());
    assert_eq!(
        named_edges(&turned),
        vec![edge("a", "b", 2), edge("a", "c", 2), edge("b", "c", 0), edge("b", "d", 2), edge("c", "d", 2)]
    );
    let after: Vec<(usize, usize)> =
        turned.graph().edge_references().map(|e| (e.source().index(), e.target().index())).collect();
    assert_eq!(before, after);
    assert_eq!(turned.len(), 4);
}

#[test]
fn distances_of_a_graph_without_edges() {
    let turned = build_graph(vec![added(&["a"]), added(&["b"])]).to_distances();
    assert_eq!(turned.len(), 2);
    assert_eq!(turned.graph().edge_count(), 0);
    assert!(turned.holds_distances());
}

#[test]
fn index_of_finds_each_node() {
    let graph = build_graph(vec![added(&["a", "b"]), added(&["c"])]);
    for i in 0..graph.len() {
        let name = graph.graph()[NodeIndex::new(i)].name.clone();
        assert_eq!(graph.index_of(&name), Some(i));
    }
    assert_eq!(graph.index_of(&"zz".to_string()), None);
    assert_eq!(graph.index_of(&"".to_string()), None);
}

#[test]
fn record_without_path_is_invalid() {
    assert_eq!(check_record(&file(Status::Added, "")), Err(GraphError::InvalidRecord));
    assert_eq!(check_record(&file(Status::Deleted, "")), Err(GraphError::InvalidRecord));
    assert_eq!(check_record(&file(Status::Added, "a")), Ok(()));
    assert_eq!(check_record(&file(Status::Deleted, " ")), Ok(()));
}

#[test]
fn merged_edges_follow_the_larger_graph() {
    // the larger graph keeps its edges in place; the others follow in their order
    let large = GitGraph::from_chageset(added(&["a", "b", "c"]));
    let small = GitGraph::from_chageset(added(&["c", "d", "a"]));
    let merged = large.merge(small);
    let names: Vec<&str> = merged.graph().node_weights().map(|f| f.name.as_str()).collect();
    assert_eq!(names, vec!["a", "b", "c", "d"]);
    let ends: Vec<(usize, usize, i64)> =
        merged.graph().edge_references().map(|e| (e.source().index(), e.target().index(), *e.weight())).collect();
    // a-b, a-c (now twice), b-c, then c-d and d-a as the smaller graph had them
    assert_eq!(ends, vec![(0, 1, 1), (0, 2, 2), (1, 2, 1), (2, 3, 1), (3, 0, 1)]);
}

#[test]
fn small_graphs_can_be_merged() {
    let a = GitGraph::from_chageset(added(&["a", "b", "c"]));
    let b = GitGraph::from_chageset(added(&["c", "d"]));
    assert!(a.can_merge(&b));
    assert!(b.can_merge(&a));
    assert!(a.can_merge(&GitGraph::new()));
    assert!(GitGraph::new().can_merge(&GitGraph::new()));
    let merged = a.merge(b);
    assert_eq!(merged.len(), 4);
    assert_eq!(merged.graph().edge_count(), 4);
}

#[test]
fn tested_build_gives_what_the_plain_build_gives() {
    let sets = sample();
    let plain = build_graph(sets.clone());
    let tested = try_build_graph(sets.clone()).unwrap();
    assert_eq!(named_nodes(&tested), named_nodes(&plain));
    assert_eq!(named_edges(&tested), named_edges(&plain));
    assert_eq!(tested.deleted(), plain.deleted());
    let ends = |g: &GitGraph| -> Vec<(usize, usize, i64)> {
        g.graph().edge_references().map(|e| (e.source().index(), e.target().index(), *e.weight())).collect()
    };
    assert_eq!(ends(&tested), ends(&plain));

    let kept = try_build_graph_with(sets.clone(), MAX_CHANGES, false).unwrap();
    assert_eq!(named_nodes(&kept), vec!["a", "b", "c", "d", "e", "q"]);
    let shard = try_build_shard(&sets, 2).unwrap();
    assert_eq!(named_nodes(&shard), vec!["b", "c", "d"]);
    assert_eq!(named_edges(&shard), vec![edge("b", "c", 1)]);
    assert_eq!(try_build_graph(vec![]).unwrap().len(), 0);
}

#[test]
fn tested_graph_of_one_change_set() {
    let records = vec![file(Status::Added, "a"), file(Status::Deleted, "b"), file(Status::Modified, "c")];
    let graph = GitGraph::try_from_records(&records).unwrap();
    assert_eq!(named_nodes(&graph), vec!["a", "c"]);
    assert_eq!(named_edges(&graph), vec![edge("a", "c", 1)]);
    assert_eq!(graph.deleted(), &vec!["b".to_string()]);
    let plain = GitGraph::from_records(&records);
    assert_eq!(named_nodes(&plain), named_nodes(&graph));
}

#[test]
fn every_node_is_found_by_its_name() {
    let sets: Vec<ChangeSet> = (0..60)
        .map(|i| {
            (0..7).map(|j| file(Status::Added, &format!("dir{}/file{}.rs", (i * 7 + j) % 13, (i + 3 * j) % 97))).collect()
        })
        .collect();
    let graph = build_graph(sets);
    assert!(graph.len() > 100);
    for i in 0..graph.len() {
        let name = graph.graph()[NodeIndex::new(i)].name.clone();
        assert_eq!(graph.index_of(&name), Some(i));
    }
    assert_eq!(graph.index_of(&"dir0/file0".to_string()), None);
    let kept = graph.to_distances();
    for i in 0..kept.len() {
        let name = kept.graph()[NodeIndex::new(i)].name.clone();
        assert_eq!(kept.index_of(&name), Some(i));
    }
}

#[test]
fn names_are_found_after_merging_and_pruning() {
    let a = GitGraph::from_chageset(added(&["p", "q", "r", "s"]));
    let b = GitGraph::from_chageset(vec![file(Status::Deleted, "q"), file(Status::Added, "t"), file(Status::Added, "r")]);
    let merged = a.merge(b);
    for (i, name) in ["p", "q", "r", "s", "t"].iter().enumerate() {
        assert_eq!(merged.index_of(&name.to_string()), Some(i));
    }
    let kept = merged.without_deleted();
    for (i, name) in ["p", "r", "s", "t"].iter().enumerate() {
        assert_eq!(kept.index_of(&name.to_string()), Some(i));
    }
    assert_eq!(kept.index_of(&"q".to_string()), None);
}

#[test]
fn equal_paths_have_equal_hashes() {
    assert_eq!(hash_path(&"src/main.rs".to_string()), hash_path(&format!("src/{}.rs", "main")));
    assert_eq!(hash_path(&String::new()), hash_path(&"".to_string()));
}
