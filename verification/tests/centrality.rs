use petgraph::graph::{Graph, NodeIndex};
use petgraph::Undirected;
use rorqual::analyser::centrality::{normalization_divisor, single_source_dijkstra_path, BrandesNet};
use rorqual::error::GraphError;
use rorqual::git_graph::{build_graph, GitFile, Status};

type FileGraph = Graph<GitFile, i64, Undirected>;

fn graph_of(n: usize, edges: &[(usize, usize, i64)]) -> FileGraph {
    let mut g = Graph::new_undirected();
    for i in 0..n {
        g.add_node(GitFile { status: Status::Added, name: format!("n{}", i) });
    }
    for &(a, b, w) in edges {
        g.add_edge(NodeIndex::new(a), NodeIndex::new(b), w);
    }
    g
}

/// Betweenness centrality by Brandes' accumulation over the searches from
/// every node, divided by the library's divisor. A graph of fewer than two
/// nodes has no centrality to report.
fn centrality(g: &FileGraph) -> Vec<f64> {
    let n = g.node_count();
    if n <= 1 {
        return Vec::new();
    }
    let mut total = vec![0.0f64; n];
    for s in 0..n {
        let net = single_source_dijkstra_path(g, s).unwrap();
        let mut delta = vec![0.0f64; n];
        for &w in net.stack.iter().rev() {
            let coeff = (1.0 + delta[w]) / (net.sigma[w] as f64);
            for &v in &net.pred[w] {
                delta[v] += (net.sigma[v] as f64) * coeff;
            }
            if w != s {
                total[w] += delta[w];
            }
        }
    }
    let scale = 1.0 / (normalization_divisor(n) as f64);
    total.iter().map(|c| c * scale).collect()
}

fn close(a: f64, b: f64) -> bool {
    (a - b).abs() < 1e-9
}

#[test]
fn path_graph_search_from_one_end() {
    let g = graph_of(4, &[(0, 1, 1), (1, 2, 1), (2, 3, 1)]);
    let net: BrandesNet = single_source_dijkstra_path(&g, 0).unwrap();
    assert_eq!(net.start, 0);
    assert_eq!(net.stack, vec![0, 1, 2, 3]);
    assert_eq!(net.dist, vec![Some(0), Some(1), Some(2), Some(3)]);
    assert_eq!(net.sigma, vec![1, 1, 1, 1]);
    assert_eq!(net.pred, vec![vec![], vec![0], vec![1], vec![2]]);
}

#[test]
fn path_graph_search_from_the_middle() {
    let g = graph_of(4, &[(0, 1, 1), (1, 2, 1), (2, 3, 1)]);
    let net = single_source_dijkstra_path(&g, 2).unwrap();
    assert_eq!(net.stack, vec![2, 1, 3, 0]);
    assert_eq!(net.dist, vec![Some(2), Some(1), Some(0), Some(1)]);
    assert_eq!(net.sigma, vec![1, 1, 1, 1]);
    assert_eq!(net.pred, vec![vec![1], vec![2], vec![], vec![2]]);
}

#[test]
fn path_graph_centrality() {
    let g = graph_of(4, &[(0, 1, 1), (1, 2, 1), (2, 3, 1)]);
    let c = centrality(&g);
    assert!(close(c[1], c[2]));
    assert!(c[1] > c[0]);
    assert!(close(c[0], 0.0));
    assert!(close(c[3], 0.0));
    assert!(close(c[1], 4.0 / 6.0));
}

#[test]
fn complete_graph_has_no_central_node() {
    let mut edges = Vec::new();
    for a in 0..5 {
        for b in (a + 1)..5 {
            edges.push((a, b, 3));
        }
    }
    let g = graph_of(5, &edges);
    for s in 0..5 {
        let net = single_source_dijkstra_path(&g, s).unwrap();
        for w in 0..5 {
            if w != s {
                assert_eq!(net.pred[w], vec![s]);
                assert_eq!(net.sigma[w], 1);
                assert_eq!(net.dist[w], Some(3));
            }
        }
    }
    for c in centrality(&g) {
        assert!(close(c, 0.0));
    }
}

#[test]
fn at_most_two_nodes_have_no_centrality() {
    assert_eq!(centrality(&graph_of(0, &[])), Vec::<f64>::new());
    assert_eq!(centrality(&graph_of(1, &[])), Vec::<f64>::new());
    for weight in [0, 1, 7] {
        let g = graph_of(2, &[(0, 1, weight)]);
        let net = single_source_dijkstra_path(&g, 1).unwrap();
        assert_eq!(net.stack, vec![1, 0]);
        assert_eq!(net.pred, vec![vec![1], vec![]]);
        assert_eq!(centrality(&g), vec![0.0, 0.0]);
    }
    assert_eq!(centrality(&graph_of(2, &[])), vec![0.0, 0.0]);
}

#[test]
fn isolated_and_unreachable_nodes() {
    let g = graph_of(5, &[(0, 1, 2), (1, 2, 2), (3, 4, 1)]);
    let net = single_source_dijkstra_path(&g, 0).unwrap();
    assert_eq!(net.stack, vec![0, 1, 2]);
    assert_eq!(net.dist, vec![Some(0), Some(2), Some(4), None, None]);
    assert_eq!(net.sigma, vec![1, 1, 1, 0, 0]);
    assert_eq!(net.pred, vec![vec![], vec![0], vec![1], vec![], vec![]]);
    let c = centrality(&g);
    assert!(close(c[1], 2.0 / 12.0));
    assert!(close(c[0], 0.0) && close(c[2], 0.0) && close(c[3], 0.0) && close(c[4], 0.0));

    let alone = single_source_dijkstra_path(&graph_of(3, &[(1, 2, 1)]), 0).unwrap();
    assert_eq!(alone.stack, vec![0]);
    assert_eq!(alone.sigma, vec![1, 0, 0]);
}

#[test]
fn ties_count_every_shortest_path() {
    // 0 - 1 - 3 and 0 - 2 - 3, both of length 2, and a longer way 0 - 4 - 3
    let g = graph_of(5, &[(0, 1, 1), (0, 2, 1), (1, 3, 1), (2, 3, 1), (0, 4, 1), (4, 3, 5)]);
    let net = single_source_dijkstra_path(&g, 0).unwrap();
    assert_eq!(net.stack, vec![0, 1, 2, 4, 3]);
    assert_eq!(net.dist[3], Some(2));
    assert_eq!(net.sigma[3], 2);
    assert_eq!(net.pred[3], vec![1, 2]);
    assert_eq!(net.pred[4], vec![0]);
}

#[test]
fn shorter_way_found_later_replaces_the_first() {
    // 0 - 2 directly costs 10, over 1 it costs 3
    let g = graph_of(3, &[(0, 2, 10), (0, 1, 1), (1, 2, 2)]);
    let net = single_source_dijkstra_path(&g, 0).unwrap();
    assert_eq!(net.stack, vec![0, 1, 2]);
    assert_eq!(net.dist, vec![Some(0), Some(1), Some(3)]);
    assert_eq!(net.pred[2], vec![1]);
    assert_eq!(net.sigma[2], 1);
}

#[test]
fn nodes_are_settled_by_distance_then_index() {
    let g = graph_of(5, &[(0, 4, 1), (0, 3, 1), (0, 2, 5), (0, 1, 5), (4, 2, 1)]);
    let net = single_source_dijkstra_path(&g, 0).unwrap();
    assert_eq!(net.stack, vec![0, 3, 4, 2, 1]);
    assert_eq!(net.dist, vec![Some(0), Some(5), Some(2), Some(1), Some(1)]);
}

#[test]
fn parallel_edges_count_once_each() {
    let g = graph_of(3, &[(0, 1, 2), (1, 0, 2), (0, 1, 3), (1, 2, 1), (1, 1, 0)]);
    let net = single_source_dijkstra_path(&g, 0).unwrap();
    assert_eq!(net.stack, vec![0, 1, 2]);
    assert_eq!(net.sigma, vec![1, 2, 2]);
    assert_eq!(net.pred, vec![vec![], vec![0, 0], vec![1]]);
    assert_eq!(net.dist, vec![Some(0), Some(2), Some(3)]);
}

#[test]
fn settled_node_is_not_changed_by_a_zero_edge() {
    // 1 and 2 are both at distance 0 from 0 and joined at distance 0
    let g = graph_of(3, &[(0, 1, 0), (0, 2, 0), (1, 2, 0)]);
    let net = single_source_dijkstra_path(&g, 0).unwrap();
    assert_eq!(net.stack, vec![0, 1, 2]);
    assert_eq!(net.pred, vec![vec![], vec![0], vec![0, 1]]);
    assert_eq!(net.sigma, vec![1, 1, 2]);
    assert_eq!(net.dist, vec![Some(0), Some(0), Some(0)]);
}

#[test]
fn negative_weight_is_refused() {
    let g = graph_of(3, &[(0, 1, 1), (1, 2, -1)]);
    assert!(matches!(single_source_dijkstra_path(&g, 0), Err(GraphError::InvalidWeight)));
    let far = graph_of(4, &[(0, 1, 1), (2, 3, -5)]);
    assert!(matches!(single_source_dijkstra_path(&far, 0), Err(GraphError::InvalidWeight)));
}

#[test]
fn greatest_weights_do_not_overflow() {
    let g = graph_of(4, &[(0, 1, i64::MAX), (1, 2, i64::MAX), (2, 3, i64::MAX)]);
    let net = single_source_dijkstra_path(&g, 0).unwrap();
    assert_eq!(net.dist[3], Some(3 * (i64::MAX as u128)));
}

/// A chain of `stages` diamonds: every stage doubles the number of shortest
/// paths from node 0 to its last node.
fn diamonds(stages: usize) -> FileGraph {
    let mut edges = Vec::new();
    for k in 0..stages {
        let from = 3 * k;
        edges.push((from, from + 1, 1));
        edges.push((from, from + 2, 1));
        edges.push((from + 1, from + 3, 1));
        edges.push((from + 2, from + 3, 1));
    }
    graph_of(3 * stages + 1, &edges)
}

#[test]
fn path_counts_up_to_u64() {
    let net = single_source_dijkstra_path(&diamonds(63), 0).unwrap();
    assert_eq!(net.sigma[3 * 63], 1u64 << 63);
    assert_eq!(net.sigma[3 * 10], 1024);
    assert_eq!(net.dist[3 * 63], Some(126));
}

#[test]
fn path_count_overflow_is_reported() {
    assert!(matches!(single_source_dijkstra_path(&diamonds(64), 0), Err(GraphError::PathCountOverflow)));
    assert!(matches!(single_source_dijkstra_path(&diamonds(70), 0), Err(GraphError::PathCountOverflow)));
    // seen from the far end every count is the same by symmetry
    assert!(matches!(single_source_dijkstra_path(&diamonds(64), 3 * 64), Err(GraphError::PathCountOverflow)));
}

#[test]
fn centrality_of_a_built_graph() {
    let file = |name: &str| GitFile { status: Status::Added, name: name.to_string() };
    let sets = vec![
        vec![file("a"), file("b")],
        vec![file("a"), file("b")],
        vec![file("b"), file("c")],
        vec![file("b"), file("c")],
        vec![file("a"), file("c")],
    ];
    let graph = build_graph(sets).to_distances();
    // a - b and b - c are at distance 0, a - c at distance 1
    let a = graph.index_of(&"a".to_string()).unwrap();
    let b = graph.index_of(&"b".to_string()).unwrap();
    let c = graph.index_of(&"c".to_string()).unwrap();
    let net = single_source_dijkstra_path(graph.graph(), a).unwrap();
    assert_eq!(net.dist[c], Some(0));
    assert_eq!(net.pred[c], vec![b]);
    let scores = centrality(graph.graph());
    assert!(close(scores[b], 1.0));
    assert!(close(scores[a], 0.0));
    assert!(close(scores[c], 0.0));
}

#[test]
fn summing_searches_in_any_order_agrees() {
    let g = graph_of(6, &[(0, 1, 1), (1, 2, 2), (2, 3, 1), (3, 4, 2), (4, 5, 1), (0, 5, 3), (1, 4, 1), (2, 5, 4)]);
    let n = g.node_count();
    let per_source: Vec<Vec<f64>> = (0..n)
        .map(|s| {
            let net = single_source_dijkstra_path(&g, s).unwrap();
            let mut delta = vec![0.0f64; n];
            for &w in net.stack.iter().rev() {
                let coeff = (1.0 + delta[w]) / (net.sigma[w] as f64);
                for &v in &net.pred[w] {
                    delta[v] += (net.sigma[v] as f64) * coeff;
                }
            }
            delta[s] = 0.0;
            delta
        })
        .collect();
    let mut forward = vec![0.0f64; n];
    for delta in per_source.iter() {
        for w in 0..n {
            forward[w] += delta[w];
        }
    }
    let mut backward = vec![0.0f64; n];
    for delta in per_source.iter().rev() {
        for w in 0..n {
            backward[w] += delta[w];
        }
    }
    let scale = 1.0 / (normalization_divisor(n) as f64);
    let whole = centrality(&g);
    for w in 0..n {
        assert!(close(forward[w] * scale, backward[w] * scale));
        assert!(close(forward[w] * scale, whole[w]));
    }
}
