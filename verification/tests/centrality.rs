use graph_centrality::clustering::compute_clustering_coefficient;
use graph_centrality::closeness::{closeness_from, compute_closeness_centrality};
use graph_centrality::degree::compute_degree_centrality;
use graph_centrality::graph::UndirectedGraph;
use graph_centrality::maps::MetricMap;
use graph_centrality::ranking::top_central_nodes;
use graph_centrality::score::Score;

#[test]
fn test_compute_degree_centrality() {
    let mut graph = UndirectedGraph::new();
    let a = graph.add_node();
    let b = graph.add_node();
    graph.add_edge(a, b);

    let centrality = compute_degree_centrality(&graph);

    assert_eq!(centrality.len(), 2);
    assert!(centrality.contains_key(a));
}

#[test]
fn test_top_central_nodes() {
    let mut graph = UndirectedGraph::new();
    let a = graph.add_node();
    let b = graph.add_node();
    graph.add_edge(a, b);

    let degree_centrality = compute_degree_centrality(&graph);

    let top_nodes = top_central_nodes(&degree_centrality, 2);

    assert_eq!(top_nodes.len(), 2);
    assert!(top_nodes.contains(&(a, Score::from_count(1))));
    assert!(top_nodes.contains(&(b, Score::from_count(1))));
}

#[test]
fn test_empty_graph() {
    let graph = UndirectedGraph::new();
    let degree_centrality = compute_degree_centrality(&graph);
    let closeness_centrality = compute_closeness_centrality(&graph, 10);
    let clustering_coefficient = compute_clustering_coefficient(&graph);

    assert!(degree_centrality.is_empty());
    assert!(closeness_centrality.is_empty());
    assert!(clustering_coefficient.is_empty());
}

#[test]
fn test_single_node() {
    let mut graph = UndirectedGraph::new();
    let node = graph.add_node();
    let degree_centrality = compute_degree_centrality(&graph);
    let closeness_centrality = compute_closeness_centrality(&graph, 1);
    let clustering_coefficient = compute_clustering_coefficient(&graph);

    assert_eq!(degree_centrality.get(node), Some(Score::from_count(0)));
    assert!(closeness_centrality.is_empty() || closeness_centrality.get(node).is_some());
    assert_eq!(clustering_coefficient.get(node), Some(Score::zero()));
}

// Two connected nodes: each has degree one, no triangles, and each reaches
// both nodes with a distance sum of one, so each closeness score is R/D = 2.
#[test]
fn two_node_scenario() {
    let mut graph = UndirectedGraph::new();
    let a = graph.add_node();
    let b = graph.add_node();
    graph.add_edge(a, b);

    let degree = compute_degree_centrality(&graph);
    assert_eq!(degree.get(a), Some(Score::from_count(1)));
    assert_eq!(degree.get(b), Some(Score::from_count(1)));

    let clustering = compute_clustering_coefficient(&graph);
    assert_eq!(clustering.get(a), Some(Score::zero()));
    assert_eq!(clustering.get(b), Some(Score::zero()));

    assert_eq!(closeness_from(&graph, a), Score::ratio(2, 1));
    assert_eq!(closeness_from(&graph, b), Score::ratio(2, 1));

    let closeness = compute_closeness_centrality(&graph, 2);
    assert_eq!(closeness.len(), 2);
    assert_eq!(closeness.get(a), Some(Score::ratio(2, 1)));
    assert_eq!(closeness.get(b), Some(Score::ratio(2, 1)));
}

// A triangle: every node has two neighbors joined by an edge, so every
// clustering coefficient is exactly one.
#[test]
fn triangle_clustering_is_one() {
    let mut graph = UndirectedGraph::new();
    let a = graph.add_node();
    let b = graph.add_node();
    let c = graph.add_node();
    graph.add_edge(a, b);
    graph.add_edge(b, c);
    graph.add_edge(a, c);

    let clustering = compute_clustering_coefficient(&graph);
    for node in [a, b, c] {
        let score = clustering.get(node).unwrap();
        assert!(score.value_eq(&Score::one()));
        assert_eq!(score, Score::ratio(2, 2));
    }
}

// Star graph: the center has degree five, each leaf degree one; no node
// closes a triangle; the center reaches six nodes over a distance sum of
// five, each leaf six nodes over 1 + 4*2 = 9.
#[test]
fn star_scenario() {
    let mut graph = UndirectedGraph::new();
    let center = graph.add_node();
    let mut leaves = Vec::new();
    for _ in 0..5 {
        let leaf = graph.add_node();
        graph.add_edge(center, leaf);
        leaves.push(leaf);
    }

    let degree = compute_degree_centrality(&graph);
    assert_eq!(degree.get(center), Some(Score::from_count(5)));
    for &leaf in &leaves {
        assert_eq!(degree.get(leaf), Some(Score::from_count(1)));
    }

    let clustering = compute_clustering_coefficient(&graph);
    // The center's zero coefficient is represented as 0 / (5*4).
    assert!(clustering.get(center).unwrap().value_eq(&Score::zero()));
    for &leaf in &leaves {
        assert_eq!(clustering.get(leaf), Some(Score::zero()));
    }

    assert_eq!(closeness_from(&graph, center), Score::ratio(6, 5));
    for &leaf in &leaves {
        assert_eq!(closeness_from(&graph, leaf), Score::ratio(6, 9));
    }

    let closeness = compute_closeness_centrality(&graph, 6);
    assert_eq!(closeness.len(), 6);
    assert_eq!(closeness.get(center), Some(Score::ratio(6, 5)));
}

// The degree sum over all nodes is twice the edge count.
#[test]
fn degree_sum_is_twice_edges() {
    let mut graph = UndirectedGraph::new();
    for _ in 0..5 {
        graph.add_node();
    }
    graph.add_edge(0, 1);
    graph.add_edge(1, 2);
    graph.add_edge(2, 3);
    graph.add_edge(3, 4);
    graph.add_edge(4, 0);
    graph.add_edge(1, 3);

    let degree = compute_degree_centrality(&graph);
    assert_eq!(degree.len(), 5);
    let mut total: u64 = 0;
    for u in 0..5 {
        let s = degree.get(u).unwrap();
        assert_eq!(s.den, 1);
        total += s.num;
    }
    assert_eq!(total, 2 * graph.edge_count() as u64);
}

// Edge queries answer from the graph structure itself.
#[test]
fn edge_queries() {
    let mut graph = UndirectedGraph::new();
    let a = graph.add_node();
    let b = graph.add_node();
    let c = graph.add_node();
    assert!(!graph.has_edge(a, b));
    graph.add_edge(a, b);
    assert!(graph.has_edge(a, b));
    assert!(graph.has_edge(b, a));
    assert!(!graph.has_edge(a, c));
    assert_eq!(graph.neighbors(a), &vec![b]);
    assert_eq!(graph.degree(a), 1);
    assert_eq!(graph.node_count(), 3);
    assert_eq!(graph.edge_count(), 1);
}

// Sampling returns min(k, n) distinct known nodes.
#[test]
fn closeness_sampling_sizes() {
    let mut graph = UndirectedGraph::new();
    for _ in 0..4 {
        graph.add_node();
    }
    graph.add_edge(0, 1);
    graph.add_edge(2, 3);

    assert!(compute_closeness_centrality(&graph, 0).is_empty());

    let all = compute_closeness_centrality(&graph, 100);
    assert_eq!(all.len(), 4);
    for u in 0..4 {
        // Two components of two nodes each: every score is R/D = 2/1.
        assert_eq!(all.get(u), Some(Score::ratio(2, 1)));
    }

    let some = compute_closeness_centrality(&graph, 3);
    assert_eq!(some.len(), 3);
    for (node, score) in some.entries() {
        assert!(*node < 4);
        assert_eq!(*score, Score::ratio(2, 1));
    }
}

// An isolated node reaches only itself: distance sum zero, score zero.
#[test]
fn isolated_node_scores_zero() {
    let mut graph = UndirectedGraph::new();
    let a = graph.add_node();
    let b = graph.add_node();
    let c = graph.add_node();
    graph.add_edge(a, b);
    assert_eq!(closeness_from(&graph, c), Score::zero());
}

// Ranking twice with the same inputs gives identical output, and ties
// break by ascending node identifier.
#[test]
fn ranking_is_deterministic() {
    let mut m = MetricMap::new();
    m.insert(3, Score::ratio(1, 2));
    m.insert(1, Score::ratio(2, 1));
    m.insert(2, Score::ratio(1, 2));
    m.insert(0, Score::ratio(1, 4));

    let first = top_central_nodes(&m, 3);
    let second = top_central_nodes(&m, 3);
    assert_eq!(first, second);
    assert_eq!(
        first,
        vec![
            (1, Score::ratio(2, 1)),
            (2, Score::ratio(1, 2)),
            (3, Score::ratio(1, 2)),
        ]
    );

    let empty = MetricMap::new();
    assert!(top_central_nodes(&empty, 10).is_empty());
}
