use centrality::degree::{parse_kind, DegreeKind};
use centrality::error::CentralityError;
use centrality::graph::EdgeWeightedDigraph;

fn graph_of(n: usize, edges: &[(usize, usize)]) -> EdgeWeightedDigraph {
    let mut graph = EdgeWeightedDigraph::new(n);
    for &(u, v) in edges {
        graph.add_weight(u, v).unwrap();
    }
    graph
}

#[test]
fn test_degree_centrality() {
    let mut graph = EdgeWeightedDigraph::new(3);
    graph.add_weight(0, 1).unwrap();
    graph.add_weight(1, 2).unwrap();
    let degree_centralities = graph.degree_centrality("in-degree").unwrap();
    assert_eq!(degree_centralities, vec![(0, 0), (1, 1), (2, 1)]);
}

#[test]
fn out_degree_and_combined_of_a_short_chain() {
    let graph = graph_of(3, &[(0, 1), (1, 2)]);
    assert_eq!(graph.degree_centrality("out-degree"), Ok(vec![(0, 1), (1, 1), (2, 0)]));
    assert_eq!(graph.degree_centrality("combined"), Ok(vec![(0, 1), (1, 2), (2, 1)]));
}

#[test]
fn degrees_add_up_weights_not_edges() {
    let graph = graph_of(3, &[(0, 1), (0, 1), (0, 1), (2, 1), (1, 0), (0, 2)]);
    assert_eq!(graph.degrees(DegreeKind::In), vec![(0, 1), (1, 4), (2, 1)]);
    assert_eq!(graph.degrees(DegreeKind::Out), vec![(0, 4), (1, 1), (2, 1)]);
    assert_eq!(graph.degrees(DegreeKind::Combined), vec![(0, 5), (1, 5), (2, 2)]);
}

#[test]
fn self_loop_counts_twice_in_the_combined_degree() {
    let graph = graph_of(2, &[(1, 1)]);
    assert_eq!(graph.degrees(DegreeKind::In), vec![(0, 0), (1, 1)]);
    assert_eq!(graph.degrees(DegreeKind::Out), vec![(0, 0), (1, 1)]);
    assert_eq!(graph.degrees(DegreeKind::Combined), vec![(0, 0), (1, 2)]);
}

#[test]
fn unknown_metric_name_is_refused() {
    let graph = graph_of(3, &[(0, 1)]);
    assert_eq!(graph.degree_centrality("bogus"), Err(CentralityError::InvalidMetricKind));
    assert_eq!(graph.degree_centrality(""), Err(CentralityError::InvalidMetricKind));
    assert_eq!(graph.degree_centrality("In-Degree"), Err(CentralityError::InvalidMetricKind));
    assert_eq!(graph.degree_centrality("in-degree "), Err(CentralityError::InvalidMetricKind));
    assert_eq!(graph.degree_centrality("indegree"), Err(CentralityError::InvalidMetricKind));
}

#[test]
fn metric_names_are_read() {
    assert_eq!(parse_kind("in-degree"), Ok(DegreeKind::In));
    assert_eq!(parse_kind("out-degree"), Ok(DegreeKind::Out));
    assert_eq!(parse_kind("combined"), Ok(DegreeKind::Combined));
    assert_eq!(parse_kind("bogus"), Err(CentralityError::InvalidMetricKind));
}

#[test]
fn named_metric_agrees_with_its_kind() {
    let graph = graph_of(4, &[(0, 1), (1, 2), (2, 3), (3, 0), (0, 2)]);
    assert_eq!(graph.degree_centrality("in-degree").unwrap(), graph.degrees(DegreeKind::In));
    assert_eq!(graph.degree_centrality("out-degree").unwrap(), graph.degrees(DegreeKind::Out));
    assert_eq!(graph.degree_centrality("combined").unwrap(), graph.degrees(DegreeKind::Combined));
}

#[test]
fn combined_is_in_plus_out_for_every_node() {
    let graph = graph_of(5, &[(0, 1), (1, 2), (2, 0), (4, 4), (3, 1), (0, 1), (1, 3)]);
    let incoming = graph.degrees(DegreeKind::In);
    let outgoing = graph.degrees(DegreeKind::Out);
    let combined = graph.degrees(DegreeKind::Combined);
    assert_eq!(combined.len(), 5);
    for i in 0..5 {
        assert_eq!(incoming[i].0, i);
        assert_eq!(outgoing[i].0, i);
        assert_eq!(combined[i].0, i);
        assert_eq!(incoming[i].1 + outgoing[i].1, combined[i].1);
    }
}

#[test]
fn degree_sums_equal_the_number_of_interactions() {
    let edges = [(0, 1), (1, 2), (2, 0), (4, 4), (3, 1), (0, 1), (1, 3), (2, 2)];
    let graph = graph_of(5, &edges);
    let total_in: usize = graph.degrees(DegreeKind::In).iter().map(|e| e.1).sum();
    let total_out: usize = graph.degrees(DegreeKind::Out).iter().map(|e| e.1).sum();
    assert_eq!(total_in, 8);
    assert_eq!(total_out, 8);
    assert_eq!(graph.interactions(), 8);
}

#[test]
fn degrees_of_the_empty_graph() {
    let graph = EdgeWeightedDigraph::new(0);
    assert_eq!(graph.degree_centrality("combined"), Ok(vec![]));
    assert_eq!(graph.degree_centrality("bogus"), Err(CentralityError::InvalidMetricKind));
}

#[test]
fn degree_centrality_gives_the_same_result_twice() {
    let graph = graph_of(4, &[(0, 1), (1, 2), (2, 3), (3, 3)]);
    for name in ["in-degree", "out-degree", "combined"] {
        let first = graph.degree_centrality(name);
        let second = graph.degree_centrality(name);
        assert_eq!(first, second);
    }
}
