use centrality::graph::EdgeWeightedDigraph;

fn graph(n: usize, edges: &[(usize, usize)]) -> EdgeWeightedDigraph {
    let mut graph = EdgeWeightedDigraph::new(n);
    for &(u, v) in edges {
        graph.add_weight(u, v).unwrap();
    }
    graph
}

#[test]
fn test_simple_betweenness_centrality() {
    let mut graph = EdgeWeightedDigraph::new(4);
    graph.add_weight(0, 1).unwrap();
    graph.add_weight(1, 2).unwrap();
    graph.add_weight(2, 3).unwrap();
    let simple_centralities = graph.simple_betweenness_centrality();
    assert_eq!(simple_centralities, vec![(3, 3), (2, 2), (1, 1)]);
}

#[test]
fn chain_before_ranking_is_in_node_order() {
    let g = graph(4, &[(0, 1), (1, 2), (2, 3)]);
    assert_eq!(g.reachability_centrality(), vec![(1, 1), (2, 2), (3, 3)]);
}

#[test]
fn graph_without_edges_reaches_nothing() {
    let g = graph(5, &[]);
    assert_eq!(g.reachability_centrality(), vec![]);
    assert_eq!(g.simple_betweenness_centrality(), vec![]);
    let empty = graph(0, &[]);
    assert_eq!(empty.reachability_centrality(), vec![]);
    assert_eq!(empty.simple_betweenness_centrality(), vec![]);
}

#[test]
fn self_loops_alone_are_not_tallied() {
    let g = graph(3, &[(0, 0), (1, 1), (1, 1), (2, 2)]);
    assert_eq!(g.reachability_centrality(), vec![]);
}

#[test]
fn cycle_reaches_every_node_from_every_other() {
    let g = graph(3, &[(0, 1), (1, 2), (2, 0)]);
    assert_eq!(g.reachability_centrality(), vec![(0, 2), (1, 2), (2, 2)]);
    assert_eq!(g.simple_betweenness_centrality(), vec![(0, 2), (1, 2), (2, 2)]);
}

#[test]
fn weight_of_an_edge_does_not_matter() {
    let light = graph(3, &[(0, 1), (1, 2)]);
    let heavy = graph(3, &[(0, 1), (0, 1), (0, 1), (1, 2), (1, 2)]);
    assert_eq!(light.reachability_centrality(), heavy.reachability_centrality());
    assert_eq!(heavy.reachability_centrality(), vec![(1, 1), (2, 2)]);
}

#[test]
fn node_reached_along_two_paths_is_tallied_once_per_source() {
    // 0 -> 1 -> 3 and 0 -> 2 -> 3
    let g = graph(4, &[(0, 1), (0, 2), (1, 3), (2, 3)]);
    assert_eq!(g.reachability_centrality(), vec![(1, 1), (2, 1), (3, 3)]);
    assert_eq!(g.simple_betweenness_centrality(), vec![(3, 3), (1, 1), (2, 1)]);
}

#[test]
fn ties_are_ranked_by_ascending_node() {
    // a star: every leaf is reached from the hub alone
    let g = graph(5, &[(2, 4), (2, 0), (2, 3), (2, 1)]);
    assert_eq!(g.simple_betweenness_centrality(), vec![(0, 1), (1, 1), (3, 1), (4, 1)]);
}

#[test]
fn two_components_do_not_reach_each_other() {
    let g = graph(6, &[(0, 1), (1, 0), (3, 4), (4, 5)]);
    assert_eq!(g.reachability_centrality(), vec![(0, 1), (1, 1), (4, 1), (5, 2)]);
    assert_eq!(g.simple_betweenness_centrality(), vec![(5, 2), (0, 1), (1, 1), (4, 1)]);
}

#[test]
fn count_is_the_number_of_sources_with_a_path() {
    // Compare with a transitive closure computed here.
    let n = 7;
    let edges = [(0, 1), (1, 2), (2, 0), (2, 3), (4, 3), (5, 6), (6, 6), (3, 5)];
    let g = graph(n, &edges);
    let mut reach = vec![vec![false; n]; n];
    for &(u, v) in edges.iter() {
        reach[u][v] = true;
    }
    for k in 0..n {
        for i in 0..n {
            for j in 0..n {
                if reach[i][k] && reach[k][j] {
                    reach[i][j] = true;
                }
            }
        }
    }
    let mut expected = vec![];
    for v in 0..n {
        let count = (0..n).filter(|&s| s != v && reach[s][v]).count();
        if count > 0 {
            expected.push((v, count));
        }
    }
    assert_eq!(g.reachability_centrality(), expected);
    assert_eq!(expected, vec![(0, 2), (1, 2), (2, 2), (3, 4), (5, 5), (6, 6)]);
}

#[test]
fn reachability_gives_the_same_result_twice() {
    let g = graph(5, &[(0, 1), (1, 2), (3, 4), (4, 3), (2, 2)]);
    assert_eq!(g.reachability_centrality(), g.reachability_centrality());
    assert_eq!(g.simple_betweenness_centrality(), g.simple_betweenness_centrality());
}

#[test]
fn computing_leaves_the_graph_as_it_was() {
    let g = graph(3, &[(0, 1), (1, 2)]);
    let before = g.rows().clone();
    let _ = g.simple_betweenness_centrality();
    let _ = g.degree_centrality("combined");
    assert_eq!(*g.rows(), before);
}

#[test]
fn counts_agree_with_a_transitive_closure_on_many_graphs() {
    let mut x: usize = 2024;
    for round in 0..40 {
        let n = 1 + round % 9;
        let mut edges = vec![];
        for _ in 0..(round % 13) {
            x = (x * 1103515245 + 12345) % 2147483648;
            let u = (x / 7) % n;
            x = (x * 1103515245 + 12345) % 2147483648;
            let v = (x / 7) % n;
            edges.push((u, v));
        }
        let g = graph(n, &edges);
        let mut reach = vec![vec![false; n]; n];
        for &(u, v) in edges.iter() {
            reach[u][v] = true;
        }
        for k in 0..n {
            for i in 0..n {
                for j in 0..n {
                    if reach[i][k] && reach[k][j] {
                        reach[i][j] = true;
                    }
                }
            }
        }
        let mut expected = vec![];
        for v in 0..n {
            let count = (0..n).filter(|&s| s != v && reach[s][v]).count();
            if count > 0 {
                expected.push((v, count));
            }
        }
        assert_eq!(g.reachability_centrality(), expected);
        expected.sort_by(|a, b| b.1.cmp(&a.1));
        assert_eq!(g.simple_betweenness_centrality(), expected);
    }
}
