use path_stats::error::GraphError;
use path_stats::graph::Graph;
use path_stats::stats::Average;
use std::collections::HashMap;

fn diamond() -> Graph {
    let mut graph = Graph::new();
    graph.add_edge(0, 1);
    graph.add_edge(0, 2);
    graph.add_edge(1, 3);
    graph.add_edge(2, 3);
    graph
}

fn self_loop() -> Graph {
    let mut graph = Graph::new();
    graph.add_edge(5, 5);
    graph
}

fn lone_edge() -> Graph {
    let mut graph = Graph::new();
    graph.add_edge(0, 1);
    graph
}

fn standard_deviation(distances: &HashMap<u32, usize>, average: Average) -> f64 {
    let mean = average.total as f64 / average.count as f64;
    let squares: f64 = distances.values().map(|hops| (*hops as f64 - mean).powi(2)).sum();
    (squares / average.count as f64).sqrt()
}

#[test]
fn diamond_distances() {
    let expected: HashMap<u32, usize> = [(0, 0), (1, 1), (2, 1), (3, 2)].into_iter().collect();
    assert_eq!(diamond().bfs(0), expected);
}

#[test]
fn diamond_average_divides_by_the_nodes_with_out_edges() {
    let graph = diamond();
    assert_eq!(graph.node_count(), 3);
    assert_eq!(graph.total_shortest_path_length(0), 4);
    let average = graph.exact_average_shortest_path_length(0).unwrap();
    assert_eq!(average, Average { total: 4, count: 3 });
    let mean = average.total as f64 / average.count as f64;
    assert!((mean - 4.0 / 3.0).abs() < 1e-12);
    assert_eq!(format!("{:.2}", mean), "1.33");
}

#[test]
fn diamond_extremes_and_median() {
    let graph = diamond();
    assert_eq!(graph.max_shortest_path_length(0), 2);
    assert_eq!(graph.min_shortest_path_length(0), 0);
    assert_eq!(graph.median_shortest_path_length(0), 1);
}

#[test]
fn diamond_distribution() {
    let expected: HashMap<usize, usize> = [(0, 1), (1, 2), (2, 1)].into_iter().collect();
    assert_eq!(diamond().shortest_path_length_distribution(0), expected);
}

#[test]
fn self_loop_reaches_only_itself() {
    let graph = self_loop();
    let expected: HashMap<u32, usize> = [(5, 0)].into_iter().collect();
    assert_eq!(graph.bfs(5), expected);
    assert_eq!(graph.max_shortest_path_length(5), 0);
    assert_eq!(graph.min_shortest_path_length(5), 0);
    assert_eq!(graph.median_shortest_path_length(5), 0);
    let distribution: HashMap<usize, usize> = [(0, 1)].into_iter().collect();
    assert_eq!(graph.shortest_path_length_distribution(5), distribution);
}

#[test]
fn self_loop_average_and_deviation_are_zero() {
    let graph = self_loop();
    let average = graph.exact_average_shortest_path_length(5).unwrap();
    assert_eq!(average, Average { total: 0, count: 1 });
    assert_eq!(average.total as f64 / average.count as f64, 0.0);
    assert_eq!(standard_deviation(&graph.bfs(5), average), 0.0);
}

#[test]
fn isolated_source_reaches_only_itself() {
    let graph = lone_edge();
    let expected: HashMap<u32, usize> = [(2, 0)].into_iter().collect();
    assert_eq!(graph.bfs(2), expected);
    assert_eq!(graph.max_shortest_path_length(2), 0);
    assert_eq!(graph.min_shortest_path_length(2), 0);
    assert_eq!(graph.median_shortest_path_length(2), 0);
}

#[test]
fn isolated_source_average_divides_by_the_other_node() {
    let graph = lone_edge();
    assert_eq!(graph.node_count(), 1);
    let average = graph.exact_average_shortest_path_length(2).unwrap();
    assert_eq!(average, Average { total: 0, count: 1 });
    assert_eq!(average.total as f64 / average.count as f64, 0.0);
    assert_eq!(standard_deviation(&graph.bfs(2), average), 0.0);
}

#[test]
fn graph_without_edges_has_no_average() {
    let graph = Graph::new();
    assert_eq!(graph.exact_average_shortest_path_length(0), Err(GraphError::EmptyGraph));
    assert_eq!(graph.exact_average_shortest_path_length(9), Err(GraphError::EmptyGraph));
}

#[test]
fn graph_without_edges_still_has_the_other_statistics() {
    let graph = Graph::new();
    assert_eq!(graph.max_shortest_path_length(3), 0);
    assert_eq!(graph.min_shortest_path_length(3), 0);
    assert_eq!(graph.median_shortest_path_length(3), 0);
    assert_eq!(graph.total_shortest_path_length(3), 0);
    let distribution: HashMap<usize, usize> = [(0, 1)].into_iter().collect();
    assert_eq!(graph.shortest_path_length_distribution(3), distribution);
}

#[test]
fn average_counts_unreached_nodes_in_the_divisor() {
    let mut graph = Graph::new();
    graph.add_edge(0, 1);
    graph.add_edge(1, 2);
    graph.add_edge(7, 8);
    graph.add_edge(8, 9);
    let average = graph.exact_average_shortest_path_length(0).unwrap();
    assert_eq!(average, Average { total: 3, count: 4 });
}

#[test]
fn diamond_deviation_uses_the_same_divisor() {
    let graph = diamond();
    let average = graph.exact_average_shortest_path_length(0).unwrap();
    let deviation = standard_deviation(&graph.bfs(0), average);
    // squares: (0 - 4/3)^2 + 2 (1 - 4/3)^2 + (2 - 4/3)^2 = 22/9, over 3 nodes
    assert!((deviation - (22.0f64 / 27.0).sqrt()).abs() < 1e-12);
}
