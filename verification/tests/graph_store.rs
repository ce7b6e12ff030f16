use path_stats::graph::Graph;

#[test]
fn new_graph_has_no_nodes() {
    let graph = Graph::new();
    assert_eq!(graph.node_count(), 0);
    assert!(graph.neighbors(0).is_empty());
}

#[test]
fn add_edge_appends_in_order() {
    let mut graph = Graph::new();
    graph.add_edge(1, 5);
    graph.add_edge(1, 3);
    graph.add_edge(1, 9);
    assert_eq!(graph.neighbors(1), &[5, 3, 9]);
}

#[test]
fn add_edge_keeps_duplicates() {
    let mut graph = Graph::new();
    graph.add_edge(4, 7);
    graph.add_edge(4, 7);
    assert_eq!(graph.neighbors(4), &[7, 7]);
    assert_eq!(graph.node_count(), 1);
}

#[test]
fn add_edge_keeps_self_loops() {
    let mut graph = Graph::new();
    graph.add_edge(5, 5);
    assert_eq!(graph.neighbors(5), &[5]);
    assert_eq!(graph.node_count(), 1);
}

#[test]
fn neighbors_of_a_sink_are_empty() {
    let mut graph = Graph::new();
    graph.add_edge(0, 1);
    assert!(graph.neighbors(1).is_empty());
}

#[test]
fn neighbors_of_an_unknown_node_are_empty() {
    let mut graph = Graph::new();
    graph.add_edge(0, 1);
    assert!(graph.neighbors(42).is_empty());
}

#[test]
fn node_count_counts_only_nodes_with_out_edges() {
    let mut graph = Graph::new();
    graph.add_edge(0, 1);
    graph.add_edge(0, 2);
    graph.add_edge(1, 3);
    graph.add_edge(2, 3);
    assert_eq!(graph.node_count(), 3);
}

#[test]
fn add_edge_leaves_other_nodes_alone() {
    let mut graph = Graph::new();
    graph.add_edge(0, 1);
    graph.add_edge(2, 3);
    graph.add_edge(0, 4);
    assert_eq!(graph.neighbors(0), &[1, 4]);
    assert_eq!(graph.neighbors(2), &[3]);
    assert_eq!(graph.node_count(), 2);
}

#[test]
fn node_identifiers_span_the_whole_range() {
    let mut graph = Graph::new();
    graph.add_edge(u32::MAX, 0);
    graph.add_edge(0, u32::MAX);
    assert_eq!(graph.neighbors(u32::MAX), &[0]);
    assert_eq!(graph.neighbors(0), &[u32::MAX]);
    assert_eq!(graph.node_count(), 2);
}
