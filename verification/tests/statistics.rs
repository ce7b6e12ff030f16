use path_stats::graph::Graph;
use path_stats::sorting::sort_ascending;
use path_stats::stats::{
    ascending_distribution, distance_distribution, max_distance, median_distance, min_distance,
    total_distance,
};
use std::collections::HashMap;

fn map_of(hops: &[usize]) -> HashMap<u32, usize> {
    hops.iter().enumerate().map(|(node, hops)| (node as u32, *hops)).collect()
}

#[test]
fn extremes_of_an_empty_map_are_the_largest_integer() {
    let empty = HashMap::new();
    assert_eq!(max_distance(&empty), usize::MAX);
    assert_eq!(min_distance(&empty), usize::MAX);
}

#[test]
fn extremes_of_a_single_entry() {
    let distances = map_of(&[6]);
    assert_eq!(max_distance(&distances), 6);
    assert_eq!(min_distance(&distances), 6);
}

#[test]
fn extremes_of_several_entries() {
    let distances = map_of(&[3, 9, 0, 4, 9, 1]);
    assert_eq!(max_distance(&distances), 9);
    assert_eq!(min_distance(&distances), 0);
}

#[test]
fn extremes_may_be_the_largest_integer_itself() {
    let distances = map_of(&[usize::MAX, 2]);
    assert_eq!(max_distance(&distances), usize::MAX);
    assert_eq!(min_distance(&distances), 2);
}

#[test]
fn median_of_an_odd_number_is_the_central_value() {
    assert_eq!(median_distance(&map_of(&[5])), 5);
    assert_eq!(median_distance(&map_of(&[9, 1, 4])), 4);
    assert_eq!(median_distance(&map_of(&[7, 0, 3, 3, 10])), 3);
}

#[test]
fn median_of_an_even_number_is_the_truncated_mean() {
    assert_eq!(median_distance(&map_of(&[1, 2])), 1);
    assert_eq!(median_distance(&map_of(&[4, 1, 3, 2])), 2);
    assert_eq!(median_distance(&map_of(&[0, 0, 5, 9])), 2);
    assert_eq!(median_distance(&map_of(&[10, 2, 6, 8])), 7);
}

#[test]
fn median_does_not_overflow() {
    assert_eq!(median_distance(&map_of(&[usize::MAX, usize::MAX])), usize::MAX);
    assert_eq!(median_distance(&map_of(&[usize::MAX, usize::MAX - 1])), usize::MAX - 1);
    assert_eq!(median_distance(&map_of(&[usize::MAX, 0])), usize::MAX / 2);
}

#[test]
fn median_matches_the_sorted_values() {
    let hops = [8usize, 3, 5, 3, 9, 1, 1, 7, 2, 6, 4];
    for n in 1..=hops.len() {
        let mut sorted = hops[..n].to_vec();
        sorted.sort();
        let expected =
            if n % 2 == 1 { sorted[n / 2] } else { (sorted[n / 2 - 1] + sorted[n / 2]) / 2 };
        assert_eq!(median_distance(&map_of(&hops[..n])), expected);
    }
}

#[test]
fn median_of_a_chain() {
    let mut graph = Graph::new();
    for node in 0..6u32 {
        graph.add_edge(node, node + 1);
    }
    // distances 0..=6 from 0, and 0..=3 from 3
    assert_eq!(graph.median_shortest_path_length(0), 3);
    assert_eq!(graph.median_shortest_path_length(3), 1);
}

#[test]
fn distribution_counts_nodes_per_distance() {
    let counts = distance_distribution(&map_of(&[0, 1, 1, 2, 2, 2, 5]));
    let expected: HashMap<usize, usize> = [(0, 1), (1, 2), (2, 3), (5, 1)].into_iter().collect();
    assert_eq!(counts, expected);
}

#[test]
fn distribution_of_an_empty_map_is_empty() {
    assert!(distance_distribution(&HashMap::new()).is_empty());
}

#[test]
fn distribution_counts_add_up_to_the_number_of_entries() {
    let distances = map_of(&[4, 4, 0, 1, 7, 7, 7, 2, 4]);
    let counts = distance_distribution(&distances);
    assert_eq!(counts.values().sum::<usize>(), distances.len());
}

#[test]
fn distribution_of_a_traversal_adds_up_to_the_reached_nodes() {
    let mut graph = Graph::new();
    for (from, to) in [(0, 1), (0, 2), (1, 3), (2, 3), (3, 4), (4, 0), (8, 9)] {
        graph.add_edge(from, to);
    }
    let counts = graph.shortest_path_length_distribution(0);
    assert_eq!(counts.values().sum::<usize>(), graph.bfs(0).len());
    assert_eq!(counts.values().sum::<usize>(), 5);
}

#[test]
fn total_adds_up_the_hop_counts() {
    assert_eq!(total_distance(&HashMap::new()), 0);
    assert_eq!(total_distance(&map_of(&[0, 1, 1, 2])), 4);
    assert_eq!(total_distance(&map_of(&[10, 20, 30])), 60);
}

#[test]
fn total_of_a_chain_is_a_triangular_number() {
    let mut graph = Graph::new();
    for node in 0..100u32 {
        graph.add_edge(node, node + 1);
    }
    assert_eq!(graph.total_shortest_path_length(0), 5050);
    assert_eq!(graph.total_shortest_path_length(90), 55);
}

#[test]
fn ascending_distribution_orders_by_distance() {
    let counts: HashMap<usize, usize> = [(7, 1), (0, 1), (3, 12), (1, 4)].into_iter().collect();
    assert_eq!(ascending_distribution(&counts), vec![(0, 1), (1, 4), (3, 12), (7, 1)]);
}

#[test]
fn ascending_distribution_of_nothing_is_empty() {
    assert!(ascending_distribution(&HashMap::new()).is_empty());
}

#[test]
fn ascending_distribution_of_a_traversal() {
    let mut graph = Graph::new();
    for (from, to) in [(0, 1), (0, 2), (1, 3), (2, 3)] {
        graph.add_edge(from, to);
    }
    let counts = graph.shortest_path_length_distribution(0);
    assert_eq!(ascending_distribution(&counts), vec![(0, 1), (1, 2), (2, 1)]);
}

#[test]
fn sort_orders_ascending_and_keeps_repeats() {
    assert_eq!(sort_ascending(&vec![]), Vec::<usize>::new());
    assert_eq!(sort_ascending(&vec![4]), vec![4]);
    assert_eq!(sort_ascending(&vec![2, 1]), vec![1, 2]);
    assert_eq!(sort_ascending(&vec![5, 3, 5, 0, 3, 9, 1]), vec![0, 1, 3, 3, 5, 5, 9]);
}

#[test]
fn sort_agrees_with_the_standard_sort() {
    let mut values: Vec<usize> = Vec::new();
    let mut state: usize = 12345;
    for _ in 0..1000 {
        state = state.wrapping_mul(6364136223846793005).wrapping_add(1442695040888963407);
        values.push((state >> 33) % 500);
    }
    let mut expected = values.clone();
    expected.sort();
    assert_eq!(sort_ascending(&values), expected);
}
