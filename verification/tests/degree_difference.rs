use feedback_arc_set::algo::degree_difference::{
    order_by_degree_difference, vertex_with_max_degree_difference, DegreeDifferenceHeuristic,
};
use feedback_arc_set::graph::hash_table::{Edge, HashTable};
use std::collections::BTreeSet;

fn nineteen_vertices() -> [Edge; 31] {
    [
        (0, 1),
        (0, 7),
        (1, 2),
        (1, 3),
        (2, 4),
        (2, 5),
        (2, 6),
        (3, 7),
        (6, 8),
        (6, 9),
        (7, 9),
        (5, 10),
        (8, 10),
        (9, 10),
        (4, 11),
        (4, 12),
        (12, 11),
        (10, 13),
        (11, 13),
        (10, 14),
        (14, 15),
        (14, 16),
        (16, 15),
        (16, 17),
        (17, 18),
        (12, 18),
        // from here on the edges that close cycles
        (13, 2),
        (7, 1),
        (6, 7),
        (15, 10),
        (15, 13),
    ]
}

fn without(graph: &HashTable, edges: &BTreeSet<Edge>) -> HashTable {
    let mut rest = graph.clone();
    for edge in edges {
        rest.remove_edge(*edge);
    }
    rest
}

#[test]
fn triangle_loses_exactly_one_edge() {
    let edges = [(1, 2), (2, 3), (3, 1)];
    let graph = HashTable::from_edges(&edges);
    assert_eq!(order_by_degree_difference(graph.clone()), vec![1, 2, 3]);
    let fas = DegreeDifferenceHeuristic {}.compute(&graph);
    assert_eq!(fas, BTreeSet::from([(3, 1)]));
    assert!(fas.is_subset(&BTreeSet::from(edges)));
    assert!(!without(&graph, &fas).is_cyclic());
}

#[test]
fn nineteen_vertices_lose_four_edges() {
    let graph = HashTable::from_edges(&nineteen_vertices());
    assert!(graph.is_cyclic());
    assert_eq!(
        order_by_degree_difference(graph.clone()),
        vec![0, 6, 1, 2, 4, 12, 3, 5, 7, 8, 9, 10, 14, 16, 11, 15, 17, 13, 18]
    );
    let fas = DegreeDifferenceHeuristic {}.compute(&graph);
    assert_eq!(fas.len(), 4);
    assert_eq!(fas, BTreeSet::from([(2, 6), (7, 1), (13, 2), (15, 10)]));
    assert!(fas.is_subset(&BTreeSet::from(nineteen_vertices())));
    assert!(!without(&graph, &fas).is_cyclic());
}

#[test]
fn largest_difference_goes_first_and_ties_go_to_the_smaller_identifier() {
    // differences: 1 -> 0, 2 -> -1, 3 -> 1, 5 -> 0
    let graph = HashTable::from_edges(&[(5, 1), (5, 2), (1, 5), (2, 3), (3, 2), (3, 5)]);
    assert_eq!(vertex_with_max_degree_difference(&graph), 3);
    assert_eq!(order_by_degree_difference(graph.clone()), vec![3, 5, 1, 2]);
    let fas = DegreeDifferenceHeuristic {}.compute(&graph);
    assert_eq!(fas, BTreeSet::from([(1, 5), (2, 3)]));
    let ring = HashTable::from_edges(&[(7, 8), (8, 9), (9, 7)]);
    assert_eq!(vertex_with_max_degree_difference(&ring), 7);
}

#[test]
fn graphs_without_cycles_lose_no_edge() {
    assert!(DegreeDifferenceHeuristic {}
        .compute(&HashTable::new())
        .is_empty());
    assert!(order_by_degree_difference(HashTable::new()).is_empty());
    let dag = HashTable::from_edges(&nineteen_vertices()[..26]);
    assert!(!dag.is_cyclic());
    assert!(DegreeDifferenceHeuristic {}.compute(&dag).is_empty());
    assert!(DegreeDifferenceHeuristic {}
        .compute(&HashTable::complete(5))
        .is_empty());
}

#[test]
fn tournaments_are_ordered_by_identifier() {
    for n in 0..9usize {
        let graph = HashTable::complete(n);
        assert_eq!(order_by_degree_difference(graph.clone()), graph.vertices());
        let fas = DegreeDifferenceHeuristic {}.compute(&graph);
        assert!(4 * fas.len() <= n * n.saturating_sub(1));
    }
}

#[test]
fn selection_by_degree_difference_is_repeatable() {
    let graph = HashTable::from_edges(&nineteen_vertices());
    let first = DegreeDifferenceHeuristic {}.compute(&graph);
    let second = DegreeDifferenceHeuristic {}.compute(&graph);
    assert_eq!(first, second);
}

#[test]
fn self_loop_is_no_leftward_edge() {
    let graph = HashTable::from_edges(&[(1, 1), (1, 2), (2, 1)]);
    let fas = DegreeDifferenceHeuristic {}.compute(&graph);
    assert_eq!(fas, BTreeSet::from([(2, 1)]));
    assert!(without(&graph, &fas).is_cyclic());
}
