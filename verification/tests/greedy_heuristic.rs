use feedback_arc_set::algo::greedy_heuristic::{rank_edges, rank_of, unrank_edges, GreedyHeuristic};
use feedback_arc_set::graph::hash_table::{Edge, HashTable};
use feedback_arc_set::tools::cycle::CycleDetection;

fn nineteen_vertices() -> [Edge; 31] {
    [
        (0, 1),
        (0, 7),
        (1, 2),
        (1, 3),
        (2, 4),
        (2, 5),
        (2, 6),
        (3, 7),
        (6, 8),
        (6, 9),
        (7, 9),
        (5, 10),
        (8, 10),
        (9, 10),
        (4, 11),
        (4, 12),
        (12, 11),
        (10, 13),
        (11, 13),
        (10, 14),
        (14, 15),
        (14, 16),
        (16, 15),
        (16, 17),
        (17, 18),
        (12, 18),
        // from here on the edges that close cycles
        (13, 2),
        (7, 1),
        (6, 7),
        (15, 10),
        (15, 13),
    ]
}

fn remove_edges(cyclic_graph: &HashTable, removable_edges: &[Edge]) -> HashTable {
    let mut acyclic_graph = cyclic_graph.clone();
    for edge in removable_edges {
        acyclic_graph.remove_edge(*edge);
    }
    acyclic_graph
}

fn test_feedback_arc_set(cyclic_graph: &HashTable, expected_set_count: usize) {
    let removable_edges = GreedyHeuristic {}.compute(cyclic_graph);
    let acyclic_graph = remove_edges(cyclic_graph, &removable_edges);

    assert_eq!(removable_edges.len(), expected_set_count);
    assert!(!CycleDetection::new(&acyclic_graph).is_cyclic());
}

#[test]
fn deterministic_on_simple_clique() {
    let clique = HashTable::from_edges(&[(1, 2), (2, 3), (3, 1)]);

    let edges = GreedyHeuristic {}.compute(&clique);

    assert_eq!(edges.len(), 1);
    assert_eq!(edges.get(0).unwrap().0, 2);
    assert_eq!(edges.get(0).unwrap().1, 3);
}

#[test]
fn greedy_heuristic_works_on_multiple_cliques() {
    let cyclic_graph = HashTable::from_edges(&nineteen_vertices());

    test_feedback_arc_set(&cyclic_graph, 4);
}

#[test]
fn greedy_selection_is_a_subset_of_the_edges() {
    let edges = nineteen_vertices();
    let graph = HashTable::from_edges(&edges);
    let selected = GreedyHeuristic {}.compute(&graph);
    for edge in selected {
        assert!(edges.contains(&edge));
    }
}

#[test]
fn greedy_selection_is_repeatable() {
    let graph = HashTable::from_edges(&nineteen_vertices());
    let first = GreedyHeuristic {}.compute(&graph);
    let second = GreedyHeuristic {}.compute(&graph);
    assert_eq!(first, second);
}

#[test]
fn greedy_selection_names_vertices_not_ranks() {
    // the ranks of 100, 200, 300 are 0, 1, 2: an edge of ranks would fail here
    let graph = HashTable::from_edges(&[(100, 200), (200, 300), (300, 100)]);
    let edges = GreedyHeuristic {}.compute(&graph);
    assert_eq!(edges, vec![(200, 300)]);
    assert!(!CycleDetection::new(&remove_edges(&graph, &edges)).is_cyclic());
}

#[test]
fn greedy_selection_takes_self_loops() {
    let graph = HashTable::from_edges(&[(1, 1), (1, 2)]);
    let edges = GreedyHeuristic {}.compute(&graph);
    assert_eq!(edges, vec![(1, 1)]);
}

#[test]
fn greedy_selection_is_empty_without_cycles() {
    assert!(GreedyHeuristic {}.compute(&HashTable::new()).is_empty());
    assert!(GreedyHeuristic {}.compute(&HashTable::complete(5)).is_empty());
    let dag = HashTable::from_edges(&nineteen_vertices()[..26]);
    assert!(!dag.is_cyclic());
    assert!(GreedyHeuristic {}.compute(&dag).is_empty());
}

#[test]
fn greedy_selection_within_the_bound_on_tournaments() {
    for n in 0..9usize {
        let fas = GreedyHeuristic {}.compute(&HashTable::complete(n));
        assert!(4 * fas.len() <= n * n.saturating_sub(1));
    }
}

#[test]
fn ranks_are_places_in_the_ascending_vertices() {
    let vertices = [10, 20, 40, 70];
    assert_eq!(rank_of(&vertices, 10), 0);
    assert_eq!(rank_of(&vertices, 40), 2);
    assert_eq!(rank_of(&vertices, 70), 3);
    assert_eq!(
        rank_edges(&vertices, &[(70, 10), (20, 40), (40, 40)]),
        vec![(3, 0), (1, 2), (2, 2)]
    );
    assert_eq!(
        unrank_edges(&vertices, &[(3, 0), (1, 2), (2, 2)]),
        vec![(70, 10), (20, 40), (40, 40)]
    );
}
