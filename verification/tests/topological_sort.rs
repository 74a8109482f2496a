use feedback_arc_set::graph::hash_table::HashTable;
use feedback_arc_set::ordering::topological_sort::TopologicalSort;

#[test]
fn sorts_by_ascending_indegree() {
    // indegrees: 1 -> 0, 2 -> 1, 3 -> 2, 4 -> 3
    let graph = HashTable::from_edges(&[(1, 2), (1, 3), (2, 3), (1, 4), (2, 4), (3, 4)]);
    assert_eq!(
        TopologicalSort::new(&graph).sort_by_indegree_asc(),
        vec![1, 2, 3, 4]
    );
}

#[test]
fn breaks_ties_by_identifier() {
    // indegrees: 5 -> 1, 6 -> 1, 7 -> 1, 1 -> 0, 9 -> 0
    let graph = HashTable::from_edges(&[(9, 7), (1, 6), (9, 5)]);
    assert_eq!(
        TopologicalSort::new(&graph).sort_by_indegree_asc(),
        vec![1, 9, 5, 6, 7]
    );
}

#[test]
fn takes_indegrees_once_on_a_cyclic_graph() {
    // indegrees: 0 -> 2, 1 -> 1, 2 -> 1, 3 -> 0
    let graph = HashTable::from_edges(&[(0, 1), (1, 2), (2, 0), (3, 0)]);
    assert_eq!(
        TopologicalSort::new(&graph).sort_by_indegree_asc(),
        vec![3, 1, 2, 0]
    );
}

#[test]
fn empty_graph_sorts_to_nothing() {
    let graph = HashTable::new();
    assert!(TopologicalSort::new(&graph).sort_by_indegree_asc().is_empty());
}
