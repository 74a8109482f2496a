use feedback_arc_set::graph::hash_table::HashTable;
use feedback_arc_set::tools::cycle::CycleDetection;

#[test]
fn empty_graph_has_no_cycle() {
    let graph = HashTable::new();
    assert!(!CycleDetection::new(&graph).is_cyclic());
}

#[test]
fn triangle_is_cyclic() {
    let graph = HashTable::from_edges(&[(1, 2), (2, 3), (3, 1)]);
    assert!(CycleDetection::new(&graph).is_cyclic());
}

#[test]
fn path_is_acyclic() {
    let graph = HashTable::from_edges(&[(1, 2), (2, 3), (3, 4)]);
    assert!(!CycleDetection::new(&graph).is_cyclic());
}

#[test]
fn diamond_is_acyclic() {
    // two ways from 1 to 4: a finished vertex is met again, which is no cycle
    let graph = HashTable::from_edges(&[(1, 2), (1, 3), (2, 4), (3, 4)]);
    assert!(!CycleDetection::new(&graph).is_cyclic());
}

#[test]
fn cycle_in_a_later_component_is_found() {
    let graph = HashTable::from_edges(&[(1, 2), (2, 3), (10, 11), (11, 12), (12, 10)]);
    assert!(CycleDetection::new(&graph).is_cyclic());
}

#[test]
fn cycle_behind_a_tail_is_found() {
    let graph = HashTable::from_edges(&[(9, 8), (8, 7), (7, 6), (6, 8)]);
    assert!(CycleDetection::new(&graph).is_cyclic());
}

#[test]
fn self_loop_is_a_cycle() {
    let graph = HashTable::from_edges(&[(1, 2), (2, 2)]);
    assert!(CycleDetection::new(&graph).is_cyclic());
}

#[test]
fn two_cycle_is_a_cycle() {
    let graph = HashTable::from_edges(&[(1, 2), (2, 1)]);
    assert!(CycleDetection::new(&graph).is_cyclic());
    assert!(graph.is_cyclic());
}

#[test]
fn complete_graphs_are_acyclic() {
    for n in 0..8 {
        assert!(!HashTable::complete(n).is_cyclic());
    }
}
