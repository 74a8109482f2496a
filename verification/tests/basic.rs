use feedback_arc_set::graph::hash_table::HashTable;

#[test]
fn it_works() {
    let result = 2 + 2;
    assert_eq!(result, 4);
}

#[test]
fn new_graph_is_empty() {
    let graph = HashTable::new();
    assert_eq!(graph.order(), 0);
    assert_eq!(graph.edge_count(), 0);
    assert!(graph.vertices().is_empty());
    assert!(graph.all_edges().is_empty());
    assert!(!graph.is_cyclic());
}
