use feedback_arc_set::graph::hash_table::{Direction, Edge, HashTable, VertexId};
use std::collections::{BTreeSet, HashSet};

fn graph_from_wikipedia_scc() -> HashTable {
    HashTable::from_edges(&[
        (1, 2),
        (2, 3),
        (2, 5),
        (2, 6),
        (3, 4),
        (3, 7),
        (4, 3),
        (4, 8),
        (5, 1),
        (5, 6),
        (6, 7),
        (7, 6),
        (8, 4),
        (8, 7),
    ])
}

#[test]
fn construct_graph_counts_vertices() {
    let mut empty_graph = HashTable::new();
    assert_eq!(empty_graph.order(), 0);

    empty_graph.add_edge((2, 3));
    assert_eq!(empty_graph.order(), 2);
}

#[test]
fn add_edges() {
    let mut graph = HashTable::new();
    for u in 0..5 {
        for v in (u + 1)..5 {
            graph.add_edge((u, v));
            graph.add_edge((v, u));
        }
    }

    for u in 0..5 {
        assert_eq!(graph.degree(u), 4);
    }

    for u in 0..5 {
        for v in (u + 1)..5 {
            assert!(graph.has_edge(u, v));
        }
    }

    for u in 0..5 {
        assert!(!graph.has_edge(u, u));
    }
}

#[test]
fn neighborhood() {
    let mut graph = HashTable::new();

    let to_add = vec![3, 4, 1, 1, 4];
    let u = 2;
    for v in &to_add {
        graph.add_edge((u, *v));
    }

    let mut added: Vec<_> = graph.neighborhood(&u).to_vec();
    added.sort_unstable();

    assert_eq!(added, vec![1, 3, 4]);
}

#[test]
fn from_graph() {
    let graph = graph_from_wikipedia_scc();
    let vertices_to_keep = &[1, 2, 5, 8];
    let subgraph = HashTable::from_graph(&graph, vertices_to_keep);

    let vertices = HashSet::<VertexId>::from_iter(subgraph.vertices());
    let vertices2 = HashSet::from(*vertices_to_keep);
    assert_eq!(vertices, vertices2);
}

#[test]
fn from_graph_keeps_the_edges_between_kept_vertices() {
    let graph = graph_from_wikipedia_scc();
    let subgraph = HashTable::from_graph(&graph, &[1, 2, 5, 8, 9]);

    assert_eq!(subgraph.vertices(), vec![1, 2, 5, 8, 9]);
    assert_eq!(subgraph.all_edges(), vec![(1, 2), (2, 5), (5, 1)]);
    assert_eq!(subgraph.degree(8), 0);
    assert_eq!(subgraph.degree(9), 0);
}

#[test]
fn neighborhood_keeps_the_order_of_insertion() {
    let mut graph = HashTable::new();
    for v in [3, 4, 1, 1, 4] {
        graph.add_edge((2, v));
    }
    assert_eq!(graph.neighborhood(&2).to_vec(), vec![3, 4, 1]);
    assert!(graph.neighborhood(&1).is_empty());
    assert!(graph.neighborhood(&77).is_empty());
}

#[test]
fn add_edge_is_idempotent_and_creates_endpoints() {
    let mut graph = HashTable::new();
    graph.add_edge((7, 9));
    graph.add_edge((7, 9));
    assert_eq!(graph.vertices(), vec![7, 9]);
    assert_eq!(graph.edge_count(), 1);
    assert_eq!(graph.degree(7), 1);
    assert_eq!(graph.degree(9), 0);
    assert!(graph.has_edge(7, 9));
    assert!(!graph.has_edge(9, 7));
}

#[test]
fn self_loops_are_kept() {
    let mut graph = HashTable::new();
    graph.add_edge((4, 4));
    assert_eq!(graph.vertices(), vec![4]);
    assert_eq!(graph.all_edges(), vec![(4, 4)]);
    assert!(graph.is_cyclic());
}

#[test]
fn from_edges_holds_the_edges_and_their_endpoints() {
    let graph = HashTable::from_edges(&[(5, 1), (1, 3), (5, 1), (3, 5)]);
    assert_eq!(graph.vertices(), vec![1, 3, 5]);
    assert_eq!(graph.all_edges(), vec![(1, 3), (3, 5), (5, 1)]);
    assert_eq!(graph.order(), 3);
    assert_eq!(graph.edge_count(), 3);
}

#[test]
fn from_vertices_and_edges_keeps_isolated_vertices() {
    let graph = HashTable::from_vertices_and_edges(&[8, 2, 8], &[(2, 3)]);
    assert_eq!(graph.vertices(), vec![2, 3, 8]);
    assert_eq!(graph.all_edges(), vec![(2, 3)]);
    assert_eq!(graph.degree(8), 0);
}

#[test]
fn remove_vertex_cascades_to_its_edges() {
    let mut graph = graph_from_wikipedia_scc();
    graph.remove_vertex(3);
    assert_eq!(graph.vertices(), vec![1, 2, 4, 5, 6, 7, 8]);
    assert!(!graph.has_edge(2, 3));
    assert!(!graph.has_edge(4, 3));
    assert!(graph.has_edge(4, 8));
    assert_eq!(graph.edge_count(), 10);
    assert_eq!(graph.neighborhood(&2).to_vec(), vec![5, 6]);
}

#[test]
fn remove_vertex_of_unknown_vertex_changes_nothing() {
    let mut graph = graph_from_wikipedia_scc();
    graph.remove_vertex(99);
    assert_eq!(graph.order(), 8);
    assert_eq!(graph.edge_count(), 14);
    assert_eq!(graph.all_edges(), graph_from_wikipedia_scc().all_edges());
}

#[test]
fn remove_edge_keeps_the_vertices() {
    let mut graph = HashTable::from_edges(&[(1, 2), (2, 1)]);
    graph.remove_edge((1, 2));
    assert_eq!(graph.vertices(), vec![1, 2]);
    assert_eq!(graph.all_edges(), vec![(2, 1)]);
    graph.remove_edge((1, 2));
    graph.remove_edge((9, 9));
    assert_eq!(graph.all_edges(), vec![(2, 1)]);
}

#[test]
fn edges_by_direction() {
    let graph = graph_from_wikipedia_scc();
    assert_eq!(
        graph.edges(2, Direction::Outbound),
        vec![(2, 3), (2, 5), (2, 6)]
    );
    assert_eq!(
        graph.edges(7, Direction::Inbound),
        vec![(3, 7), (6, 7), (8, 7)]
    );
    assert!(graph.edges(42, Direction::Inbound).is_empty());
}

#[test]
fn all_edges_by_source_then_by_insertion() {
    let graph = HashTable::from_edges(&[(3, 1), (1, 9), (1, 2), (3, 0)]);
    assert_eq!(graph.all_edges(), vec![(1, 9), (1, 2), (3, 1), (3, 0)]);
    assert_eq!(graph.edge_count(), 4);
}

#[test]
fn complete_graph_has_every_ascending_edge() {
    let graph = HashTable::complete(5);
    assert_eq!(graph.order(), 5);
    assert_eq!(graph.edge_count(), 10);
    for u in 0..5 {
        for v in 0..5 {
            assert_eq!(graph.has_edge(u, v), u < v);
        }
    }
    assert_eq!(graph.neighborhood(&1).to_vec(), vec![2, 3, 4]);
    assert!(!graph.is_cyclic());
}

#[test]
fn complete_graph_on_fewer_than_two_identifiers_is_empty() {
    assert_eq!(HashTable::complete(0).order(), 0);
    assert_eq!(HashTable::complete(1).order(), 0);
    assert_eq!(HashTable::complete(2).all_edges(), vec![(0, 1)]);
}

#[test]
fn random_graph_follows_the_draws() {
    // the pairs of 3 identifiers: (0,1) (0,2) (1,0) (1,2) (2,0) (2,1)
    let graph = HashTable::random(3, &[true, false, false, true, true, false]);
    assert_eq!(graph.all_edges(), vec![(0, 1), (1, 2), (2, 0)]);
    assert_eq!(graph.vertices(), vec![0, 1, 2]);

    let sparse = HashTable::random(3, &[false, false, false, false, false, true]);
    assert_eq!(sparse.all_edges(), vec![(2, 1)]);
    assert_eq!(sparse.vertices(), vec![1, 2]);

    assert_eq!(HashTable::random(0, &[]).order(), 0);
    assert_eq!(HashTable::random(1, &[]).order(), 0);
    assert_eq!(HashTable::random(4, &[true; 12]).edge_count(), 12);
}

#[test]
fn vertex_at_follows_the_ascending_order() {
    let graph = HashTable::from_edges(&[(30, 10), (10, 20)]);
    assert_eq!(graph.vertex_at(0), 10);
    assert_eq!(graph.vertex_at(1), 20);
    assert_eq!(graph.vertex_at(2), 30);
}

#[test]
fn random_vertex_is_a_vertex() {
    let graph = HashTable::from_edges(&[(30, 10), (10, 20)]);
    for _ in 0..50 {
        let v = graph.random_vertex();
        assert!(graph.vertices().contains(&v));
    }
}

#[test]
fn edges_from_to_crosses_the_partitions() {
    let graph = graph_from_wikipedia_scc();
    let from = HashSet::from([1, 2, 5, 77]);
    let to = HashSet::from([3, 6, 1]);
    let crossing = graph.edges_from_to(&from, &to);
    let expected: BTreeSet<Edge> = BTreeSet::from([(2, 3), (2, 6), (5, 1), (5, 6)]);
    assert_eq!(crossing, expected);
}

#[test]
fn clone_is_independent() {
    let graph = HashTable::from_edges(&[(1, 2)]);
    let mut copy = graph.clone();
    copy.add_edge((2, 1));
    assert_eq!(graph.edge_count(), 1);
    assert_eq!(copy.edge_count(), 2);
}
