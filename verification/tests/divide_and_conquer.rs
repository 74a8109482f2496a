use feedback_arc_set::fas::divide_and_conquer_by_order_heuristic::{
    collect_leftward_edges, order, subgraph, vertex_with_min_indegree,
    DivideAndConquerByOrderHeuristic,
};
use feedback_arc_set::graph::hash_table::{Edge, HashTable};
use feedback_arc_set::tools::cycle::CycleDetection;
use feedback_arc_set::tools::metis::graph_from_file;
use std::collections::BTreeSet;

fn nineteen_vertices() -> [Edge; 31] {
    [
        (0, 1),
        (0, 7),
        (1, 2),
        (1, 3),
        (2, 4),
        (2, 5),
        (2, 6),
        (3, 7),
        (6, 8),
        (6, 9),
        (7, 9),
        (5, 10),
        (8, 10),
        (9, 10),
        (4, 11),
        (4, 12),
        (12, 11),
        (10, 13),
        (11, 13),
        (10, 14),
        (14, 15),
        (14, 16),
        (16, 15),
        (16, 17),
        (17, 18),
        (12, 18),
        // from here on the edges that close cycles
        (13, 2),
        (7, 1),
        (6, 7),
        (15, 10),
        (15, 13),
    ]
}

/// A description in the exchange format of a graph on `vertices` vertices:
/// a ring through all of them, and further edges drawn from `seed`.
fn cyclic_description(vertices: u32, further: u32, seed: u64) -> Vec<u8> {
    let mut targets: Vec<BTreeSet<u32>> = vec![BTreeSet::new(); vertices as usize];
    for v in 0..vertices {
        targets[v as usize].insert((v + 1) % vertices + 1);
    }
    let mut state = seed;
    for _ in 0..further {
        state = state.wrapping_mul(6364136223846793005).wrapping_add(1442695040888963407);
        let source = ((state >> 33) % vertices as u64) as u32;
        state = state.wrapping_mul(6364136223846793005).wrapping_add(1442695040888963407);
        let target = ((state >> 33) % vertices as u64) as u32 + 1;
        if target != source + 1 {
            targets[source as usize].insert(target);
        }
    }
    let edges: usize = targets.iter().map(|t| t.len()).sum();
    let mut text = format!("{} {}\n", vertices, edges);
    for line in &targets {
        let words: Vec<String> = line.iter().map(|t| format!("{}", t)).collect();
        text.push_str(&words.join(" "));
        text.push('\n');
    }
    text.into_bytes()
}

/// The content that stands for the file of that name: the tests read no
/// file, each name stands for a cyclic graph that is made here.
fn content_of(filename: &str) -> Vec<u8> {
    match filename {
        "test/resources/heuristic/h_001" => cyclic_description(64, 120, 1),
        "test/resources/heuristic/h_025" => cyclic_description(150, 600, 25),
        _ => panic!("no content for {}", filename),
    }
}

fn test_feedback_arc_set(cyclic_graph: &HashTable) {
    let is_cyclic = |graph: &HashTable| -> bool { CycleDetection::new(graph).is_cyclic() };
    assert!(is_cyclic(cyclic_graph));
    let algorithm = DivideAndConquerByOrderHeuristic::new(cyclic_graph);

    let removable_edges = algorithm.feedback_arc_set();
    let remove_edges = |cyclic_graph: &HashTable, edges: &BTreeSet<Edge>| {
        let mut acyclic_graph = cyclic_graph.clone();
        for edge in edges {
            acyclic_graph.remove_edge(*edge);
        }
        acyclic_graph
    };

    let acyclic_graph = remove_edges(cyclic_graph, &removable_edges);

    if is_cyclic(&acyclic_graph) {
        println!("Cyclic Graph: {:?}", cyclic_graph.all_edges());
        println!("Acyclic Graph: {:?}", acyclic_graph.all_edges());

        panic!("Graph still has cycles!");
    }
}

#[test]
fn works_on_simple_clique() {
    let edges = [(0, 1), (1, 2), (2, 0)];
    let clique = HashTable::from_edges(&edges);

    let fas = DivideAndConquerByOrderHeuristic::new(&clique).feedback_arc_set();

    assert_eq!(fas.len(), 1);
    assert!(fas.is_subset(&BTreeSet::from(edges)));
}

#[test]
fn divide_and_conquer_by_order_heuristic_works_on_multiple_cliques() {
    let edges = nineteen_vertices();
    let cyclic_graph = HashTable::from_edges(&edges);

    test_feedback_arc_set(&cyclic_graph);
}

#[test]
fn works_on_h_001() {
    let cyclic_graph = graph_from_file(&content_of("test/resources/heuristic/h_001")).unwrap();
    assert_eq!(cyclic_graph.order(), 64);
    test_feedback_arc_set(&cyclic_graph);
}

#[test]
fn works_on_h_025() {
    let cyclic_graph = graph_from_file(&content_of("test/resources/heuristic/h_025")).unwrap();
    assert_eq!(cyclic_graph.order(), 150);
    test_feedback_arc_set(&cyclic_graph);
}

#[test]
fn triangle_loses_the_edge_back_to_the_first_vertex() {
    let clique = HashTable::from_edges(&[(1, 2), (2, 3), (3, 1)]);
    assert_eq!(order(clique.clone()), vec![1, 2, 3]);
    let fas = DivideAndConquerByOrderHeuristic::new(&clique).feedback_arc_set();
    assert_eq!(fas, BTreeSet::from([(3, 1)]));
    let mut rest = clique.clone();
    rest.remove_edge((3, 1));
    assert!(!rest.is_cyclic());
}

#[test]
fn ordering_of_the_nineteen_vertices() {
    let graph = HashTable::from_edges(&nineteen_vertices());
    assert_eq!(
        order(graph.clone()),
        vec![0, 1, 2, 3, 4, 5, 6, 8, 12, 14, 7, 9, 11, 16, 15, 10, 17, 13, 18]
    );
    let fas = DivideAndConquerByOrderHeuristic::new(&graph).feedback_arc_set();
    assert_eq!(fas, BTreeSet::from([(7, 1), (10, 14), (13, 2)]));
    assert!(fas.is_subset(&BTreeSet::from(nineteen_vertices())));
}

#[test]
fn empty_graph_gives_an_empty_ordering_and_set() {
    let graph = HashTable::new();
    assert!(order(graph.clone()).is_empty());
    assert!(DivideAndConquerByOrderHeuristic::new(&graph)
        .feedback_arc_set()
        .is_empty());
}

#[test]
fn single_vertex_is_its_own_ordering() {
    let graph = HashTable::from_vertices_and_edges(&[5], &[]);
    assert_eq!(order(graph), vec![5]);
}

#[test]
fn graph_without_edges_is_ordered_by_identifier() {
    let graph = HashTable::from_vertices_and_edges(&[9, 3, 6], &[]);
    assert_eq!(order(graph), vec![3, 6, 9]);
}

#[test]
fn branch_goes_by_the_number_of_edges_not_of_vertices() {
    // four vertices and three edges: the vertex of least indegree goes
    // first; a split by indegree would give 1, 3, 2, 4
    let odd = HashTable::from_edges(&[(1, 2), (2, 1), (3, 4)]);
    assert_eq!(order(odd), vec![3, 4, 1, 2]);
    // four vertices and three edges again: a split would give 1, 4, 2, 3
    let apart = HashTable::from_edges(&[(1, 2), (1, 3), (4, 2)]);
    assert_eq!(order(apart), vec![1, 3, 4, 2]);
    // three vertices and two edges: split by indegree into [3] and [1, 2]
    let even = HashTable::from_edges(&[(3, 2), (2, 1)]);
    assert_eq!(order(even), vec![3, 2, 1]);
}

#[test]
fn two_cycle_is_split_into_singletons() {
    let graph = HashTable::from_edges(&[(0, 1), (1, 0)]);
    assert_eq!(order(graph.clone()), vec![0, 1]);
    let fas = DivideAndConquerByOrderHeuristic::new(&graph).feedback_arc_set();
    assert_eq!(fas, BTreeSet::from([(1, 0)]));
}

#[test]
fn acyclic_graphs_lose_no_edge() {
    let dag = HashTable::from_edges(&[(1, 2), (2, 3), (1, 3), (3, 4)]);
    assert!(!dag.is_cyclic());
    assert!(DivideAndConquerByOrderHeuristic::new(&dag)
        .feedback_arc_set()
        .is_empty());
    let complete = HashTable::complete(5);
    assert!(DivideAndConquerByOrderHeuristic::new(&complete)
        .feedback_arc_set()
        .is_empty());
}

#[test]
fn within_the_bound_on_tournaments() {
    for n in 0..9usize {
        let graph = HashTable::complete(n);
        let fas = DivideAndConquerByOrderHeuristic::new(&graph).feedback_arc_set();
        assert!(4 * fas.len() <= n * n.saturating_sub(1));
        assert!(fas.is_empty());
    }
}

#[test]
fn self_loop_stays_in_the_graph() {
    let graph = HashTable::from_edges(&[(1, 1)]);
    let fas = DivideAndConquerByOrderHeuristic::new(&graph).feedback_arc_set();
    assert!(fas.is_empty());
    assert!(graph.is_cyclic());
}

#[test]
fn feedback_arc_set_is_repeatable() {
    let graph = HashTable::from_edges(&nineteen_vertices());
    let first = DivideAndConquerByOrderHeuristic::new(&graph).feedback_arc_set();
    let second = DivideAndConquerByOrderHeuristic::new(&graph).feedback_arc_set();
    assert_eq!(first, second);
}

#[test]
fn leftward_edges_go_by_place_in_the_ordering() {
    let graph = HashTable::from_edges(&[(1, 2), (2, 3), (3, 1), (1, 3)]);
    let forward = collect_leftward_edges(&graph, vec![1, 2, 3]);
    assert_eq!(forward, BTreeSet::from([(3, 1)]));
    let backward = collect_leftward_edges(&graph, vec![3, 2, 1]);
    assert_eq!(backward, BTreeSet::from([(1, 2), (2, 3), (1, 3)]));
    let again = collect_leftward_edges(&graph, vec![3, 2, 1]);
    assert_eq!(backward, again);
    assert!(collect_leftward_edges(&graph, vec![]).is_empty());
}

#[test]
fn subgraph_keeps_isolated_vertices() {
    let graph = HashTable::from_edges(&[(1, 2), (2, 3), (3, 1)]);
    let part = subgraph(&graph, &[1, 3]);
    assert_eq!(part.vertices(), vec![1, 3]);
    assert_eq!(part.all_edges(), vec![(3, 1)]);
}

#[test]
fn least_indegree_goes_to_the_smaller_identifier() {
    let graph = HashTable::from_edges(&[(4, 7), (2, 7), (7, 9)]);
    assert_eq!(vertex_with_min_indegree(&graph), 2);
    let ring = HashTable::from_edges(&[(5, 6), (6, 8), (8, 5)]);
    assert_eq!(vertex_with_min_indegree(&ring), 5);
}
