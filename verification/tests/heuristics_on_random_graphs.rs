use feedback_arc_set::algo::degree_difference::DegreeDifferenceHeuristic;
use feedback_arc_set::algo::greedy_heuristic::GreedyHeuristic;
use feedback_arc_set::fas::divide_and_conquer_by_order_heuristic::DivideAndConquerByOrderHeuristic;
use feedback_arc_set::graph::hash_table::{Edge, HashTable};
use feedback_arc_set::tools::cycle::CycleDetection;

/// The graph on the identifiers below `n` whose edges are drawn from `seed`,
/// about one pair in `one_in`.
fn drawn_graph(n: usize, one_in: u64, seed: u64) -> HashTable {
    let mut state = seed;
    let mut draws = Vec::new();
    for _ in 0..n * n.saturating_sub(1) {
        state = state.wrapping_mul(6364136223846793005).wrapping_add(1442695040888963407);
        draws.push((state >> 33) % one_in == 0);
    }
    HashTable::random(n, &draws)
}

fn without(graph: &HashTable, edges: &[Edge]) -> HashTable {
    let mut rest = graph.clone();
    for edge in edges {
        rest.remove_edge(*edge);
    }
    rest
}

fn check_selection(graph: &HashTable, selected: &[Edge]) {
    let all = graph.all_edges();
    for edge in selected {
        assert!(all.contains(edge));
    }
    let rest = without(graph, selected);
    assert_eq!(rest.vertices(), graph.vertices());
    assert_eq!(rest.edge_count(), graph.edge_count() - selected.len());
    assert!(!CycleDetection::new(&rest).is_cyclic());
}

#[test]
fn every_heuristic_breaks_every_cycle_of_drawn_graphs() {
    for n in 0..12usize {
        for seed in 0..6u64 {
            for one_in in [2u64, 4, 7] {
                let graph = drawn_graph(n, one_in, seed * 31 + n as u64);

                let greedy = GreedyHeuristic {}.compute(&graph);
                check_selection(&graph, &greedy);

                let by_order: Vec<Edge> = DivideAndConquerByOrderHeuristic::new(&graph)
                    .feedback_arc_set()
                    .into_iter()
                    .collect();
                check_selection(&graph, &by_order);

                let by_degree: Vec<Edge> = DegreeDifferenceHeuristic {}
                    .compute(&graph)
                    .into_iter()
                    .collect();
                check_selection(&graph, &by_degree);

                if !graph.is_cyclic() {
                    assert!(greedy.is_empty());
                }
            }
        }
    }
}

#[test]
fn ordering_does_not_depend_on_the_order_of_insertion() {
    let forward = HashTable::from_edges(&[(1, 2), (1, 3), (2, 3), (3, 1), (3, 4), (4, 2)]);
    let backward = HashTable::from_edges(&[(4, 2), (3, 4), (3, 1), (2, 3), (1, 3), (1, 2)]);
    assert_ne!(forward.neighborhood(&1), backward.neighborhood(&1));
    assert_eq!(
        DivideAndConquerByOrderHeuristic::new(&forward).feedback_arc_set(),
        DivideAndConquerByOrderHeuristic::new(&backward).feedback_arc_set()
    );
    assert_eq!(
        DegreeDifferenceHeuristic {}.compute(&forward),
        DegreeDifferenceHeuristic {}.compute(&backward)
    );
}
