//! The greedy heuristic of Eades, Lin and Smyth, as `petgraph` computes it.
//!
//! The library hands the edges of a graph to `petgraph` with the vertices
//! renumbered by rank, so that the graph that is built there has as many
//! nodes as the graph here has vertices, and names the selected edges by
//! their vertices again.

use crate::graph::hash_table::{Edge, HashTable, VertexId};
use crate::graph::model::{
    edge_seq, edge_set, has_edge, is_cyclic, vertex_seq, well_formed, without_edges, Adjacency,
};
use crate::graph::properties::{
    lemma_edge_endpoints, lemma_edge_seq, lemma_ranked_acyclic, lemma_without_edges,
};
use crate::graph::sequences::{
    lemma_filter_no_duplicates, lemma_filter_through_map, lemma_increasing_bound,
};
use petgraph::visit::EdgeRef;
use vstd::prelude::*;

verus! {

/// The edges that `petgraph::algo::greedy_feedback_arc_set` selects from a
/// directed graph whose edges were added in the order of `edges`.
pub uninterp spec fn greedy_selection(edges: Seq<(u32, u32)>) -> Seq<(u32, u32)>;

/// The test "the source of the edge ranks no lower than its target".
pub open spec fn points_back(rank: spec_fn(u32) -> int) -> spec_fn((u32, u32)) -> bool {
    |e: (u32, u32)| rank(e.0) >= rank(e.1)
}

/// Replaces each endpoint of an edge by its place in `vertices`.
pub open spec fn to_ranks(vertices: Seq<u32>) -> spec_fn((u32, u32)) -> (u32, u32) {
    |e: (u32, u32)| (vertices.index_of(e.0) as u32, vertices.index_of(e.1) as u32)
}

/// Replaces each endpoint of an edge by the vertex at that place of
/// `vertices`.
pub open spec fn from_ranks(vertices: Seq<u32>) -> spec_fn((u32, u32)) -> (u32, u32) {
    |e: (u32, u32)| (vertices[e.0 as int], vertices[e.1 as int])
}

/// The rank of a vertex as `rank` sees the place of the vertex.
pub open spec fn rank_by_place(vertices: Seq<u32>, rank: spec_fn(u32) -> int) -> spec_fn(
    u32,
) -> int {
    |v: u32| rank(vertices.index_of(v) as u32)
}

/// The feedback arc set that the greedy heuristic selects: the selection
/// among the edges by rank, named by their vertices.
pub open spec fn greedy_feedback_arc_set(g: Adjacency) -> Seq<(u32, u32)> {
    greedy_selection(edge_seq(g).map_values(to_ranks(vertex_seq(g)))).map_values(
        from_ranks(vertex_seq(g)),
    )
}

/// Calls `petgraph::algo::greedy_feedback_arc_set` on the directed graph
/// that `Graph::from_edges` builds from `edges`, with `usize` indices, and
/// hands back source and target of each selected edge. Claimed of it: the
/// result is a function of the edge list alone, and it is the edge list
/// filtered by a test of the form "the source ranks no lower than the
/// target", for some ranking of the nodes, in the order of the edge list.
#[verifier::external_body]
fn greedy_selection_of(edges: &Vec<(u32, u32)>) -> (selected: Vec<(u32, u32)>)
    ensures
        selected@ == greedy_selection(edges@),
        exists|rank: spec_fn(u32) -> int| selected@ == edges@.filter(#[trigger] points_back(rank)),
{
    let graph = petgraph::Graph::<(), (), petgraph::Directed, usize>::from_edges(
        edges.iter().map(|e| (e.0 as usize, e.1 as usize)),
    );
    petgraph::algo::greedy_feedback_arc_set(&graph).map(
        |e| (e.source().index() as u32, e.target().index() as u32),
    ).collect()
}

/// The place of `v` in the ascending sequence `vertices`, which holds it.
pub fn rank_of(vertices: &[VertexId], v: VertexId) -> (place: usize)
    requires
        forall|i: int, j: int| 0 <= i < j < vertices@.len() ==> vertices@[i] < vertices@[j],
        vertices@.contains(v),
    ensures
        place < vertices@.len(),
        vertices@[place as int] == v,
        place == vertices@.index_of(v),
        place <= u32::MAX,
{
    let mut low: usize = 0;
    let mut high: usize = vertices.len() - 1;
    while low < high
        invariant
            low <= high < vertices.len(),
            forall|i: int, j: int| 0 <= i < j < vertices@.len() ==> vertices@[i] < vertices@[j],
            exists|k: int| low <= k <= high && vertices@[k] == v,
        decreases high - low,
    {
        let middle = low + (high - low) / 2;
        if vertices[middle] < v {
            low = middle + 1;
        } else {
            high = middle;
        }
    }
    proof {
        lemma_increasing_bound(vertices@, low as int);
        let other = vertices@.index_of(v);
        assert(0 <= other < vertices@.len() && vertices@[other] == v);
        if other < low {
            assert(vertices@[other] < vertices@[low as int]);
        }
        if low < other {
            assert(vertices@[low as int] < vertices@[other]);
        }
    }
    low
}

/// The edges with each endpoint replaced by its place in the ascending
/// sequence `vertices`, which holds every endpoint.
pub fn rank_edges(vertices: &[VertexId], edges: &[Edge]) -> (ranked: Vec<(u32, u32)>)
    requires
        forall|i: int, j: int| 0 <= i < j < vertices@.len() ==> vertices@[i] < vertices@[j],
        forall|i: int|
            0 <= i < edges@.len() ==> vertices@.contains((#[trigger] edges@[i]).0)
                && vertices@.contains(edges@[i].1),
    ensures
        ranked@ == edges@.map_values(to_ranks(vertices@)),
        forall|i: int|
            0 <= i < ranked@.len() ==> (#[trigger] ranked@[i]).0 < vertices@.len() && ranked@[i].1
                < vertices@.len(),
{
    let mut ranked: Vec<(u32, u32)> = Vec::new();
    let mut i: usize = 0;
    while i < edges.len()
        invariant
            i <= edges.len(),
            forall|a: int, b: int| 0 <= a < b < vertices@.len() ==> vertices@[a] < vertices@[b],
            forall|k: int|
                0 <= k < edges@.len() ==> vertices@.contains((#[trigger] edges@[k]).0)
                    && vertices@.contains(edges@[k].1),
            ranked@ == edges@.take(i as int).map_values(to_ranks(vertices@)),
            forall|k: int|
                0 <= k < ranked@.len() ==> (#[trigger] ranked@[k]).0 < vertices@.len()
                    && ranked@[k].1 < vertices@.len(),
        decreases edges.len() - i,
    {
        let e = edges[i];
        assert(vertices@.contains(edges@[i as int].0));
        let source = rank_of(vertices, e.0);
        let target = rank_of(vertices, e.1);
        ranked.push((source as u32, target as u32));
        assert(edges@.take(i + 1) == edges@.take(i as int).push(e));
        assert(ranked@ == edges@.take(i + 1).map_values(to_ranks(vertices@)));
        i += 1;
    }
    assert(edges@.take(i as int) == edges@);
    ranked
}

/// The edges with each endpoint, a place in `vertices`, replaced by the
/// vertex that stands there.
pub fn unrank_edges(vertices: &[VertexId], ranked: &[(u32, u32)]) -> (edges: Vec<Edge>)
    requires
        forall|i: int|
            0 <= i < ranked@.len() ==> (#[trigger] ranked@[i]).0 < vertices@.len() && ranked@[i].1
                < vertices@.len(),
    ensures
        edges@ == ranked@.map_values(from_ranks(vertices@)),
{
    let mut edges: Vec<Edge> = Vec::new();
    let mut i: usize = 0;
    while i < ranked.len()
        invariant
            i <= ranked.len(),
            forall|k: int|
                0 <= k < ranked@.len() ==> (#[trigger] ranked@[k]).0 < vertices@.len()
                    && ranked@[k].1 < vertices@.len(),
            edges@ == ranked@.take(i as int).map_values(from_ranks(vertices@)),
        decreases ranked.len() - i,
    {
        let e = ranked[i];
        assert(ranked@[i as int].0 < vertices@.len());
        edges.push((vertices[e.0 as usize], vertices[e.1 as usize]));
        assert(ranked@.take(i + 1) == ranked@.take(i as int).push(e));
        assert(edges@ == ranked@.take(i + 1).map_values(from_ranks(vertices@)));
        i += 1;
    }
    assert(ranked@.take(i as int) == ranked@);
    edges
}

/// Without the edges of its edge sequence whose source ranks no lower than
/// their target, a graph has no cycle, whatever the ranking.
pub proof fn lemma_selection_breaks_cycles(g: Adjacency, rank: spec_fn(u32) -> int)
    requires
        well_formed(g),
    ensures
        edge_seq(g).filter(points_back(rank)).no_duplicates(),
        edge_seq(g).filter(points_back(rank)).to_set().subset_of(edge_set(g)),
        !is_cyclic(without_edges(g, edge_seq(g).filter(points_back(rank)).to_set())),
{
    let picked = edge_seq(g).filter(points_back(rank));
    lemma_edge_seq(g);
    lemma_filter_no_duplicates(edge_seq(g), points_back(rank));
    assert forall|e: (u32, u32)| picked.to_set().contains(e) implies edge_set(g).contains(e) by {
        assert(picked.contains(e));
        assert(edge_seq(g).to_set().contains(e));
    }
    let rest = without_edges(g, picked.to_set());
    lemma_without_edges(g, picked.to_set());
    assert forall|a: u32, b: u32| #[trigger] has_edge(rest, a, b) implies rank(a) < rank(b) by {
        assert(edge_set(g).contains((a, b)));
        assert(edge_seq(g).to_set().contains((a, b)));
        assert(edge_seq(g).contains((a, b)));
        assert(!picked.contains((a, b)));
    }
    lemma_ranked_acyclic(rest, rank);
}

/// The greedy heuristic.
pub struct GreedyHeuristic {}

impl GreedyHeuristic {
    /// A feedback arc set of the graph, selected greedily: edges of the
    /// graph, none twice, without which the graph has no cycle. The same
    /// graph always gives the same edges in the same order.
    pub fn compute(&self, graph: &HashTable) -> (fas: Vec<Edge>)
        requires
            graph.wf(),
        ensures
            fas@ == greedy_feedback_arc_set(graph@),
            fas@.no_duplicates(),
            fas@.to_set().subset_of(edge_set(graph@)),
            !is_cyclic(without_edges(graph@, fas@.to_set())),
    {
        let ghost g = graph@;
        let vertices = graph.vertices();
        let edges = graph.all_edges();
        proof {
            assert forall|i: int| 0 <= i < edges@.len() implies vertices@.contains(
                (#[trigger] edges@[i]).0,
            ) && vertices@.contains(edges@[i].1) by {
                assert(edges@.to_set().contains(edges@[i]));
                lemma_edge_endpoints(g, edges@[i].0, edges@[i].1);
                assert(vertices@.to_set().contains(edges@[i].0));
                assert(vertices@.to_set().contains(edges@[i].1));
            }
        }
        let ranked = rank_edges(vertices.as_slice(), edges.as_slice());
        let selected = greedy_selection_of(&ranked);
        proof {
            let rank = choose|rank: spec_fn(u32) -> int|
                selected@ == ranked@.filter(#[trigger] points_back(rank));
            assert forall|i: int| 0 <= i < selected@.len() implies (#[trigger] selected@[i]).0
                < vertices@.len() && selected@[i].1 < vertices@.len() by {
                assert(selected@.contains(selected@[i]));
                ranked@.lemma_filter_contains_rev(points_back(rank), selected@[i]);
                let k = choose|k: int| 0 <= k < ranked@.len() && ranked@[k] == selected@[i];
                assert(ranked@[k].0 < vertices@.len());
            }
            assert forall|i: int| 0 <= i < edges@.len() implies from_ranks(vertices@)(
                to_ranks(vertices@)(#[trigger] edges@[i]),
            ) == edges@[i] && points_back(rank)(to_ranks(vertices@)(edges@[i])) == points_back(
                rank_by_place(vertices@, rank),
            )(edges@[i]) by {
                let e = edges@[i];
                let a = vertices@.index_of(e.0);
                let b = vertices@.index_of(e.1);
                assert(vertices@.contains(e.0) && vertices@.contains(e.1));
                assert(0 <= a < vertices@.len() && vertices@[a] == e.0);
                assert(0 <= b < vertices@.len() && vertices@[b] == e.1);
                lemma_increasing_bound(vertices@, a);
                lemma_increasing_bound(vertices@, b);
            }
            lemma_filter_through_map(
                edges@,
                to_ranks(vertices@),
                points_back(rank),
                from_ranks(vertices@),
                points_back(rank_by_place(vertices@, rank)),
            );
            lemma_selection_breaks_cycles(g, rank_by_place(vertices@, rank));
        }
        unrank_edges(vertices.as_slice(), selected.as_slice())
    }
}

} // verus!
