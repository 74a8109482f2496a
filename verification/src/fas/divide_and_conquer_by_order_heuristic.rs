//! The divide-and-conquer heuristic of Eades, Smyth and Lin: order the
//! vertices, then take every edge that points leftward in the ordering.

use crate::fas::ordering_model::{
    appears_before, esl_feedback_arc_set, esl_order, leftward_edges,
    lemma_esl_feedback_arc_set_and_loops, lemma_esl_steps, lemma_indegree_order,
};
use crate::graph::hash_table::{Direction, Edge, HashTable, VertexId};
use crate::graph::model::{
    edge_set, has_edge, indegree, indegree_leq, indegree_order, induced, is_cyclic, without_edges,
    Adjacency,
};
use crate::graph::properties::lemma_in_edges_len;
use crate::ordering::topological_sort::TopologicalSort;
use std::collections::BTreeSet;
use vstd::prelude::*;

verus! {

/// The heuristic for one graph.
pub struct DivideAndConquerByOrderHeuristic<'a> {
    graph: &'a HashTable,
}

impl<'a> DivideAndConquerByOrderHeuristic<'a> {
    /// The graph that the heuristic works on.
    pub closed spec fn graph(&self) -> HashTable {
        *self.graph
    }

    /// The heuristic for `graph`.
    pub fn new(graph: &'a HashTable) -> (heuristic: Self)
        ensures
            heuristic.graph() == *graph,
    {
        DivideAndConquerByOrderHeuristic { graph }
    }

    /// The edges that point leftward in the ordering of the graph. They are
    /// edges of the graph, and the same graph always gives the same set.
    /// Without them the graph has no cycle, unless it has an edge from a
    /// vertex to itself: such an edge points nowhere and stays.
    pub fn feedback_arc_set(&self) -> (fas: BTreeSet<Edge>)
        requires
            self.graph().wf(),
        ensures
            fas@ == esl_feedback_arc_set(self.graph()@),
            fas@.subset_of(edge_set(self.graph()@)),
            is_cyclic(without_edges(self.graph()@, fas@)) <==> exists|v: u32|
                has_edge(self.graph()@, v, v),
    {
        let ordering = order(self.graph.clone());
        proof {
            lemma_esl_feedback_arc_set_and_loops(self.graph@);
        }
        collect_leftward_edges(self.graph, ordering)
    }
}

/// Whether `w` stands within the first `n` places of `s`.
spec fn stands_within(s: Seq<u32>, n: int, w: u32) -> bool {
    exists|i: int| 0 <= i < n && s[i] == w
}

/// Whether `a` stands at an earlier place than `b` within the first `n`
/// places of `s`.
spec fn appears_before_within(s: Seq<u32>, n: int, a: u32, b: u32) -> bool {
    exists|i: int, j: int| 0 <= i < j < n && s[i] == a && s[j] == b
}

/// The edges of `g` whose source stands within the first `n` places of `s`
/// and whose target appears before it.
spec fn leftward_within(g: Adjacency, s: Seq<u32>, n: int) -> Set<(u32, u32)> {
    Set::new(|e: (u32, u32)| has_edge(g, e.0, e.1) && appears_before_within(s, n, e.1, e.0))
}

/// The edges of the graph whose target appears before their source in
/// `ordering`.
pub fn collect_leftward_edges(graph: &HashTable, ordering: Vec<VertexId>) -> (leftward: BTreeSet<
    Edge,
>)
    requires
        graph.wf(),
    ensures
        leftward@ == leftward_edges(graph@, ordering@),
        leftward@.subset_of(edge_set(graph@)),
{
    let ghost g = graph@;
    let ghost s = ordering@;
    let mut picked: BTreeSet<Edge> = BTreeSet::new();
    let mut seen: BTreeSet<VertexId> = BTreeSet::new();
    let mut at: usize = 0;
    assert(picked@ =~= leftward_within(g, s, 0));
    while at < ordering.len()
        invariant
            at <= ordering.len(),
            g == graph@,
            s == ordering@,
            forall|w: u32| #[trigger]
                seen@.contains(w) <==> exists|i: int| 0 <= i < at && s[i] == w,
            picked@ == leftward_within(g, s, at as int),
        decreases ordering.len() - at,
    {
        let v = ordering[at];
        let list = graph.neighborhood(&v);
        let ghost found = picked@;
        let mut k: usize = 0;
        while k < list.len()
            invariant
                k <= list.len(),
                at < ordering.len(),
                g == graph@,
                s == ordering@,
                v == s[at as int],
                list@ == (if g.contains_key(v) {
                    g[v]
                } else {
                    Seq::empty()
                }),
                found == leftward_within(g, s, at as int),
                forall|w: u32| #[trigger]
                    seen@.contains(w) <==> exists|i: int| 0 <= i < at && s[i] == w,
                forall|e: (u32, u32)| #[trigger]
                    picked@.contains(e) <==> found.contains(e) || (e.0 == v
                        && seen@.contains(e.1) && exists|m: int|
                        0 <= m < k && list@[m] == e.1),
            decreases list.len() - k,
        {
            let w = list[k];
            if seen.contains(&w) {
                picked.insert((v, w));
            }
            k += 1;
        }
        seen.insert(v);
        proof {
            assert forall|e: (u32, u32)|
                picked@.contains(e) <==> leftward_within(g, s, at + 1).contains(e) by {
                if found.contains(e) {
                    let (i, j) = choose|i: int, j: int|
                        0 <= i < j < at && s[i] == e.1 && s[j] == e.0;
                    assert(0 <= i < j < at + 1 && s[i] == e.1 && s[j] == e.0);
                }
                if e.0 == v && seen@.contains(e.1) && exists|m: int|
                    0 <= m < k && list@[m] == e.1 {
                    if stands_within(s, at as int, e.1) {
                        let i = choose|i: int| 0 <= i < at && s[i] == e.1;
                        assert(0 <= i < at < at + 1 && s[i] == e.1 && s[at as int] == e.0);
                    }
                }
                if leftward_within(g, s, at + 1).contains(e) {
                    let (i, j) = choose|i: int, j: int|
                        0 <= i < j < at + 1 && s[i] == e.1 && s[j] == e.0;
                    if j < at {
                        assert(appears_before_within(s, at as int, e.1, e.0));
                    } else {
                        assert(e.0 == v);
                        assert(stands_within(s, at as int, e.1));
                        let m = choose|m: int| 0 <= m < g[v].len() && g[v][m] == e.1;
                        assert(list@[m] == e.1);
                    }
                }
            }
            assert(picked@ =~= leftward_within(g, s, at + 1));
        }
        at += 1;
    }
    proof {
        assert forall|e: (u32, u32)|
            leftward_within(g, s, at as int).contains(e) <==> leftward_edges(g, s).contains(
                e,
            ) by {
            if appears_before_within(s, at as int, e.1, e.0) {
                let (i, j) = choose|i: int, j: int| 0 <= i < j < at && s[i] == e.1 && s[j] == e.0;
                assert(0 <= i < j < s.len() && s[i] == e.1 && s[j] == e.0);
            }
            if appears_before(s, e.1, e.0) {
                let (i, j) = choose|i: int, j: int|
                    0 <= i < j < s.len() && s[i] == e.1 && s[j] == e.0;
                assert(0 <= i < j < at && s[i] == e.1 && s[j] == e.0);
            }
        }
        assert(picked@ =~= leftward_edges(g, s));
    }
    picked
}

/// The vertices in the ordering of Eades, Smyth and Lin.
pub fn order(g: HashTable) -> (ordering: Vec<VertexId>)
    requires
        g.wf(),
    ensures
        ordering@ == esl_order(g@),
    decreases g@.dom().len(),
{
    let mut g = g;
    let ghost model = g@;
    let edge_count = g.edge_total();
    if edge_count == 0 {
        g.vertices()
    } else if edge_count % 2 == 1 {
        proof {
            lemma_esl_steps(model);
        }
        let v = vertex_with_min_indegree(&g);
        g.remove_vertex(v);
        let mut ordering = order(g);
        ordering.insert(0, v);
        assert(ordering@ == seq![v] + esl_order(g@));
        ordering
    } else {
        proof {
            lemma_esl_steps(model);
        }
        let sorted = TopologicalSort::new(&g).sort_by_indegree_asc();
        let (low, high) = sorted.as_slice().split_at(sorted.len() / 2);
        let g1 = subgraph(&g, low);
        let g2 = subgraph(&g, high);
        let mut ordering = order(g1);
        let mut second = order(g2);
        ordering.append(&mut second);
        ordering
    }
}

/// The subgraph that `vertices_to_keep` induces: those vertices and the
/// edges of `graph` between them.
pub fn subgraph(graph: &HashTable, vertices_to_keep: &[VertexId]) -> (part: HashTable)
    requires
        graph.wf(),
    ensures
        part@ == induced(graph@, vertices_to_keep@.to_set()),
        part.wf(),
{
    HashTable::from_graph(graph, vertices_to_keep)
}

/// The vertex of least indegree, and among several the one of smallest
/// identifier. The graph must have a vertex.
pub fn vertex_with_min_indegree(graph: &HashTable) -> (least: VertexId)
    requires
        graph.wf(),
        graph@.dom().len() > 0,
    ensures
        least == indegree_order(graph@).first(),
        graph@.contains_key(least),
        forall|v: u32| #[trigger]
            graph@.contains_key(v) ==> indegree_leq(graph@)(least, v),
{
    let ghost g = graph@;
    let vertices = graph.vertices();
    assert(vertices.len() > 0);
    let mut least = vertices[0];
    let mut least_degree = graph.edges(least, Direction::Inbound).len();
    proof {
        lemma_in_edges_len(g, least);
    }
    let mut i: usize = 1;
    while i < vertices.len()
        invariant
            1 <= i <= vertices.len(),
            g == graph@,
            graph.wf(),
            forall|a: int, b: int| 0 <= a < b < vertices@.len() ==> vertices@[a] < vertices@[b],
            least_degree == indegree(g, least),
            exists|k: int| 0 <= k < i && vertices@[k] == least,
            forall|j: int| 0 <= j < i ==> indegree_leq(g)(least, #[trigger] vertices@[j]),
        decreases vertices.len() - i,
    {
        let v = vertices[i];
        let degree = graph.edges(v, Direction::Inbound).len();
        proof {
            lemma_in_edges_len(g, v);
        }
        if degree < least_degree {
            least = v;
            least_degree = degree;
        }
        i += 1;
    }
    proof {
        lemma_indegree_order(g);
        let sorted = indegree_order(g);
        assert(vertices@.to_set().contains(least));
        assert forall|v: u32| #[trigger] g.contains_key(v) implies indegree_leq(g)(least, v) by {
            assert(vertices@.to_set().contains(v));
            let j = choose|j: int| 0 <= j < vertices@.len() && vertices@[j] == v;
            assert(indegree_leq(g)(least, vertices@[j]));
        }
        assert(sorted.contains(least));
        let k = choose|k: int| 0 <= k < sorted.len() && sorted[k] == least;
        assert(sorted.contains(sorted[0]));
        if k > 0 {
            assert(indegree_leq(g)(sorted[0], sorted[k]));
            assert(indegree_leq(g)(least, sorted[0]));
        }
    }
    least
}

} // verus!
