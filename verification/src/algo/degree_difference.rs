//! The greedy ordering by degree difference.
//!
//! The vertex whose out-degree exceeds its indegree by most is put next in
//! the ordering and taken out of the graph, with the edges at it, until no
//! vertex is left. Among vertices of equal difference the one of smallest
//! identifier goes first. The edges that point leftward in the ordering are
//! the feedback arc set.

use crate::fas::divide_and_conquer_by_order_heuristic::collect_leftward_edges;
use crate::fas::ordering_model::{
    appears_before, leftward_edges, lemma_leftward_edges_and_loops, lemma_vertex_seq,
};
use crate::fas::tournament::{
    is_ascending_tournament, lemma_tournament_indegree, lemma_tournament_parts,
};
use crate::graph::hash_table::{Direction, Edge, HashTable, VertexId};
use crate::graph::model::{
    edge_set, has_edge, id_leq, indegree, is_cyclic, predecessors, vertex_seq, well_formed,
    without_edges, without_vertex, Adjacency,
};
use crate::graph::properties::{lemma_edge_endpoints, lemma_in_edges_len, lemma_without_vertex};
use crate::graph::sequences::{
    lemma_concat_contains, lemma_sorted_seq_properties, lemma_sorted_seq_unique,
};
use std::collections::BTreeSet;
use vstd::prelude::*;
use vstd::relations::sorted_by;
use vstd::seq_lib::lemma_no_dup_in_concat;
use vstd::set_lib::lemma_len_subset;

verus! {

/// By how much the out-degree of `v` exceeds its indegree.
pub open spec fn degree_difference(g: Adjacency, v: u32) -> int {
    g[v].len() - indegree(g, v)
}

/// The order by descending degree difference, ties broken by the smaller
/// identifier.
pub open spec fn difference_leq(g: Adjacency) -> spec_fn(u32, u32) -> bool {
    |a: u32, b: u32|
        degree_difference(g, a) > degree_difference(g, b) || (degree_difference(g, a)
            == degree_difference(g, b) && a <= b)
}

/// The vertices by descending degree difference, ties broken by the smaller
/// identifier.
pub open spec fn difference_order(g: Adjacency) -> Seq<u32> {
    g.dom().to_sorted_seq(difference_leq(g))
}

/// What `difference_order` yields on a well-formed graph: every vertex once,
/// sorted by degree difference and identifier.
pub proof fn lemma_difference_order(g: Adjacency)
    requires
        well_formed(g),
    ensures
        difference_order(g).no_duplicates(),
        difference_order(g).len() == g.dom().len(),
        sorted_by(difference_order(g), difference_leq(g)),
        forall|v: u32| #[trigger] difference_order(g).contains(v) <==> g.contains_key(v),
{
    lemma_sorted_seq_properties(g.dom(), difference_leq(g));
    assert forall|v: u32| #[trigger] difference_order(g).contains(v) <==> g.contains_key(v) by {
        assert(difference_order(g).contains(v) <==> difference_order(g).to_set().contains(v));
    }
}

/// The greedy ordering: the vertex of largest degree difference, then the
/// greedy ordering of the graph without it.
pub open spec fn greedy_order(g: Adjacency) -> Seq<u32>
    decreases g.dom().len(),
    when well_formed(g)
    via greedy_order_decreases
{
    if g.dom().len() == 0 {
        Seq::empty()
    } else {
        let first = difference_order(g).first();
        seq![first] + greedy_order(without_vertex(g, first))
    }
}

/// A step of the greedy ordering takes a vertex of the graph and goes on
/// with a well-formed graph of one vertex less.
pub proof fn lemma_greedy_step(g: Adjacency)
    requires
        well_formed(g),
        g.dom().len() > 0,
    ensures
        g.contains_key(difference_order(g).first()),
        well_formed(without_vertex(g, difference_order(g).first())),
        without_vertex(g, difference_order(g).first()).dom().len() == g.dom().len() - 1,
{
    lemma_difference_order(g);
    let sorted = difference_order(g);
    assert(sorted.contains(sorted[0]));
    lemma_without_vertex(g, sorted.first());
}

/// The greedy ordering ends: each step goes on with one vertex less.
#[via_fn]
proof fn greedy_order_decreases(g: Adjacency) {
    if g.dom().len() != 0 {
        lemma_greedy_step(g);
    }
}

/// The greedy ordering names every vertex of the graph once.
pub proof fn lemma_greedy_order_is_permutation(g: Adjacency)
    requires
        well_formed(g),
    ensures
        greedy_order(g).no_duplicates(),
        greedy_order(g).len() == g.dom().len(),
        forall|v: u32| #[trigger] greedy_order(g).contains(v) <==> g.contains_key(v),
    decreases g.dom().len(),
{
    if g.dom().len() == 0 {
        assert forall|v: u32| !g.contains_key(v) by {
            g.dom().lemma_len0_is_empty();
            if g.contains_key(v) {
                assert(g.dom().contains(v));
            }
        }
    } else {
        lemma_greedy_step(g);
        let first = difference_order(g).first();
        let rest = greedy_order(without_vertex(g, first));
        lemma_without_vertex(g, first);
        lemma_greedy_order_is_permutation(without_vertex(g, first));
        lemma_concat_contains(seq![first], rest);
        assert forall|i: int, j: int| 0 <= i < seq![first].len() && 0 <= j < rest.len() implies seq![
            first,
        ][i] != rest[j] by {
            assert(rest.contains(rest[j]));
        }
        lemma_no_dup_in_concat(seq![first], rest);
        assert forall|v: u32| #[trigger] greedy_order(g).contains(v) <==> g.contains_key(v) by {
            assert(seq![first].contains(v) <==> v == first) by {
                assert(seq![first][0] == first);
            }
            assert(rest.contains(v) <==> without_vertex(g, first).contains_key(v));
        }
    }
}

/// The feedback arc set that the greedy ordering selects: the edges that
/// point leftward in it.
pub open spec fn greedy_order_feedback_arc_set(g: Adjacency) -> Set<(u32, u32)> {
    leftward_edges(g, greedy_order(g))
}

/// Without the feedback arc set that the greedy ordering selects, a graph
/// has a cycle exactly where it has an edge from a vertex to itself.
pub proof fn lemma_greedy_order_breaks_cycles(g: Adjacency)
    requires
        well_formed(g),
    ensures
        is_cyclic(without_edges(g, greedy_order_feedback_arc_set(g))) <==> exists|v: u32|
            has_edge(g, v, v),
{
    lemma_greedy_order_is_permutation(g);
    lemma_leftward_edges_and_loops(g, greedy_order(g));
}

/// The out-degree of a vertex is the number of the vertices that it has an
/// edge to.
pub proof fn lemma_out_degree(g: Adjacency, v: u32)
    requires
        well_formed(g),
        g.contains_key(v),
    ensures
        g[v].len() == Set::new(|w: u32| has_edge(g, v, w)).len(),
{
    assert(g[v].no_duplicates());
    g[v].unique_seq_to_set();
    assert(g[v].to_set() =~= Set::new(|w: u32| has_edge(g, v, w)));
}

/// The greedy ordering and its feedback arc set depend on the vertices and
/// the edges of a graph alone: two graphs that hold the same vertices and
/// the same edges give the same ordering and the same set, in whatever order
/// the edges stand in their neighbour lists.
pub proof fn lemma_greedy_order_depends_on_vertices_and_edges(g: Adjacency, h: Adjacency)
    requires
        well_formed(g),
        well_formed(h),
        g.dom() == h.dom(),
        edge_set(g) == edge_set(h),
    ensures
        greedy_order(g) == greedy_order(h),
        greedy_order_feedback_arc_set(g) == greedy_order_feedback_arc_set(h),
    decreases g.dom().len(),
{
    assert forall|a: u32, b: u32| has_edge(g, a, b) == has_edge(h, a, b) by {
        assert(edge_set(g).contains((a, b)) <==> has_edge(g, a, b));
        assert(edge_set(h).contains((a, b)) <==> has_edge(h, a, b));
    }
    if g.dom().len() != 0 {
        lemma_greedy_step(g);
        lemma_greedy_step(h);
        lemma_difference_order(g);
        lemma_difference_order(h);
        let sorted = difference_order(h);
        assert forall|v: u32| g.contains_key(v) implies degree_difference(g, v)
            == degree_difference(h, v) by {
            lemma_out_degree(g, v);
            lemma_out_degree(h, v);
            assert(Set::new(|w: u32| has_edge(g, v, w)) =~= Set::new(|w: u32| has_edge(h, v, w)));
            assert(predecessors(g, v) =~= predecessors(h, v));
        }
        assert forall|i: int, j: int| 0 <= i < j < sorted.len() implies difference_leq(g)(
            sorted[i],
            sorted[j],
        ) by {
            assert(difference_leq(h)(sorted[i], sorted[j]));
            assert(sorted.contains(sorted[i]) && sorted.contains(sorted[j]));
        }
        assert(sorted.to_set() =~= g.dom()) by {
            assert forall|v: u32| sorted.to_set().contains(v) <==> g.dom().contains(v) by {
                assert(sorted.contains(v) <==> h.contains_key(v));
            }
        }
        lemma_sorted_seq_unique(sorted, g.dom(), difference_leq(g));
        let first = sorted.first();
        lemma_without_vertex(g, first);
        lemma_without_vertex(h, first);
        assert(edge_set(without_vertex(g, first)) =~= edge_set(without_vertex(h, first)));
        lemma_greedy_order_depends_on_vertices_and_edges(
            without_vertex(g, first),
            without_vertex(h, first),
        );
    }
    assert(greedy_order_feedback_arc_set(g) =~= greedy_order_feedback_arc_set(h));
}

/// In a tournament whose edges lead from smaller to larger identifiers, a
/// smaller vertex has the larger degree difference.
pub proof fn lemma_tournament_difference(g: Adjacency, a: u32, b: u32)
    requires
        well_formed(g),
        is_ascending_tournament(g),
        g.contains_key(a),
        g.contains_key(b),
        a < b,
    ensures
        degree_difference(g, a) > degree_difference(g, b),
{
    lemma_tournament_indegree(g, a, b);
    assert(g[a].no_duplicates());
    assert(g[b].no_duplicates());
    g[a].unique_seq_to_set();
    g[b].unique_seq_to_set();
    assert forall|w: u32| g[b].to_set().contains(w) implies g[a].to_set().contains(w) by {
        assert(has_edge(g, b, w));
        lemma_edge_endpoints(g, b, w);
        assert(has_edge(g, a, w));
    }
    lemma_len_subset(g[b].to_set(), g[a].to_set());
}

/// The greedy ordering of such a tournament is the order by identifier, so
/// that no edge points leftward.
pub proof fn lemma_tournament_greedy_order(g: Adjacency)
    requires
        well_formed(g),
        is_ascending_tournament(g),
    ensures
        greedy_order(g) == vertex_seq(g),
        greedy_order_feedback_arc_set(g) == Set::<(u32, u32)>::empty(),
    decreases g.dom().len(),
{
    lemma_vertex_seq(g);
    let s = vertex_seq(g);
    if g.dom().len() != 0 {
        lemma_greedy_step(g);
        lemma_difference_order(g);
        let sorted = difference_order(g);
        assert forall|i: int, j: int| 0 <= i < j < sorted.len() implies id_leq()(
            sorted[i],
            sorted[j],
        ) by {
            assert(difference_leq(g)(sorted[i], sorted[j]));
            assert(sorted.contains(sorted[i]) && sorted.contains(sorted[j]));
            if sorted[j] < sorted[i] {
                lemma_tournament_difference(g, sorted[j], sorted[i]);
            }
        }
        assert(sorted.to_set() =~= g.dom()) by {
            assert forall|v: u32| sorted.to_set().contains(v) <==> g.dom().contains(v) by {
                assert(sorted.contains(v) <==> g.contains_key(v));
            }
        }
        lemma_sorted_seq_unique(sorted, g.dom(), id_leq());
        let first = s.first();
        let rest = without_vertex(g, first);
        lemma_tournament_parts(g, first, Set::empty());
        lemma_tournament_greedy_order(rest);
        lemma_vertex_seq(rest);
        let tail = vertex_seq(rest);
        let whole = seq![first] + tail;
        assert forall|i: int, j: int| 0 <= i < j < whole.len() implies id_leq()(
            whole[i],
            whole[j],
        ) && whole[i] != whole[j] by {
            assert(tail.contains(tail[j - 1]));
            assert(s.contains(tail[j - 1]));
            if i == 0 {
                let k = choose|k: int| 0 <= k < s.len() && s[k] == tail[j - 1];
                assert(k != 0);
                assert(id_leq()(s[0], s[k]));
            } else {
                assert(id_leq()(tail[i - 1], tail[j - 1]));
            }
        }
        assert forall|v: u32| whole.to_set().contains(v) <==> g.dom().contains(v) by {
            if whole.contains(v) {
                let k = choose|k: int| 0 <= k < whole.len() && whole[k] == v;
                if k > 0 {
                    assert(tail.contains(tail[k - 1]));
                } else {
                    assert(s.contains(s[0]));
                }
            }
            if g.contains_key(v) {
                if v == first {
                    assert(whole[0] == v);
                } else {
                    assert(tail.contains(v));
                    let k = choose|k: int| 0 <= k < tail.len() && tail[k] == v;
                    assert(whole[k + 1] == v);
                }
            }
        }
        assert(whole.to_set() =~= g.dom());
        lemma_sorted_seq_unique(whole, g.dom(), id_leq());
    } else {
        assert(s.len() == 0);
        assert(s == Seq::<u32>::empty());
    }
    assert forall|e: (u32, u32)| !leftward_edges(g, s).contains(e) by {
        if has_edge(g, e.0, e.1) && appears_before(s, e.1, e.0) {
            let (i, j) = choose|i: int, j: int| 0 <= i < j < s.len() && s[i] == e.1 && s[j] == e.0;
            assert(id_leq()(s[i], s[j]));
        }
    }
    assert(greedy_order_feedback_arc_set(g) =~= Set::<(u32, u32)>::empty());
}

/// On the acyclic complete graph on the identifiers below `n`, the feedback
/// arc set that the greedy ordering selects holds at most a quarter of the
/// `n * (n - 1)` ordered pairs; in fact it is empty.
pub proof fn lemma_tournament_greedy_bound(g: Adjacency, n: nat)
    requires
        well_formed(g),
        forall|a: u32, b: u32| #[trigger] has_edge(g, a, b) <==> a < b && b < n,
        forall|v: u32| #[trigger] g.contains_key(v) <==> v < n && n >= 2,
    ensures
        greedy_order_feedback_arc_set(g).finite(),
        4 * greedy_order_feedback_arc_set(g).len() <= n * (n - 1),
{
    assert forall|a: u32, b: u32| #[trigger]
        has_edge(g, a, b) <==> g.contains_key(a) && g.contains_key(b) && a < b by {
        assert(has_edge(g, a, b) <==> a < b && b < n);
    }
    lemma_tournament_greedy_order(g);
    assert(n * (n - 1) >= 0) by (nonlinear_arith)
        requires
            n >= 0,
    ;
}

/// The vertex whose out-degree exceeds its indegree by most, and among
/// several the one of smallest identifier. The graph must have a vertex.
pub fn vertex_with_max_degree_difference(graph: &HashTable) -> (best: VertexId)
    requires
        graph.wf(),
        graph@.dom().len() > 0,
    ensures
        best == difference_order(graph@).first(),
        graph@.contains_key(best),
{
    let ghost g = graph@;
    let vertices = graph.vertices();
    assert(vertices.len() > 0);
    let mut best = vertices[0];
    assert(vertices@.to_set().contains(vertices@[0]));
    let mut best_out = graph.degree(best);
    let mut best_in = graph.edges(best, Direction::Inbound).len();
    proof {
        lemma_in_edges_len(g, best);
    }
    let mut i: usize = 1;
    while i < vertices.len()
        invariant
            1 <= i <= vertices.len(),
            g == graph@,
            graph.wf(),
            vertices@.to_set() == g.dom(),
            forall|a: int, b: int| 0 <= a < b < vertices@.len() ==> vertices@[a] < vertices@[b],
            best_out == g[best].len(),
            best_in == indegree(g, best),
            exists|k: int| 0 <= k < i && vertices@[k] == best,
            forall|j: int| 0 <= j < i ==> difference_leq(g)(best, #[trigger] vertices@[j]),
        decreases vertices.len() - i,
    {
        let v = vertices[i];
        assert(vertices@.to_set().contains(v));
        let out = graph.degree(v);
        let inward = graph.edges(v, Direction::Inbound).len();
        proof {
            lemma_in_edges_len(g, v);
        }
        if out as u128 + best_in as u128 > best_out as u128 + inward as u128 {
            best = v;
            best_out = out;
            best_in = inward;
        }
        i += 1;
    }
    proof {
        lemma_difference_order(g);
        let sorted = difference_order(g);
        assert(vertices@.to_set().contains(best));
        assert forall|v: u32| #[trigger] g.contains_key(v) implies difference_leq(g)(best, v) by {
            assert(vertices@.to_set().contains(v));
            let j = choose|j: int| 0 <= j < vertices@.len() && vertices@[j] == v;
            assert(difference_leq(g)(best, vertices@[j]));
        }
        assert(sorted.contains(best));
        let k = choose|k: int| 0 <= k < sorted.len() && sorted[k] == best;
        assert(sorted.contains(sorted[0]));
        if k > 0 {
            assert(difference_leq(g)(sorted[0], sorted[k]));
            assert(difference_leq(g)(best, sorted[0]));
        }
    }
    best
}

/// The vertices in the greedy ordering.
pub fn order_by_degree_difference(g: HashTable) -> (ordering: Vec<VertexId>)
    requires
        g.wf(),
    ensures
        ordering@ == greedy_order(g@),
{
    let ghost whole = g@;
    let mut g = g;
    let mut ordering: Vec<VertexId> = Vec::new();
    assert(ordering@ + greedy_order(g@) == greedy_order(whole));
    while g.order() > 0
        invariant
            g.wf(),
            ordering@ + greedy_order(g@) == greedy_order(whole),
        decreases g@.dom().len(),
    {
        let ghost before = g@;
        proof {
            lemma_greedy_step(before);
        }
        let v = vertex_with_max_degree_difference(&g);
        g.remove_vertex(v);
        ordering.push(v);
        assert(ordering@ + greedy_order(g@) == ordering@.drop_last() + (seq![v] + greedy_order(
            g@,
        )));
    }
    assert(greedy_order(g@) == Seq::<u32>::empty());
    assert(ordering@ + Seq::<u32>::empty() == ordering@);
    ordering
}

/// The greedy heuristic by degree difference.
pub struct DegreeDifferenceHeuristic {}

impl DegreeDifferenceHeuristic {
    /// The edges that point leftward in the greedy ordering of the graph.
    /// They are edges of the graph, and the same graph always gives the same
    /// set. Without them the graph has no cycle, unless it has an edge from
    /// a vertex to itself: such an edge points nowhere and stays.
    pub fn compute(&self, graph: &HashTable) -> (fas: BTreeSet<Edge>)
        requires
            graph.wf(),
        ensures
            fas@ == greedy_order_feedback_arc_set(graph@),
            fas@.subset_of(edge_set(graph@)),
            is_cyclic(without_edges(graph@, fas@)) <==> exists|v: u32| has_edge(graph@, v, v),
    {
        let ordering = order_by_degree_difference(graph.clone());
        proof {
            lemma_greedy_order_breaks_cycles(graph@);
        }
        collect_leftward_edges(graph, ordering)
    }
}

} // verus!
