//! The vertex ordering of Eades, Smyth and Lin, and the edges that point
//! leftward in an ordering, as mathematical functions of a graph.
//!
//! The ordering is found by divide and conquer. A graph without edges is
//! ordered by vertex identifier. From a graph with an odd number of edges the
//! vertex of least indegree is taken out and put first. A graph with an even
//! number of edges is split in two by indegree, each half is ordered on its
//! own, and the half of lower indegree comes first.

use crate::graph::model::{
    edge_count, edge_seq, edge_set, has_edge, id_leq, indegree, indegree_leq, indegree_order,
    induced, is_closed_walk, is_cyclic, predecessors, vertex_seq, well_formed, without_edges,
    without_vertex, Adjacency,
};
use crate::graph::properties::{
    lemma_edge_endpoints, lemma_edge_seq, lemma_induced, lemma_ranked_acyclic, lemma_without_edges,
    lemma_without_vertex,
};
use crate::graph::sequences::{
    lemma_concat_contains, lemma_sorted_seq_properties, lemma_sorted_seq_unique,
};
use vstd::prelude::*;
use vstd::relations::sorted_by;
use vstd::seq_lib::lemma_no_dup_in_concat;

verus! {

/// What `indegree_order` yields on a well-formed graph: every vertex once,
/// sorted by indegree and identifier.
pub proof fn lemma_indegree_order(g: Adjacency)
    requires
        well_formed(g),
    ensures
        indegree_order(g).no_duplicates(),
        indegree_order(g).to_set() == g.dom(),
        indegree_order(g).len() == g.dom().len(),
        sorted_by(indegree_order(g), indegree_leq(g)),
        forall|v: u32| #[trigger] indegree_order(g).contains(v) <==> g.contains_key(v),
{
    lemma_sorted_seq_properties(g.dom(), indegree_leq(g));
    assert forall|v: u32| #[trigger] indegree_order(g).contains(v) <==> g.contains_key(v) by {
        assert(indegree_order(g).contains(v) <==> indegree_order(g).to_set().contains(v));
    }
}

/// What `vertex_seq` yields on a well-formed graph: every vertex once, by
/// ascending identifier.
pub proof fn lemma_vertex_seq(g: Adjacency)
    requires
        well_formed(g),
    ensures
        vertex_seq(g).no_duplicates(),
        vertex_seq(g).to_set() == g.dom(),
        vertex_seq(g).len() == g.dom().len(),
        sorted_by(vertex_seq(g), id_leq()),
        forall|v: u32| #[trigger] vertex_seq(g).contains(v) <==> g.contains_key(v),
{
    lemma_sorted_seq_properties(g.dom(), id_leq());
    assert forall|v: u32| #[trigger] vertex_seq(g).contains(v) <==> g.contains_key(v) by {
        assert(vertex_seq(g).contains(v) <==> vertex_seq(g).to_set().contains(v));
    }
}

/// A finite set that holds two different elements has at least two.
pub proof fn lemma_two_elements<A>(s: Set<A>, a: A, b: A)
    requires
        s.finite(),
        s.contains(a),
        s.contains(b),
        a != b,
    ensures
        s.len() >= 2,
{
    assert(s.remove(a).contains(b));
    assert(s.remove(a).len() > 0) by {
        if s.remove(a).len() == 0 {
            s.remove(a).lemma_len0_is_empty();
        }
    }
}

/// A well-formed graph with an edge has a vertex, and one with two edges has
/// two vertices.
pub proof fn lemma_edges_need_vertices(g: Adjacency)
    requires
        well_formed(g),
    ensures
        edge_count(g) >= 1 ==> g.dom().len() >= 1,
        edge_count(g) >= 2 ==> g.dom().len() >= 2,
{
    lemma_edge_seq(g);
    let es = edge_seq(g);
    if es.len() >= 1 {
        assert(es.to_set().contains(es[0]));
        lemma_edge_endpoints(g, es[0].0, es[0].1);
        assert(g.dom().len() > 0) by {
            if g.dom().len() == 0 {
                g.dom().lemma_len0_is_empty();
                assert(g.dom().contains(es[0].0));
            }
        }
    }
    if es.len() >= 2 {
        assert(es.to_set().contains(es[1]));
        lemma_edge_endpoints(g, es[1].0, es[1].1);
        assert(es[0] != es[1]);
        if es[0].0 != es[0].1 {
            lemma_two_elements(g.dom(), es[0].0, es[0].1);
        } else if es[1].0 != es[1].1 {
            lemma_two_elements(g.dom(), es[1].0, es[1].1);
        } else {
            lemma_two_elements(g.dom(), es[0].0, es[1].0);
        }
    }
}

/// Cutting a sequence without repetition in two parts the set of its
/// elements in two.
pub proof fn lemma_halves<A>(s: Seq<A>, at: int)
    requires
        s.no_duplicates(),
        0 <= at <= s.len(),
    ensures
        s.take(at).no_duplicates(),
        s.skip(at).no_duplicates(),
        s.take(at).to_set().len() == at,
        s.skip(at).to_set().len() == s.len() - at,
        s.take(at).to_set().disjoint(s.skip(at).to_set()),
        forall|x: A| s.contains(x) <==> #[trigger] s.take(at).contains(x) || s.skip(at).contains(x),
{
    let lo = s.take(at);
    let hi = s.skip(at);
    assert(lo + hi == s);
    lemma_concat_contains(lo, hi);
    assert(lo.no_duplicates());
    assert(hi.no_duplicates());
    lo.unique_seq_to_set();
    hi.unique_seq_to_set();
    assert forall|x: A| !(lo.to_set().contains(x) && hi.to_set().contains(x)) by {
        if lo.contains(x) && hi.contains(x) {
            let i = choose|i: int| 0 <= i < lo.len() && lo[i] == x;
            let j = choose|j: int| 0 <= j < hi.len() && hi[j] == x;
            assert(s[i] == s[j + at]);
        }
    }
}

/// The ordering of Eades, Smyth and Lin.
pub open spec fn esl_order(g: Adjacency) -> Seq<u32>
    decreases g.dom().len(),
    when well_formed(g)
    via esl_order_decreases
{
    if edge_count(g) == 0 {
        vertex_seq(g)
    } else if edge_count(g) % 2 == 1 {
        let first = indegree_order(g).first();
        seq![first] + esl_order(without_vertex(g, first))
    } else {
        let sorted = indegree_order(g);
        let half = sorted.len() / 2;
        esl_order(induced(g, sorted.take(half as int).to_set())) + esl_order(
            induced(g, sorted.skip(half as int).to_set()),
        )
    }
}

/// Each step of the ordering goes on with fewer vertices: one less after a
/// vertex is taken out, and a proper part after a split, which happens only
/// where there are two vertices or more.
pub proof fn lemma_esl_steps(g: Adjacency)
    requires
        well_formed(g),
        edge_count(g) > 0,
    ensures
        g.contains_key(indegree_order(g).first()),
        well_formed(without_vertex(g, indegree_order(g).first())),
        without_vertex(g, indegree_order(g).first()).dom().len() < g.dom().len(),
        edge_count(g) >= 2 ==> ({
            let sorted = indegree_order(g);
            let half = sorted.len() / 2;
            let low = induced(g, sorted.take(half as int).to_set());
            let high = induced(g, sorted.skip(half as int).to_set());
            &&& 1 <= half < sorted.len()
            &&& well_formed(low)
            &&& well_formed(high)
            &&& low.dom() == sorted.take(half as int).to_set()
            &&& high.dom() == sorted.skip(half as int).to_set()
            &&& low.dom().len() < g.dom().len()
            &&& high.dom().len() < g.dom().len()
        }),
{
    let sorted = indegree_order(g);
    lemma_indegree_order(g);
    lemma_edges_need_vertices(g);
    let first = sorted.first();
    assert(sorted.contains(sorted[0]));
    lemma_without_vertex(g, first);
    if edge_count(g) >= 2 {
        let half = sorted.len() / 2;
        lemma_halves(sorted, half as int);
        lemma_induced(g, sorted.take(half as int).to_set());
        lemma_induced(g, sorted.skip(half as int).to_set());
    }
}

/// The ordering ends: each step goes on with fewer vertices.
#[via_fn]
proof fn esl_order_decreases(g: Adjacency) {
    if edge_count(g) != 0 {
        lemma_esl_steps(g);
    }
}

/// The ordering names every vertex of the graph once.
pub proof fn lemma_esl_order_is_permutation(g: Adjacency)
    requires
        well_formed(g),
    ensures
        esl_order(g).no_duplicates(),
        esl_order(g).to_set() == g.dom(),
        esl_order(g).len() == g.dom().len(),
        forall|v: u32| #[trigger] esl_order(g).contains(v) <==> g.contains_key(v),
    decreases g.dom().len(),
{
    if edge_count(g) == 0 {
        lemma_vertex_seq(g);
    } else {
        lemma_esl_steps(g);
        lemma_indegree_order(g);
        let sorted = indegree_order(g);
        if edge_count(g) % 2 == 1 {
            let first = sorted.first();
            let rest = esl_order(without_vertex(g, first));
            lemma_without_vertex(g, first);
            lemma_esl_order_is_permutation(without_vertex(g, first));
            lemma_concat_contains(seq![first], rest);
            assert forall|i: int, j: int| 0 <= i < seq![first].len() && 0 <= j < rest.len() implies seq![
                first,
            ][i] != rest[j] by {
                assert(rest.contains(rest[j]));
            }
            lemma_no_dup_in_concat(seq![first], rest);
            assert forall|v: u32| #[trigger] esl_order(g).contains(v) <==> g.contains_key(v) by {
                assert(seq![first].contains(v) <==> v == first) by {
                    assert(seq![first][0] == first);
                }
                assert(rest.contains(v) <==> without_vertex(g, first).contains_key(v));
            }
        } else {
            let half = sorted.len() / 2;
            let low = induced(g, sorted.take(half as int).to_set());
            let high = induced(g, sorted.skip(half as int).to_set());
            lemma_halves(sorted, half as int);
            lemma_esl_order_is_permutation(low);
            lemma_esl_order_is_permutation(high);
            let a = esl_order(low);
            let b = esl_order(high);
            lemma_concat_contains(a, b);
            assert forall|i: int, j: int| 0 <= i < a.len() && 0 <= j < b.len() implies a[i]
                != b[j] by {
                assert(a.contains(a[i]));
                assert(b.contains(b[j]));
                assert(sorted.take(half as int).to_set().contains(a[i]));
                assert(sorted.skip(half as int).to_set().contains(b[j]));
            }
            lemma_no_dup_in_concat(a, b);
            assert forall|v: u32| #[trigger] esl_order(g).contains(v) <==> g.contains_key(v) by {
                assert(a.contains(v) <==> low.contains_key(v));
                assert(b.contains(v) <==> high.contains_key(v));
                assert(sorted.contains(v) <==> g.contains_key(v));
                assert(sorted.take(half as int).to_set().contains(v) <==> sorted.take(
                    half as int,
                ).contains(v));
                assert(sorted.skip(half as int).to_set().contains(v) <==> sorted.skip(
                    half as int,
                ).contains(v));
            }
        }
        assert forall|v: u32| esl_order(g).to_set().contains(v) <==> g.dom().contains(v) by {
            assert(esl_order(g).contains(v) <==> g.contains_key(v));
        }
    }
    assert(esl_order(g).to_set() =~= g.dom());
    esl_order(g).unique_seq_to_set();
}

/// Whether `a` stands at an earlier place of `s` than `b` does.
pub open spec fn appears_before(s: Seq<u32>, a: u32, b: u32) -> bool {
    exists|i: int, j: int| 0 <= i < j < s.len() && s[i] == a && s[j] == b
}

/// The edges of `g` that point leftward in the ordering `s`: those whose
/// target appears before their source.
pub open spec fn leftward_edges(g: Adjacency, s: Seq<u32>) -> Set<(u32, u32)> {
    Set::new(|e: (u32, u32)| has_edge(g, e.0, e.1) && appears_before(s, e.1, e.0))
}

/// The feedback arc set that the heuristic selects: the edges that point
/// leftward in the ordering of Eades, Smyth and Lin.
pub open spec fn esl_feedback_arc_set(g: Adjacency) -> Set<(u32, u32)> {
    leftward_edges(g, esl_order(g))
}

/// Leftward edges are edges of the graph.
pub proof fn lemma_leftward_edges_are_edges(g: Adjacency, s: Seq<u32>)
    ensures
        leftward_edges(g, s).subset_of(edge_set(g)),
{
}

/// The same graph and the same ordering have the same leftward edges: a set
/// that holds exactly the edges whose target appears before their source is
/// the set of leftward edges, whoever collected it.
pub proof fn lemma_leftward_edges_unique(
    g: Adjacency,
    s: Seq<u32>,
    first: Set<(u32, u32)>,
    second: Set<(u32, u32)>,
)
    requires
        forall|e: (u32, u32)|
            first.contains(e) <==> has_edge(g, e.0, e.1) && appears_before(s, e.1, e.0),
        forall|e: (u32, u32)|
            second.contains(e) <==> has_edge(g, e.0, e.1) && appears_before(s, e.1, e.0),
    ensures
        first == second,
        first == leftward_edges(g, s),
{
    assert(first =~= leftward_edges(g, s));
    assert(second =~= leftward_edges(g, s));
}

/// Without its leftward edges, a graph that has no edge from a vertex to
/// itself is free of cycles, whatever ordering of all its vertices is taken.
pub proof fn lemma_leftward_edges_break_cycles(g: Adjacency, s: Seq<u32>)
    requires
        well_formed(g),
        forall|v: u32| !has_edge(g, v, v),
        forall|v: u32| g.contains_key(v) ==> s.contains(v),
    ensures
        !is_cyclic(without_edges(g, leftward_edges(g, s))),
{
    let rest = without_edges(g, leftward_edges(g, s));
    let rank = |v: u32| s.index_of(v);
    lemma_without_edges(g, leftward_edges(g, s));
    assert forall|a: u32, b: u32| #[trigger] has_edge(rest, a, b) implies rank(a) < rank(b) by {
        lemma_edge_endpoints(g, a, b);
        assert(s.contains(a) && s.contains(b));
        let at_a = s.index_of(a);
        let at_b = s.index_of(b);
        assert(s[at_a] == a && 0 <= at_a < s.len());
        assert(s[at_b] == b && 0 <= at_b < s.len());
        assert(!leftward_edges(g, s).contains((a, b)));
        if at_b < at_a {
            assert(appears_before(s, b, a));
        }
    }
    lemma_ranked_acyclic(rest, rank);
}

/// Without the feedback arc set that the heuristic selects, a graph that has
/// no edge from a vertex to itself is free of cycles.
pub proof fn lemma_esl_feedback_arc_set_breaks_cycles(g: Adjacency)
    requires
        well_formed(g),
        forall|v: u32| !has_edge(g, v, v),
    ensures
        !is_cyclic(without_edges(g, esl_feedback_arc_set(g))),
{
    lemma_esl_order_is_permutation(g);
    lemma_leftward_edges_break_cycles(g, esl_order(g));
}

/// Without its leftward edges, whatever ordering of all its vertices is
/// taken in which no vertex stands twice, a graph has a cycle exactly where
/// it has an edge from a vertex to itself.
pub proof fn lemma_leftward_edges_and_loops(g: Adjacency, s: Seq<u32>)
    requires
        well_formed(g),
        s.no_duplicates(),
        forall|v: u32| g.contains_key(v) ==> s.contains(v),
    ensures
        is_cyclic(without_edges(g, leftward_edges(g, s))) <==> exists|v: u32| has_edge(g, v, v),
{
    let rest = without_edges(g, leftward_edges(g, s));
    lemma_without_edges(g, leftward_edges(g, s));
    if exists|v: u32| has_edge(g, v, v) {
        let v = choose|v: u32| has_edge(g, v, v);
        assert(!appears_before(s, v, v)) by {
            if appears_before(s, v, v) {
                let (i, j) = choose|i: int, j: int| 0 <= i < j < s.len() && s[i] == v && s[j] == v;
                assert(s[i] != s[j]);
            }
        }
        assert(has_edge(rest, v, v));
        let p = seq![v, v];
        assert(is_closed_walk(rest, p));
    } else {
        lemma_leftward_edges_break_cycles(g, s);
    }
}

/// Without the feedback arc set that the heuristic selects, a graph has a
/// cycle exactly where it has an edge from a vertex to itself.
pub proof fn lemma_esl_feedback_arc_set_and_loops(g: Adjacency)
    requires
        well_formed(g),
    ensures
        is_cyclic(without_edges(g, esl_feedback_arc_set(g))) <==> exists|v: u32| has_edge(g, v, v),
{
    lemma_esl_order_is_permutation(g);
    lemma_leftward_edges_and_loops(g, esl_order(g));
}

/// The ordering and the feedback arc set depend on the vertices and the edges
/// of a graph alone: two graphs that hold the same vertices and the same
/// edges give the same ordering and the same set, in whatever order the
/// edges stand in their neighbour lists.
pub proof fn lemma_esl_depends_on_vertices_and_edges(g: Adjacency, h: Adjacency)
    requires
        well_formed(g),
        well_formed(h),
        g.dom() == h.dom(),
        edge_set(g) == edge_set(h),
    ensures
        esl_order(g) == esl_order(h),
        esl_feedback_arc_set(g) == esl_feedback_arc_set(h),
    decreases g.dom().len(),
{
    assert forall|a: u32, b: u32| has_edge(g, a, b) == has_edge(h, a, b) by {
        assert(edge_set(g).contains((a, b)) <==> has_edge(g, a, b));
        assert(edge_set(h).contains((a, b)) <==> has_edge(h, a, b));
    }
    if edge_count(g) != 0 {
        lemma_esl_steps(g);
        lemma_esl_steps(h);
        lemma_indegree_order(g);
        lemma_indegree_order(h);
        let sorted = indegree_order(h);
        assert forall|v: u32| indegree(g, v) == indegree(h, v) by {
            assert(predecessors(g, v) =~= predecessors(h, v));
        }
        assert forall|i: int, j: int| 0 <= i < j < sorted.len() implies indegree_leq(g)(
            sorted[i],
            sorted[j],
        ) by {
            assert(indegree_leq(h)(sorted[i], sorted[j]));
        }
        lemma_sorted_seq_unique(sorted, g.dom(), indegree_leq(g));
        if edge_count(g) % 2 == 1 {
            let first = sorted.first();
            lemma_without_vertex(g, first);
            lemma_without_vertex(h, first);
            assert(edge_set(without_vertex(g, first)) =~= edge_set(without_vertex(h, first)));
            lemma_esl_depends_on_vertices_and_edges(
                without_vertex(g, first),
                without_vertex(h, first),
            );
        } else {
            let half = sorted.len() / 2;
            let low = sorted.take(half as int).to_set();
            let high = sorted.skip(half as int).to_set();
            lemma_induced(g, low);
            lemma_induced(h, low);
            lemma_induced(g, high);
            lemma_induced(h, high);
            assert(edge_set(induced(g, low)) =~= edge_set(induced(h, low)));
            assert(edge_set(induced(g, high)) =~= edge_set(induced(h, high)));
            lemma_esl_depends_on_vertices_and_edges(induced(g, low), induced(h, low));
            lemma_esl_depends_on_vertices_and_edges(induced(g, high), induced(h, high));
        }
    }
    assert(esl_feedback_arc_set(g) =~= esl_feedback_arc_set(h));
}

} // verus!
