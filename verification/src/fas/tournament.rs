//! The heuristic on tournaments in which every edge leads from the smaller
//! to the larger identifier.
//!
//! Such a graph has no cycle, and the heuristic finds that out: it orders
//! the vertices by identifier, so that no edge points leftward.

use crate::fas::ordering_model::{
    appears_before, esl_feedback_arc_set, esl_order, leftward_edges, lemma_esl_steps, lemma_halves,
    lemma_indegree_order, lemma_vertex_seq,
};
use crate::graph::model::{
    edge_count, has_edge, id_leq, indegree, indegree_leq, indegree_order, induced, predecessors,
    vertex_seq, well_formed, without_vertex, Adjacency,
};
use crate::graph::properties::{lemma_in_edges_len, lemma_induced, lemma_without_vertex};
use crate::graph::sequences::lemma_sorted_seq_unique;
use vstd::prelude::*;
use vstd::relations::sorted_by;
use vstd::set_lib::lemma_len_subset;

verus! {

/// Whether the edges of `g` are exactly the pairs of its vertices that lead
/// from a smaller to a larger identifier.
pub open spec fn is_ascending_tournament(g: Adjacency) -> bool {
    forall|a: u32, b: u32| #[trigger]
        has_edge(g, a, b) <==> g.contains_key(a) && g.contains_key(b) && a < b
}

/// In such a tournament a larger vertex has the larger indegree.
pub proof fn lemma_tournament_indegree(g: Adjacency, a: u32, b: u32)
    requires
        well_formed(g),
        is_ascending_tournament(g),
        g.contains_key(a),
        g.contains_key(b),
        a < b,
    ensures
        indegree(g, a) < indegree(g, b),
{
    lemma_in_edges_len(g, a);
    lemma_in_edges_len(g, b);
    let below_a = predecessors(g, a);
    let below_b = predecessors(g, b);
    assert(has_edge(g, a, b));
    assert(below_b.contains(a));
    assert(!has_edge(g, a, a));
    assert forall|u: u32| below_a.contains(u) implies below_b.remove(a).contains(u) by {
        assert(has_edge(g, u, a));
        assert(has_edge(g, u, b));
    }
    lemma_len_subset(below_a, below_b.remove(a));
}

/// In such a tournament the order by indegree is the order by identifier.
pub proof fn lemma_tournament_indegree_order(g: Adjacency)
    requires
        well_formed(g),
        is_ascending_tournament(g),
    ensures
        indegree_order(g) == vertex_seq(g),
{
    let s = indegree_order(g);
    lemma_indegree_order(g);
    assert forall|i: int, j: int| 0 <= i < j < s.len() implies id_leq()(s[i], s[j]) by {
        assert(indegree_leq(g)(s[i], s[j]));
        assert(s.contains(s[i]) && s.contains(s[j]));
        if s[j] < s[i] {
            lemma_tournament_indegree(g, s[j], s[i]);
        }
    }
    lemma_sorted_seq_unique(s, g.dom(), id_leq());
}

/// A part of such a tournament is one.
pub proof fn lemma_tournament_parts(g: Adjacency, v: u32, keep: Set<u32>)
    requires
        well_formed(g),
        is_ascending_tournament(g),
        keep.finite(),
        keep.subset_of(g.dom()),
    ensures
        is_ascending_tournament(without_vertex(g, v)),
        is_ascending_tournament(induced(g, keep)),
{
    lemma_without_vertex(g, v);
    lemma_induced(g, keep);
    assert forall|a: u32, b: u32| #[trigger]
        has_edge(induced(g, keep), a, b) <==> induced(g, keep).contains_key(a) && induced(
            g,
            keep,
        ).contains_key(b) && a < b by {
        assert(has_edge(g, a, b) <==> g.contains_key(a) && g.contains_key(b) && a < b);
        if keep.contains(a) {
            assert(g.dom().contains(a));
        }
        if keep.contains(b) {
            assert(g.dom().contains(b));
        }
    }
    assert forall|a: u32, b: u32| #[trigger]
        has_edge(without_vertex(g, v), a, b) <==> without_vertex(g, v).contains_key(a)
            && without_vertex(g, v).contains_key(b) && a < b by {
        assert(has_edge(g, a, b) <==> g.contains_key(a) && g.contains_key(b) && a < b);
    }
}

/// A sequence in ascending order, without repetition, is the ascending
/// sequence of the vertices of the subgraph that it induces.
proof fn lemma_induced_vertex_seq(g: Adjacency, part: Seq<u32>)
    requires
        well_formed(g),
        sorted_by(part, id_leq()),
        part.no_duplicates(),
    ensures
        vertex_seq(induced(g, part.to_set())) == part,
{
    lemma_induced(g, part.to_set());
    lemma_sorted_seq_unique(part, part.to_set(), id_leq());
}

/// The heuristic orders such a tournament by identifier.
pub proof fn lemma_tournament_order(g: Adjacency)
    requires
        well_formed(g),
        is_ascending_tournament(g),
    ensures
        esl_order(g) == vertex_seq(g),
    decreases g.dom().len(),
{
    if edge_count(g) != 0 {
        lemma_esl_steps(g);
        lemma_tournament_indegree_order(g);
        lemma_vertex_seq(g);
        let s = vertex_seq(g);
        if edge_count(g) % 2 == 1 {
            let first = s.first();
            let rest = without_vertex(g, first);
            lemma_tournament_parts(g, first, Set::empty());
            lemma_tournament_order(rest);
            lemma_vertex_seq(rest);
            let tail = vertex_seq(rest);
            let whole = seq![first] + tail;
            assert forall|i: int, j: int| 0 <= i < j < whole.len() implies id_leq()(
                whole[i],
                whole[j],
            ) && whole[i] != whole[j] by {
                assert(tail.contains(tail[j - 1]));
                assert(s.contains(tail[j - 1]));
                if i == 0 {
                    let k = choose|k: int| 0 <= k < s.len() && s[k] == tail[j - 1];
                    assert(k != 0);
                    assert(id_leq()(s[0], s[k]));
                } else {
                    assert(id_leq()(tail[i - 1], tail[j - 1]));
                }
            }
            assert forall|v: u32| whole.to_set().contains(v) <==> g.dom().contains(v) by {
                if whole.contains(v) {
                    let k = choose|k: int| 0 <= k < whole.len() && whole[k] == v;
                    if k > 0 {
                        assert(tail.contains(tail[k - 1]));
                    } else {
                        assert(s.contains(s[0]));
                    }
                }
                if g.contains_key(v) {
                    if v == first {
                        assert(whole[0] == v);
                    } else {
                        assert(tail.contains(v));
                        let k = choose|k: int| 0 <= k < tail.len() && tail[k] == v;
                        assert(whole[k + 1] == v);
                    }
                }
            }
            assert(whole.to_set() =~= g.dom());
            lemma_sorted_seq_unique(whole, g.dom(), id_leq());
        } else {
            let half = s.len() / 2;
            let low = s.take(half as int);
            let high = s.skip(half as int);
            lemma_halves(s, half as int);
            assert(low.to_set().subset_of(g.dom())) by {
                assert forall|v: u32| low.to_set().contains(v) implies g.dom().contains(v) by {
                    assert(low.contains(v));
                    assert(s.contains(v));
                }
            }
            assert(high.to_set().subset_of(g.dom())) by {
                assert forall|v: u32| high.to_set().contains(v) implies g.dom().contains(v) by {
                    assert(high.contains(v));
                    assert(s.contains(v));
                }
            }
            lemma_tournament_parts(g, 0, low.to_set());
            lemma_tournament_parts(g, 0, high.to_set());
            lemma_tournament_order(induced(g, low.to_set()));
            lemma_tournament_order(induced(g, high.to_set()));
            lemma_induced_vertex_seq(g, low);
            lemma_induced_vertex_seq(g, high);
            assert(low + high == s);
        }
    }
}

/// On a tournament whose edges lead from smaller to larger identifiers the
/// heuristic selects no edge.
pub proof fn lemma_tournament_keeps_every_edge(g: Adjacency)
    requires
        well_formed(g),
        is_ascending_tournament(g),
    ensures
        esl_feedback_arc_set(g) == Set::<(u32, u32)>::empty(),
{
    lemma_tournament_order(g);
    lemma_vertex_seq(g);
    let s = vertex_seq(g);
    assert forall|e: (u32, u32)| !leftward_edges(g, s).contains(e) by {
        if has_edge(g, e.0, e.1) && appears_before(s, e.1, e.0) {
            let (i, j) = choose|i: int, j: int| 0 <= i < j < s.len() && s[i] == e.1 && s[j] == e.0;
            assert(id_leq()(s[i], s[j]));
        }
    }
    assert(esl_feedback_arc_set(g) =~= Set::<(u32, u32)>::empty());
}

/// On the acyclic complete graph on the identifiers below `n`, the feedback
/// arc set that the heuristic selects holds at most a quarter of the
/// `n * (n - 1)` ordered pairs; in fact it is empty.
pub proof fn lemma_tournament_bound(g: Adjacency, n: nat)
    requires
        well_formed(g),
        forall|a: u32, b: u32| #[trigger] has_edge(g, a, b) <==> a < b && b < n,
        forall|v: u32| #[trigger] g.contains_key(v) <==> v < n && n >= 2,
    ensures
        esl_feedback_arc_set(g).finite(),
        4 * esl_feedback_arc_set(g).len() <= n * (n - 1),
{
    assert forall|a: u32, b: u32| #[trigger]
        has_edge(g, a, b) <==> g.contains_key(a) && g.contains_key(b) && a < b by {
        assert(has_edge(g, a, b) <==> a < b && b < n);
    }
    lemma_tournament_keeps_every_edge(g);
    assert(n * (n - 1) >= 0) by (nonlinear_arith)
        requires
            n >= 0,
    ;
}

} // verus!
