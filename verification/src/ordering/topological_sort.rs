//! The ordering of the vertices by indegree.
//!
//! The indegrees are taken once, from the graph as it stands: on a graph
//! with cycles the result is no topological order, only the ordering by
//! which the divide-and-conquer heuristic splits a graph in two.

use crate::graph::hash_table::{Direction, HashTable, VertexId};
use crate::graph::model::{indegree, indegree_leq, indegree_order};
use crate::graph::properties::lemma_in_edges_len;
use crate::graph::sequences::{lemma_push_contains, lemma_sorted_seq_unique};
use vstd::prelude::*;

verus! {

/// The vertices of `keyed`, without their indegrees.
pub open spec fn vertices_of(keyed: Seq<(usize, VertexId)>) -> Seq<VertexId> {
    keyed.map_values(|entry: (usize, VertexId)| entry.1)
}

/// A sorter for one graph.
pub struct TopologicalSort<'a> {
    graph: &'a HashTable,
}

impl<'a> TopologicalSort<'a> {
    /// The graph that the sorter looks at.
    pub closed spec fn graph(&self) -> HashTable {
        *self.graph
    }

    /// A sorter for `graph`.
    pub fn new(graph: &'a HashTable) -> (sorter: Self)
        ensures
            sorter.graph() == *graph,
    {
        TopologicalSort { graph }
    }

    /// Every vertex once, by ascending indegree; among vertices of equal
    /// indegree the smaller identifier comes first.
    pub fn sort_by_indegree_asc(&self) -> (sorted: Vec<VertexId>)
        requires
            self.graph().wf(),
        ensures
            sorted@ == indegree_order(self.graph()@),
            sorted@.no_duplicates(),
            sorted@.to_set() == self.graph()@.dom(),
            forall|i: int, j: int|
                0 <= i < j < sorted@.len() ==> indegree_leq(self.graph()@)(
                    #[trigger] sorted@[i],
                    #[trigger] sorted@[j],
                ),
    {
        let ghost g = self.graph@;
        let vertices = self.graph.vertices();
        let mut keyed: Vec<(usize, VertexId)> = Vec::new();
        let mut i: usize = 0;
        while i < vertices.len()
            invariant
                i <= vertices.len(),
                g == self.graph@,
                self.graph.wf(),
                vertices@.to_set() == g.dom(),
                forall|a: int, b: int| 0 <= a < b < vertices@.len() ==> vertices@[a] < vertices@[b],
                keyed@.len() == i,
                forall|k: int|
                    0 <= k < keyed@.len() ==> (#[trigger] keyed@[k]).0 == indegree(
                        g,
                        keyed@[k].1,
                    ),
                forall|a: int, b: int|
                    0 <= a < b < keyed@.len() ==> (#[trigger] keyed@[a]).0 < (
                    #[trigger] keyed@[b]).0 || (keyed@[a].0 == keyed@[b].0 && keyed@[a].1
                        < keyed@[b].1),
                forall|v: u32| #[trigger]
                    vertices_of(keyed@).contains(v) <==> vertices@.take(i as int).contains(v),
            decreases vertices.len() - i,
        {
            let v = vertices[i];
            let degree = self.graph.edges(v, Direction::Inbound).len();
            proof {
                lemma_in_edges_len(g, v);
            }
            let mut at: usize = 0;
            while at < keyed.len() && keyed[at].0 <= degree
                invariant
                    at <= keyed.len(),
                    forall|k: int| 0 <= k < at ==> (#[trigger] keyed@[k]).0 <= degree,
                decreases keyed.len() - at,
            {
                at += 1;
            }
            let ghost before = keyed@;
            keyed.insert(at, (degree, v));
            proof {
                assert forall|k: int| 0 <= k < before.len() implies (#[trigger] before[k]).1
                    < v by {
                    assert(vertices_of(before)[k] == before[k].1);
                    assert(vertices_of(before).contains(before[k].1));
                    let from = vertices@.take(i as int);
                    let j = choose|j: int| 0 <= j < from.len() && from[j] == before[k].1;
                    assert(vertices@[j] < vertices@[i as int]);
                }
                assert forall|a: int, b: int| 0 <= a < b < keyed@.len() implies (
                #[trigger] keyed@[a]).0 < (#[trigger] keyed@[b]).0 || (keyed@[a].0 == keyed@[b].0
                    && keyed@[a].1 < keyed@[b].1) by {
                    if a < at && b > at {
                        assert(before[a].0 < before[b - 1].0 || (before[a].0 == before[b - 1].0
                            && before[a].1 < before[b - 1].1));
                    } else if a > at {
                        assert(before[a - 1].0 < before[b - 1].0 || (before[a - 1].0 == before[b
                            - 1].0 && before[a - 1].1 < before[b - 1].1));
                    } else if b < at {
                        assert(before[a].0 < before[b].0 || (before[a].0 == before[b].0
                            && before[a].1 < before[b].1));
                    } else if a == at {
                        assert(before[b - 1].0 > degree) by {
                            assert(before[at as int].0 > degree);
                            if b - 1 > at {
                                assert(before[at as int].0 < before[b - 1].0 || (before[at as int].0
                                    == before[b - 1].0 && before[at as int].1 < before[b - 1].1));
                            }
                        }
                    } else {
                        assert(before[a].0 <= degree);
                        assert(before[a].1 < v);
                    }
                }
                assert(vertices_of(keyed@) == vertices_of(before).insert(at as int, v));
                assert(vertices@.take(i + 1) == vertices@.take(i as int).push(v));
                lemma_push_contains(vertices@.take(i as int), v);
                assert forall|x: u32| #[trigger]
                    vertices_of(keyed@).contains(x) <==> vertices_of(before).contains(x) || x
                        == v by {
                    let old_ids = vertices_of(before);
                    let new_ids = vertices_of(keyed@);
                    assert(new_ids[at as int] == v);
                    if new_ids.contains(x) {
                        let k = choose|k: int| 0 <= k < new_ids.len() && new_ids[k] == x;
                        if k < at {
                            assert(old_ids[k] == x);
                        } else if k > at {
                            assert(old_ids[k - 1] == x);
                        }
                    }
                    if old_ids.contains(x) {
                        let k = choose|k: int| 0 <= k < old_ids.len() && old_ids[k] == x;
                        if k < at {
                            assert(new_ids[k] == x);
                        } else {
                            assert(new_ids[k + 1] == x);
                        }
                    }
                }
            }
            i += 1;
        }
        let mut sorted: Vec<VertexId> = Vec::new();
        let mut k: usize = 0;
        while k < keyed.len()
            invariant
                k <= keyed.len(),
                sorted@ == vertices_of(keyed@).take(k as int),
            decreases keyed.len() - k,
        {
            sorted.push(keyed[k].1);
            assert(vertices_of(keyed@).take(k + 1) == vertices_of(keyed@).take(k as int).push(
                keyed@[k as int].1,
            ));
            k += 1;
        }
        proof {
            assert(vertices_of(keyed@).take(k as int) == vertices_of(keyed@));
            assert(vertices@.take(i as int) == vertices@);
            assert forall|a: int, b: int| 0 <= a < b < sorted@.len() implies indegree_leq(g)(
                #[trigger] sorted@[a],
                #[trigger] sorted@[b],
            ) && sorted@[a] != sorted@[b] by {
                assert(keyed@[a].0 < keyed@[b].0 || (keyed@[a].0 == keyed@[b].0 && keyed@[a].1
                    < keyed@[b].1));
                assert(keyed@[a].0 == indegree(g, keyed@[a].1));
                assert(keyed@[b].0 == indegree(g, keyed@[b].1));
            }
            assert forall|x: u32| sorted@.to_set().contains(x) <==> g.dom().contains(x) by {
                assert(sorted@.contains(x) <==> vertices@.contains(x));
                assert(vertices@.contains(x) <==> vertices@.to_set().contains(x));
            }
            assert(sorted@.to_set() =~= g.dom());
            lemma_sorted_seq_unique(sorted@, g.dom(), indegree_leq(g));
        }
        sorted
    }
}

} // verus!
