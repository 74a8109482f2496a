//! Exact cycle detection by depth-first search with three vertex states: not
//! yet seen, on the current search path, and finished.

use crate::graph::hash_table::{HashTable, VertexId};
use crate::graph::model::{has_edge, is_closed_walk, is_cyclic, is_walk, Adjacency};
use crate::graph::properties::lemma_edge_endpoints;
use crate::graph::sequences::lemma_push_contains;
use std::collections::BTreeMap;
use vstd::prelude::*;
use vstd::set_lib::lemma_len_subset;

verus! {

/// What the search knows of a vertex that it has reached. A vertex that it
/// has not reached has no mark.
#[derive(Clone, Copy)]
pub enum Mark {
    /// The vertex is on the current search path.
    InProgress,
    /// The search has left the vertex and everything that it reaches.
    Done,
}

/// Whether the search has finished with `u`.
pub open spec fn is_done(marks: Map<u32, Mark>, u: u32) -> bool {
    marks.contains_key(u) && marks[u] is Done
}

/// Whether `u` is on the current search path.
pub open spec fn is_in_progress(marks: Map<u32, Mark>, u: u32) -> bool {
    marks.contains_key(u) && marks[u] is InProgress
}

/// The invariant of the search: only vertices are marked, the search path
/// is a walk that holds exactly the vertices in progress, and no closed walk
/// passes through a finished vertex.
pub open spec fn search_state(g: Adjacency, marks: Map<u32, Mark>, path: Seq<u32>) -> bool {
    &&& forall|u: u32| #[trigger] marks.contains_key(u) ==> g.contains_key(u)
    &&& is_walk(g, path)
    &&& forall|u: u32| #[trigger] path.contains(u) <==> is_in_progress(marks, u)
    &&& forall|p: Seq<u32>, i: int|
        #![trigger is_closed_walk(g, p), p[i]]
        is_closed_walk(g, p) && 0 <= i < p.len() ==> !is_done(marks, p[i])
}

/// Every mark of `before` stands unchanged in `after`.
pub open spec fn marks_kept(before: Map<u32, Mark>, after: Map<u32, Mark>) -> bool {
    forall|u: u32| #[trigger]
        before.contains_key(u) ==> after.contains_key(u) && after[u] == before[u]
}

/// The search path from its first visit of `w` on, closed by a step back to
/// `w`, is a closed walk.
proof fn lemma_back_edge_closes_walk(g: Adjacency, path: Seq<u32>, w: u32)
    requires
        is_walk(g, path),
        path.len() > 0,
        path.contains(w),
        has_edge(g, path.last(), w),
    ensures
        is_cyclic(g),
{
    let k = choose|k: int| 0 <= k < path.len() && path[k] == w;
    let p = path.subrange(k, path.len() as int).push(w);
    assert forall|i: int| 0 <= i < p.len() - 1 implies has_edge(g, #[trigger] p[i], p[i + 1]) by {
        if i < p.len() - 2 {
            assert(has_edge(g, path[k + i], path[k + i + 1]));
        }
    }
    assert(is_closed_walk(g, p));
}

/// Once every successor of `v` is finished, and `v` has no edge to itself,
/// no closed walk passes through `v`.
proof fn lemma_finish(g: Adjacency, marks: Map<u32, Mark>, path: Seq<u32>, v: u32)
    requires
        search_state(g, marks, path.push(v)),
        !path.contains(v),
        forall|w: u32| #[trigger] has_edge(g, v, w) ==> is_done(marks, w),
    ensures
        search_state(g, marks.insert(v, Mark::Done), path),
{
    let after = marks.insert(v, Mark::Done);
    let stack = path.push(v);
    lemma_push_contains(path, v);
    assert(stack.contains(v));
    assert(is_in_progress(marks, v));
    assert(is_walk(g, path)) by {
        assert forall|i: int| 0 <= i < path.len() - 1 implies has_edge(
            g,
            #[trigger] path[i],
            path[i + 1],
        ) by {
            assert(has_edge(g, stack[i], stack[i + 1]));
        }
    }
    assert forall|u: u32| #[trigger] path.contains(u) <==> is_in_progress(after, u) by {
        assert(stack.contains(u) <==> is_in_progress(marks, u));
    }
    assert forall|p: Seq<u32>, i: int|
        #![trigger is_closed_walk(g, p), p[i]]
        is_closed_walk(g, p) && 0 <= i < p.len() implies !is_done(after, p[i]) by {
        if p[i] == v {
            let next = if i < p.len() - 1 {
                i + 1
            } else {
                1
            };
            assert(has_edge(g, p[next - 1], p[next]));
            assert(has_edge(g, v, p[next]));
            assert(is_done(marks, p[next]));
            assert(!is_done(marks, p[next]));
        } else {
            assert(!is_done(marks, p[i]));
        }
    }
}

/// A cycle detector for one graph.
pub struct CycleDetection<'a> {
    graph: &'a HashTable,
}

impl<'a> CycleDetection<'a> {
    /// The graph that the detector looks at.
    pub closed spec fn graph(&self) -> HashTable {
        *self.graph
    }

    /// A detector for `graph`.
    pub fn new(graph: &'a HashTable) -> (detector: Self)
        ensures
            detector.graph() == *graph,
    {
        CycleDetection { graph }
    }

    /// Whether the graph has a directed cycle; a vertex with an edge to
    /// itself is one.
    pub fn is_cyclic(&self) -> (cyclic: bool)
        requires
            self.graph().wf(),
        ensures
            cyclic == is_cyclic(self.graph()@),
    {
        let vertices = self.graph.vertices();
        let mut marks: BTreeMap<VertexId, Mark> = BTreeMap::new();
        let mut i: usize = 0;
        assert(search_state(self.graph@, marks@, Seq::empty()));
        while i < vertices.len()
            invariant
                i <= vertices.len(),
                self.graph.wf(),
                vertices@.to_set() == self.graph@.dom(),
                search_state(self.graph@, marks@, Seq::empty()),
                forall|j: int| 0 <= j < i ==> is_done(marks@, #[trigger] vertices@[j]),
            decreases vertices.len() - i,
        {
            let v = vertices[i];
            assert(vertices@.to_set().contains(v));
            if !marks.contains_key(&v) {
                let ghost before = marks@;
                if self.visit(v, &mut marks, Ghost(Seq::empty())) {
                    return true;
                }
                assert forall|j: int| 0 <= j < i implies is_done(
                    marks@,
                    #[trigger] vertices@[j],
                ) by {
                    assert(is_done(before, vertices@[j]));
                }
            } else {
                assert(!Seq::<u32>::empty().contains(v));
            }
            i += 1;
        }
        proof {
            assert forall|p: Seq<u32>| !is_closed_walk(self.graph@, p) by {
                if is_closed_walk(self.graph@, p) {
                    assert(has_edge(self.graph@, p[0], p[1]));
                    assert(vertices@.to_set().contains(p[0]));
                    let j = choose|j: int| 0 <= j < vertices@.len() && vertices@[j] == p[0];
                    assert(is_done(marks@, vertices@[j]));
                }
            }
        }
        false
    }

    /// Searches from the unmarked vertex `v`, which the last vertex of the
    /// search path has an edge to. Reports a cycle as soon as an edge leads
    /// back into the path; otherwise finishes `v` and all that it reaches.
    fn visit(
        &self,
        v: VertexId,
        marks: &mut BTreeMap<VertexId, Mark>,
        Ghost(path): Ghost<Seq<VertexId>>,
    ) -> (found: bool)
        requires
            self.graph().wf(),
            self.graph()@.contains_key(v),
            !old(marks)@.contains_key(v),
            search_state(self.graph()@, old(marks)@, path),
            path.len() > 0 ==> has_edge(self.graph()@, path.last(), v),
        ensures
            found ==> is_cyclic(self.graph()@),
            !found ==> search_state(self.graph()@, final(marks)@, path),
            !found ==> is_done(final(marks)@, v),
            !found ==> marks_kept(old(marks)@, final(marks)@),
        decreases self.graph()@.dom().len() - old(marks)@.dom().len(),
    {
        let ghost g = self.graph@;
        let ghost stack = path.push(v);
        marks.insert(v, Mark::InProgress);
        proof {
            lemma_push_contains(path, v);
            assert(is_walk(g, stack)) by {
                assert forall|i: int| 0 <= i < stack.len() - 1 implies has_edge(
                    g,
                    #[trigger] stack[i],
                    stack[i + 1],
                ) by {
                    if i < path.len() - 1 {
                        assert(has_edge(g, path[i], path[i + 1]));
                    }
                }
            }
            assert forall|u: u32| #[trigger] stack.contains(u) <==> is_in_progress(marks@, u) by {
                assert(path.contains(u) <==> is_in_progress(old(marks)@, u));
            }
            assert forall|p: Seq<u32>, i: int|
                #![trigger is_closed_walk(g, p), p[i]]
                is_closed_walk(g, p) && 0 <= i < p.len() implies !is_done(marks@, p[i]) by {
                assert(!is_done(old(marks)@, p[i]));
            }
            assert(!path.contains(v));
        }
        let list = self.graph.neighborhood(&v);
        let mut i: usize = 0;
        while i < list.len()
            invariant
                i <= list.len(),
                g == self.graph@,
                stack == path.push(v),
                self.graph.wf(),
                list@ == g[v],
                g.contains_key(v),
                !old(marks)@.contains_key(v),
                search_state(g, marks@, stack),
                marks_kept(old(marks)@.insert(v, Mark::InProgress), marks@),
                forall|j: int| 0 <= j < i ==> is_done(marks@, #[trigger] list@[j]),
            decreases list.len() - i,
        {
            let w = list[i];
            proof {
                assert(g[v].contains(w));
                lemma_edge_endpoints(g, v, w);
            }
            let reached = marks.get(&w);
            match reached {
                Some(mark) => {
                    match *mark {
                        Mark::InProgress => {
                            proof {
                                assert(stack.contains(w));
                                lemma_back_edge_closes_walk(g, stack, w);
                            }
                            return true;
                        },
                        Mark::Done => {},
                    }
                },
                None => {
                    let ghost before = marks@;
                    proof {
                        let entry = old(marks)@.dom();
                        assert(entry.insert(v).subset_of(before.dom())) by {
                            assert forall|u: u32| entry.insert(v).contains(u) implies before.dom().contains(
                                u,
                            ) by {
                                assert(old(marks)@.insert(v, Mark::InProgress).contains_key(u));
                            }
                        }
                        assert(before.dom().subset_of(g.dom()));
                        lemma_len_subset(entry.insert(v), before.dom());
                        lemma_len_subset(before.dom(), g.dom());
                        assert(old(marks)@.dom().finite());
                        assert(!entry.contains(v));
                        assert(entry.insert(v).len() == entry.len() + 1);
                        assert(g.dom().len() - before.dom().len() < g.dom().len() - entry.len());
                    }
                    if self.visit(w, marks, Ghost(stack)) {
                        return true;
                    }
                    assert forall|j: int| 0 <= j < i implies is_done(
                        marks@,
                        #[trigger] list@[j],
                    ) by {
                        assert(is_done(before, list@[j]));
                    }
                },
            }
            i += 1;
        }
        proof {
            assert forall|w: u32| #[trigger] has_edge(g, v, w) implies is_done(marks@, w) by {
                let j = choose|j: int| 0 <= j < list@.len() && list@[j] == w;
                assert(is_done(marks@, list@[j]));
            }
            lemma_finish(g, marks@, path, v);
        }
        let ghost last = marks@;
        marks.insert(v, Mark::Done);
        proof {
            assert forall|u: u32| #[trigger] old(marks)@.contains_key(u) implies marks@.contains_key(
                u,
            ) && marks@[u] == old(marks)@[u] by {
                assert(old(marks)@.insert(v, Mark::InProgress).contains_key(u));
                assert(last[u] == old(marks)@.insert(v, Mark::InProgress)[u]);
            }
        }
        false
    }
}

} // verus!
