//! An adjacency-list store for directed graphs.

use crate::graph::model::{
    ascending_lists, differs_from, edge_count, edge_into, edge_out_of, edge_seq, edge_set,
    edges_between, edges_from, has_edge, has_incident_edge, id_leq, in_edges, induced, is_cyclic,
    member_of, out_edges, pair_place, points_to, touches, vertex_seq, well_formed, with_edge,
    with_edges, with_vertex, with_vertices, without_edge, without_vertex, Adjacency,
};
use crate::graph::properties::{
    lemma_ascending_after_edge, lemma_edge_count_bound, lemma_edge_seq, lemma_incident_after_edge,
    lemma_induced, lemma_nothing_to_do, lemma_with_edge, lemma_with_edges, lemma_with_vertex,
    lemma_with_vertices, lemma_without_edge, lemma_without_vertex,
};
use crate::graph::sequences::{
    lemma_filter_all, lemma_push_contains, lemma_remove_is_filter, lemma_sorted_seq_unique,
};
use crate::tools::cycle::CycleDetection;
use rand::Rng;
use std::collections::{BTreeMap, BTreeSet, HashSet};
use vstd::prelude::*;
use vstd::std_specs::cmp::OrdSpec;
use vstd::std_specs::iter::IteratorSpec;

verus! {

/// The identifier of a vertex.
pub type VertexId = u32;

/// A directed edge: source, then target.
pub type Edge = (VertexId, VertexId);

/// The side of a vertex from which its edges are taken.
pub enum Direction {
    Inbound,
    Outbound,
}

/// Marks the types that store a graph.
pub trait GraphDataStructure {

}

/// A directed graph as a map from each vertex to the list of its
/// out-neighbours, walked in ascending order of the vertex identifiers.
#[derive(Debug)]
pub struct HashTable {
    data: BTreeMap<VertexId, Vec<VertexId>>,
}

impl GraphDataStructure for HashTable {

}

impl View for HashTable {
    type V = Adjacency;

    /// The model of the graph: each vertex with its out-neighbours in the
    /// order in which they were added.
    closed spec fn view(&self) -> Adjacency {
        self.data@.map_values(|l: Vec<VertexId>| l@)
    }
}

impl Clone for HashTable {
    /// A graph of its own with the same vertices and edges.
    fn clone(&self) -> (copy: Self)
        ensures
            copy@ == self@,
    {
        HashTable { data: self.data.clone() }
    }
}

/// The keys of the store in the order in which the map walks them.
fn sorted_keys(data: &BTreeMap<VertexId, Vec<VertexId>>) -> (keys: Vec<VertexId>)
    ensures
        keys@.to_set() == data@.dom(),
        forall|i: int, j: int| 0 <= i < j < keys@.len() ==> keys@[i] < keys@[j],
{
    let mut keys: Vec<VertexId> = Vec::new();
    let ghost all = data.keys().remaining();
    proof {
        vstd::std_specs::btree::axiom_spec_keys_iter(data);
        vstd::std_specs::btree::axiom_increasing_seq_meaning::<&u32>(all);
        assert forall|i: int, j: int| 0 <= i < j < all.len() implies *all[i] < *all[j] by {
            assert(OrdSpec::cmp_spec(&all[i], &all[j]) is Less);
        }
    }
    for k in it: data.keys()
        invariant
            it.seq() == all,
            keys@ == all.take(it.index()).unref(),
    {
        keys.push(*k);
    }
    assert(keys@ == all.unref());
    keys
}

/// The first place of `list` that holds `v`, if there is one.
fn position(list: &[VertexId], v: VertexId) -> (found: Option<usize>)
    ensures
        match found {
            Some(i) => i < list.len() && list[i as int] == v && forall|j: int|
                0 <= j < i ==> list[j] != v,
            None => !list@.contains(v),
        },
{
    let mut i: usize = 0;
    while i < list.len()
        invariant
            i <= list.len(),
            forall|j: int| 0 <= j < i ==> list[j] != v,
        decreases list.len() - i,
    {
        if list[i] == v {
            return Some(i);
        }
        i += 1;
    }
    None
}

impl HashTable {
    /// The invariant of the store: its model is a well-formed graph.
    pub open spec fn wf(&self) -> bool {
        well_formed(self@)
    }

    /// An empty graph.
    pub fn new() -> (g: Self)
        ensures
            g@ == Map::<u32, Seq<u32>>::empty(),
            g.wf(),
    {
        let g = HashTable { data: BTreeMap::new() };
        assert(g@ =~= Map::<u32, Seq<u32>>::empty());
        g
    }

    /// The number of vertices.
    pub fn order(&self) -> (n: usize)
        ensures
            n == self@.dom().len(),
    {
        assert(self@.dom() =~= self.data@.dom());
        self.data.len()
    }

    /// The vertices in ascending order.
    pub fn vertices(&self) -> (vs: Vec<VertexId>)
        ensures
            vs@ == vertex_seq(self@),
            vs@.no_duplicates(),
            vs@.to_set() == self@.dom(),
            forall|i: int, j: int| 0 <= i < j < vs@.len() ==> vs@[i] < vs@[j],
    {
        let vs = sorted_keys(&self.data);
        proof {
            assert(self@.dom() =~= self.data@.dom());
            lemma_sorted_seq_unique(vs@, self@.dom(), id_leq());
        }
        vs
    }

    /// The number of out-neighbours of `u`, which must be a vertex.
    pub fn degree(&self, u: VertexId) -> (n: usize)
        requires
            self@.contains_key(u),
        ensures
            n == self@[u].len(),
    {
        self.data.get(&u).unwrap().len()
    }

    /// The out-neighbours of `v` in the order in which they were added;
    /// nothing where `v` is no vertex.
    pub fn neighborhood(&self, v: &VertexId) -> (list: &[VertexId])
        ensures
            list@ == (if self@.contains_key(*v) {
                self@[*v]
            } else {
                Seq::empty()
            }),
    {
        match self.data.get(v) {
            Some(neighbors) => neighbors.as_slice(),
            None => &[],
        }
    }

    /// Whether the edge from `u` to `v` exists.
    pub fn has_edge(&self, u: VertexId, v: VertexId) -> (found: bool)
        ensures
            found == has_edge(self@, u, v),
    {
        match self.data.get(&u) {
            Some(list) => position(list.as_slice(), v).is_some(),
            None => false,
        }
    }

    /// Makes `v` a vertex, without edges, unless it is one already.
    pub fn add_vertex(&mut self, v: VertexId)
        requires
            old(self).wf(),
        ensures
            final(self)@ == with_vertex(old(self)@, v),
            final(self).wf(),
    {
        if !self.data.contains_key(&v) {
            self.data.insert(v, Vec::new());
        }
        assert(self@ =~= with_vertex(old(self)@, v));
        proof {
            lemma_with_vertex(old(self)@, v);
        }
    }

    /// Adds the edge `e` and, where they are missing, its endpoints. Adding
    /// an edge that is there changes nothing.
    pub fn add_edge(&mut self, e: Edge)
        requires
            old(self).wf(),
        ensures
            final(self)@ == with_edge(old(self)@, e),
            final(self).wf(),
            has_edge(old(self)@, e.0, e.1) ==> final(self)@ == old(self)@,
    {
        proof {
            lemma_nothing_to_do(old(self)@, e, e.0);
        }
        self.add_vertex(e.0);
        assert(self@.contains_key(e.0));
        let mut list = self.data.remove(&e.0).unwrap();
        if position(list.as_slice(), e.1).is_none() {
            list.push(e.1);
        }
        self.data.insert(e.0, list);
        assert(self@ =~= {
            let g1 = with_vertex(old(self)@, e.0);
            if g1[e.0].contains(e.1) {
                g1
            } else {
                g1.insert(e.0, g1[e.0].push(e.1))
            }
        });
        proof {
            lemma_with_edge(old(self)@, e);
        }
        if !self.data.contains_key(&e.1) {
            self.data.insert(e.1, Vec::new());
        }
        assert(self@ =~= with_edge(old(self)@, e));
    }

    /// Removes the edge `e` if it is there; the endpoints stay.
    pub fn remove_edge(&mut self, e: Edge)
        requires
            old(self).wf(),
        ensures
            final(self)@ == without_edge(old(self)@, e),
            final(self).wf(),
            !has_edge(old(self)@, e.0, e.1) ==> final(self)@ == old(self)@,
    {
        proof {
            lemma_nothing_to_do(old(self)@, e, e.0);
        }
        match self.data.remove(&e.0) {
            Some(mut list) => {
                proof {
                    lemma_without_edge(old(self)@, e);
                }
                match position(list.as_slice(), e.1) {
                    Some(index) => {
                        proof {
                            assert(list@ == old(self)@[e.0]);
                            assert(old(self)@[e.0].no_duplicates());
                            lemma_remove_is_filter(list@, index as int, differs_from(e.1));
                        }
                        list.remove(index);
                    },
                    None => {
                        proof {
                            lemma_filter_all(list@, differs_from(e.1));
                        }
                    },
                }
                self.data.insert(e.0, list);
                assert(self@ =~= without_edge(old(self)@, e));
            },
            None => {
                assert(self@ =~= old(self)@);
            },
        }
    }

    /// Removes `v` and every edge that starts or ends in it; nothing happens
    /// where `v` is no vertex.
    pub fn remove_vertex(&mut self, v: VertexId)
        requires
            old(self).wf(),
        ensures
            final(self)@ == without_vertex(old(self)@, v),
            final(self).wf(),
            !old(self)@.contains_key(v) ==> final(self)@ == old(self)@,
    {
        proof {
            lemma_nothing_to_do(old(self)@, (v, v), v);
        }
        let keys = sorted_keys(&self.data);
        let mut i: usize = 0;
        while i < keys.len()
            invariant
                i <= keys.len(),
                old(self).wf(),
                keys@.to_set() == old(self)@.dom(),
                forall|a: int, b: int| 0 <= a < b < keys@.len() ==> keys@[a] < keys@[b],
                self@.dom() == old(self)@.dom(),
                forall|j: int|
                    0 <= j < i ==> self@[#[trigger] keys@[j]] == old(self)@[keys@[j]].filter(
                        differs_from(v),
                    ),
                forall|j: int|
                    i <= j < keys.len() ==> self@[#[trigger] keys@[j]] == old(self)@[keys@[j]],
            decreases keys.len() - i,
        {
            let u = keys[i];
            assert(keys@.to_set().contains(u));
            assert(self@.contains_key(u));
            let mut list = self.data.remove(&u).unwrap();
            proof {
                assert(list@ == old(self)@[u]);
                assert(old(self)@[u].no_duplicates());
            }
            match position(list.as_slice(), v) {
                Some(index) => {
                    proof {
                        lemma_remove_is_filter(list@, index as int, differs_from(v));
                    }
                    list.remove(index);
                },
                None => {
                    proof {
                        lemma_filter_all(list@, differs_from(v));
                    }
                },
            }
            self.data.insert(u, list);
            assert(self@.dom() =~= old(self)@.dom());
            i += 1;
        }
        self.data.remove(&v);
        proof {
            assert forall|u: VertexId| old(self)@.contains_key(u) && u != v implies self@[u] == old(
                self,
            )@[u].filter(differs_from(v)) by {
                assert(keys@.to_set().contains(u));
                let j = choose|j: int| 0 <= j < keys@.len() && keys@[j] == u;
                assert(self@[keys@[j]] == old(self)@[keys@[j]].filter(differs_from(v)));
            }
            assert(self@ =~= without_vertex(old(self)@, v));
            lemma_without_vertex(old(self)@, v);
        }
    }

    /// The edges at `v`: those that leave it, in neighbour-list order, or
    /// those that enter it, by ascending source. To ask for the edges that
    /// leave it, `v` must be a vertex.
    pub fn edges(&self, v: VertexId, d: Direction) -> (es: Vec<Edge>)
        requires
            self.wf(),
            d is Outbound ==> self@.contains_key(v),
        ensures
            es@ == (match d {
                Direction::Outbound => out_edges(self@, v),
                Direction::Inbound => in_edges(self@, v),
            }),
    {
        let mut es: Vec<Edge> = Vec::new();
        match d {
            Direction::Outbound => {
                let list = self.data.get(&v).unwrap();
                let mut i: usize = 0;
                while i < list.len()
                    invariant
                        i <= list.len(),
                        list@ == self@[v],
                        es@ == list@.take(i as int).map_values(edge_out_of(v)),
                    decreases list.len() - i,
                {
                    es.push((v, list[i]));
                    assert(list@.take(i + 1) == list@.take(i as int).push(list@[i as int]));
                    assert(es@ == list@.take(i + 1).map_values(edge_out_of(v)));
                    i += 1;
                }
                assert(list@.take(i as int) == list@);
            },
            Direction::Inbound => {
                let keys = self.vertices();
                let mut i: usize = 0;
                while i < keys.len()
                    invariant
                        i <= keys.len(),
                        keys@ == vertex_seq(self@),
                        keys@.to_set() == self@.dom(),
                        es@ == keys@.take(i as int).filter(points_to(self@, v)).map_values(
                            edge_into(v),
                        ),
                    decreases keys.len() - i,
                {
                    let u = keys[i];
                    let ghost before = keys@.take(i as int);
                    proof {
                        assert(keys@.to_set().contains(u));
                        assert(keys@.take(i + 1) == before.push(u));
                        before.lemma_filter_push(u, points_to(self@, v));
                    }
                    if self.has_edge(u, v) {
                        es.push((u, v));
                        assert(es@ == before.push(u).filter(points_to(self@, v)).map_values(
                            edge_into(v),
                        ));
                    }
                    i += 1;
                }
                assert(keys@.take(i as int) == keys@);
            },
        }
        es
    }

    /// Every edge: by ascending source, then in neighbour-list order.
    pub fn all_edges(&self) -> (es: Vec<Edge>)
        requires
            self.wf(),
        ensures
            es@ == edge_seq(self@),
            es@.no_duplicates(),
            es@.to_set() == edge_set(self@),
    {
        let keys = self.vertices();
        let mut es: Vec<Edge> = Vec::new();
        let mut i: usize = 0;
        while i < keys.len()
            invariant
                i <= keys.len(),
                self.wf(),
                keys@.to_set() == self@.dom(),
                es@ == edges_from(self@, keys@.take(i as int)),
            decreases keys.len() - i,
        {
            let u = keys[i];
            assert(keys@.to_set().contains(u));
            let mut out = self.edges(u, Direction::Outbound);
            es.append(&mut out);
            proof {
                assert(keys@.take(i + 1).drop_last() == keys@.take(i as int));
            }
            i += 1;
        }
        proof {
            assert(keys@.take(i as int) == keys@);
            lemma_edge_seq(self@);
        }
        es
    }

    /// The number of edges, in a type wide enough for any graph.
    pub(crate) fn edge_total(&self) -> (n: u128)
        requires
            self.wf(),
        ensures
            n == edge_count(self@),
    {
        let keys = self.vertices();
        let mut total: u128 = 0;
        let mut i: usize = 0;
        while i < keys.len()
            invariant
                i <= keys.len(),
                self.wf(),
                keys@.to_set() == self@.dom(),
                total == edges_from(self@, keys@.take(i as int)).len(),
                total <= i * 0xFFFF_FFFF_FFFF_FFFF,
            decreases keys.len() - i,
        {
            let u = keys[i];
            assert(keys@.to_set().contains(u));
            let degree = self.degree(u);
            proof {
                assert(keys@.take(i + 1).drop_last() == keys@.take(i as int));
            }
            total = total + degree as u128;
            i += 1;
        }
        proof {
            assert(keys@.take(i as int) == keys@);
            lemma_edge_seq(self@);
        }
        total
    }

    /// The number of edges, which must fit the result type.
    pub fn edge_count(&self) -> (n: usize)
        requires
            self.wf(),
            edge_count(self@) <= usize::MAX,
        ensures
            n == edge_count(self@),
    {
        self.edge_total() as usize
    }

    /// The graph that holds exactly the given edges and their endpoints.
    pub fn from_edges(edges: &[Edge]) -> (g: Self)
        ensures
            g@ == with_edges(Map::empty(), edges@),
            g.wf(),
            forall|a: u32, b: u32| #[trigger] has_edge(g@, a, b) <==> edges@.contains((a, b)),
            forall|v: u32| #[trigger]
                g@.contains_key(v) <==> exists|i: int|
                    0 <= i < edges@.len() && touches(#[trigger] edges@[i], v),
            edge_count(g@) <= edges@.len(),
    {
        let mut g = HashTable::new();
        let mut i: usize = 0;
        while i < edges.len()
            invariant
                i <= edges.len(),
                g.wf(),
                g@ == with_edges(Map::empty(), edges@.take(i as int)),
            decreases edges.len() - i,
        {
            g.add_edge(edges[i]);
            assert(edges@.take(i + 1).drop_last() == edges@.take(i as int));
            i += 1;
        }
        proof {
            assert(edges@.take(i as int) == edges@);
            lemma_with_edges(Map::empty(), edges@);
            lemma_edge_count_bound(g@, edges@);
        }
        g
    }

    /// The graph that holds the given vertices, the given edges and the
    /// endpoints of those edges: a vertex without edges is kept.
    pub fn from_vertices_and_edges(vertices: &[VertexId], edges: &[Edge]) -> (g: Self)
        ensures
            g@ == with_edges(with_vertices(Map::empty(), vertices@), edges@),
            g.wf(),
            forall|a: u32, b: u32| #[trigger] has_edge(g@, a, b) <==> edges@.contains((a, b)),
            forall|v: u32| #[trigger]
                g@.contains_key(v) <==> vertices@.contains(v) || exists|i: int|
                    0 <= i < edges@.len() && touches(#[trigger] edges@[i], v),
            edge_count(g@) <= edges@.len(),
    {
        let mut g = HashTable::new();
        let mut k: usize = 0;
        while k < vertices.len()
            invariant
                k <= vertices.len(),
                g.wf(),
                g@ == with_vertices(Map::empty(), vertices@.take(k as int)),
            decreases vertices.len() - k,
        {
            g.add_vertex(vertices[k]);
            assert(vertices@.take(k + 1).drop_last() == vertices@.take(k as int));
            k += 1;
        }
        assert(vertices@.take(k as int) == vertices@);
        let ghost base = g@;
        let mut i: usize = 0;
        while i < edges.len()
            invariant
                i <= edges.len(),
                g.wf(),
                g@ == with_edges(base, edges@.take(i as int)),
            decreases edges.len() - i,
        {
            g.add_edge(edges[i]);
            assert(edges@.take(i + 1).drop_last() == edges@.take(i as int));
            i += 1;
        }
        proof {
            assert(edges@.take(i as int) == edges@);
            lemma_with_vertices(Map::empty(), vertices@);
            lemma_with_edges(base, edges@);
            lemma_edge_count_bound(g@, edges@);
        }
        g
    }

    /// The subgraph that `vertices_to_keep` induces: those vertices, whether
    /// or not `graph` has them, and the edges of `graph` between them.
    pub fn from_graph(graph: &HashTable, vertices_to_keep: &[VertexId]) -> (g: HashTable)
        requires
            graph.wf(),
        ensures
            g@ == induced(graph@, vertices_to_keep@.to_set()),
            g.wf(),
    {
        let ghost keep = vertices_to_keep@.to_set();
        let mut g = HashTable::new();
        let mut k: usize = 0;
        while k < vertices_to_keep.len()
            invariant
                k <= vertices_to_keep.len(),
                keep == vertices_to_keep@.to_set(),
                g@.dom() == vertices_to_keep@.take(k as int).to_set(),
                forall|u: u32| #[trigger]
                    g@.contains_key(u) ==> g@[u] == induced(graph@, keep)[u],
            decreases vertices_to_keep.len() - k,
        {
            let u = vertices_to_keep[k];
            let list = graph.neighborhood(&u);
            let mut kept: Vec<VertexId> = Vec::new();
            let mut i: usize = 0;
            while i < list.len()
                invariant
                    i <= list.len(),
                    keep == vertices_to_keep@.to_set(),
                    kept@ == list@.take(i as int).filter(member_of(keep)),
                decreases list.len() - i,
            {
                let w = list[i];
                proof {
                    assert(list@.take(i + 1) == list@.take(i as int).push(w));
                    list@.take(i as int).lemma_filter_push(w, member_of(keep));
                }
                if position(vertices_to_keep, w).is_some() {
                    kept.push(w);
                }
                i += 1;
            }
            proof {
                assert(list@.take(i as int) == list@);
                assert(keep.contains(u));
                if !graph@.contains_key(u) {
                    assert(Seq::<u32>::empty().filter(member_of(keep)) == Seq::<u32>::empty()) by {
                        reveal(Seq::filter);
                    }
                }
                assert(kept@ == induced(graph@, keep)[u]);
            }
            let ghost before = g@;
            g.data.insert(u, kept);
            proof {
                assert(g@ =~= before.insert(u, kept@));
                assert(vertices_to_keep@.take(k + 1) == vertices_to_keep@.take(k as int).push(u));
                lemma_push_contains(vertices_to_keep@.take(k as int), u);
                assert(g@.dom() =~= vertices_to_keep@.take(k + 1).to_set());
            }
            k += 1;
        }
        proof {
            assert(vertices_to_keep@.take(k as int) == vertices_to_keep@);
            assert(g@ =~= induced(graph@, keep));
            lemma_induced(graph@, keep);
        }
        g
    }

    /// The acyclic complete graph on the identifiers below `n`: every edge
    /// from a smaller to a larger identifier, each neighbour list ascending.
    /// With fewer than two identifiers there is no edge and so no vertex.
    pub fn complete(n: usize) -> (g: HashTable)
        ensures
            g.wf(),
            forall|a: u32, b: u32| #[trigger] has_edge(g@, a, b) <==> a < b && b < n,
            forall|v: u32| #[trigger] g@.contains_key(v) <==> v < n && n >= 2,
            ascending_lists(g@),
    {
        let mut graph = HashTable::new();
        let limit: u64 = if n > 0xFFFF_FFFF {
            0x1_0000_0000
        } else {
            n as u64
        };
        let mut u: u64 = 0;
        while u < limit
            invariant
                u <= limit <= 0x1_0000_0000,
                limit == n || (limit == 0x1_0000_0000 && n > limit),
                graph.wf(),
                ascending_lists(graph@),
                forall|a: u32, b: u32| #[trigger]
                    has_edge(graph@, a, b) <==> a < b && b < limit && a < u,
                forall|x: u32| #[trigger]
                    graph@.contains_key(x) <==> x < limit && limit >= 2 && u >= 1,
            decreases limit - u,
        {
            let mut v: u64 = u + 1;
            while v < limit
                invariant
                    u < v <= limit <= 0x1_0000_0000,
                    graph.wf(),
                    ascending_lists(graph@),
                    forall|a: u32, b: u32| #[trigger]
                        has_edge(graph@, a, b) <==> a < b && b < limit && (a < u || (a == u
                            && b < v)),
                    forall|x: u32| #[trigger]
                        graph@.contains_key(x) <==> (x < limit && limit >= 2 && u >= 1) || (x < v
                            && v >= u + 2),
                decreases limit - v,
            {
                let ghost before = graph@;
                graph.add_edge((u as u32, v as u32));
                proof {
                    lemma_with_edge(before, (u as u32, v as u32));
                    lemma_ascending_after_edge(before, (u as u32, v as u32));
                }
                v += 1;
            }
            u += 1;
        }
        graph
    }

    /// The graph on the identifiers below `n` that holds the ordered pair
    /// `(a, b)` of different identifiers exactly where the draw at the place
    /// of that pair is `true`. A vertex is kept where an edge touches it, and
    /// each neighbour list is ascending. There must be one draw for each of
    /// the `n * (n - 1)` pairs, taken by source and then by target.
    pub fn random(n: usize, draws: &[bool]) -> (g: HashTable)
        requires
            n <= 0x1_0000_0000,
            draws@.len() == n * (n - 1),
        ensures
            g.wf(),
            forall|a: u32, b: u32| #[trigger]
                has_edge(g@, a, b) <==> a != b && a < n && b < n && draws@[pair_place(
                    n as int,
                    a as int,
                    b as int,
                )],
            forall|v: u32| #[trigger] g@.contains_key(v) <==> has_incident_edge(g@, v),
            ascending_lists(g@),
    {
        let mut graph = HashTable::new();
        let mut next: usize = 0;
        let mut u: usize = 0;
        while u < n
            invariant
                u <= n <= 0x1_0000_0000,
                draws@.len() == n * (n - 1),
                next == u * (n - 1),
                graph.wf(),
                ascending_lists(graph@),
                forall|a: u32, b: u32| #[trigger]
                    has_edge(graph@, a, b) <==> a != b && a < u && b < n && draws@[pair_place(
                        n as int,
                        a as int,
                        b as int,
                    )],
                forall|x: u32| #[trigger] graph@.contains_key(x) <==> has_incident_edge(graph@, x),
            decreases n - u,
        {
            proof {
                assert((u + 1) * (n - 1) == u * (n - 1) + (n - 1)) by (nonlinear_arith);
                assert((u + 1) * (n - 1) <= n * (n - 1)) by (nonlinear_arith)
                    requires
                        u + 1 <= n,
                        n >= 1,
                ;
            }
            let mut v: usize = 0;
            while v < n
                invariant
                    u < n <= 0x1_0000_0000,
                    v <= n,
                    draws@.len() == n * (n - 1),
                    (u + 1) * (n - 1) == u * (n - 1) + (n - 1),
                    (u + 1) * (n - 1) <= n * (n - 1),
                    next == u * (n - 1) + (if v <= u {
                        v as int
                    } else {
                        v - 1
                    }),
                    graph.wf(),
                    ascending_lists(graph@),
                    forall|a: u32, b: u32| #[trigger]
                        has_edge(graph@, a, b) <==> a != b && b < n && (a < u || (a == u && b < v))
                            && draws@[pair_place(n as int, a as int, b as int)],
                    forall|x: u32| #[trigger]
                        graph@.contains_key(x) <==> has_incident_edge(graph@, x),
                decreases n - v,
            {
                if u != v {
                    assert(next == pair_place(n as int, u as int, v as int));
                    if draws[next] {
                        let ghost before = graph@;
                        graph.add_edge((u as u32, v as u32));
                        proof {
                            lemma_with_edge(before, (u as u32, v as u32));
                            lemma_incident_after_edge(before, (u as u32, v as u32));
                            lemma_ascending_after_edge(before, (u as u32, v as u32));
                        }
                    }
                    next += 1;
                }
                v += 1;
            }
            u += 1;
        }
        graph
    }

    /// The vertex at `place` of the vertices in ascending order.
    pub fn vertex_at(&self, place: usize) -> (v: VertexId)
        requires
            place < self@.dom().len(),
        ensures
            v == vertex_seq(self@)[place as int],
            self@.contains_key(v),
    {
        let vertices = self.vertices();
        proof {
            vertices@.unique_seq_to_set();
            assert(vertices@.to_set().contains(vertices@[place as int]));
        }
        vertices[place]
    }

    /// Some vertex of the graph, picked at random. The graph must have one.
    pub fn random_vertex(&self) -> (v: VertexId)
        requires
            self@.dom().len() > 0,
        ensures
            self@.contains_key(v),
    {
        let place = random_below(self.order());
        self.vertex_at(place)
    }

    /// The edges that start in `from_partition` and end in `to_partition`.
    pub fn edges_from_to(
        &self,
        from_partition: &HashSet<VertexId>,
        to_partition: &HashSet<VertexId>,
    ) -> (crossing: BTreeSet<Edge>)
        ensures
            crossing@ == edges_between(self@, from_partition@, to_partition@),
    {
        let ghost g = self@;
        let ghost wanted = edges_between(g, from_partition@, to_partition@);
        let mut crossing: BTreeSet<Edge> = BTreeSet::new();
        let ghost sources = from_partition.iter().remaining();
        proof {
            vstd::std_specs::hash::axiom_spec_hash_keys_iter(from_partition);
        }
        for source in it: from_partition.iter()
            invariant
                g == self@,
                it.seq() == sources,
                sources.unref().to_set() == from_partition@,
                wanted == edges_between(g, from_partition@, to_partition@),
                forall|e: Edge| #[trigger]
                    crossing@.contains(e) <==> wanted.contains(e) && exists|i: int|
                        0 <= i < it.index() && *sources[i] == e.0,
        {
            let list = self.neighborhood(source);
            let ghost found = crossing@;
            let mut k: usize = 0;
            while k < list.len()
                invariant
                    k <= list.len(),
                    g == self@,
                    list@ == (if g.contains_key(*source) {
                        g[*source]
                    } else {
                        Seq::empty()
                    }),
                    from_partition@.contains(*source),
                    wanted == edges_between(g, from_partition@, to_partition@),
                    forall|e: Edge| #[trigger]
                        crossing@.contains(e) <==> found.contains(e) || (e.0 == *source
                            && wanted.contains(e) && exists|m: int| 0 <= m < k && list@[m] == e.1),
                decreases list.len() - k,
            {
                let target = list[k];
                if to_partition.contains(&target) {
                    assert(g[*source].contains(target));
                    crossing.insert((*source, target));
                }
                k += 1;
            }
            proof {
                let at = it.index();
                assert(sources.unref()[at] == *source);
                assert(sources.unref().to_set().contains(*source));
                assert forall|e: Edge| #[trigger]
                    crossing@.contains(e) <==> wanted.contains(e) && exists|i: int|
                        0 <= i < at + 1 && *sources[i] == e.0 by {
                    if found.contains(e) {
                        let i = choose|i: int| 0 <= i < at && *sources[i] == e.0;
                        assert(0 <= i < at + 1 && *sources[i] == e.0);
                    }
                    if e.0 == *source && wanted.contains(e) {
                        assert(*sources[at] == e.0);
                        let m = choose|m: int| 0 <= m < g[e.0].len() && g[e.0][m] == e.1;
                        assert(list@[m] == e.1);
                    }
                    if wanted.contains(e) && exists|i: int| 0 <= i < at + 1 && *sources[i] == e.0 {
                        let i = choose|i: int| 0 <= i < at + 1 && *sources[i] == e.0;
                        if i < at {
                            assert(found.contains(e));
                        }
                    }
                }
            }
        }
        proof {
            assert forall|e: Edge| crossing@.contains(e) <==> wanted.contains(e) by {
                if wanted.contains(e) {
                    assert(sources.unref().to_set().contains(e.0));
                    let i = choose|i: int|
                        0 <= i < sources.unref().len() && sources.unref()[i] == e.0;
                    assert(*sources[i] == e.0);
                }
            }
            assert(crossing@ =~= wanted);
        }
        crossing
    }

    /// Whether the graph has a directed cycle.
    pub fn is_cyclic(&self) -> (cyclic: bool)
        requires
            self.wf(),
        ensures
            cyclic == is_cyclic(self@),
    {
        CycleDetection::new(self).is_cyclic()
    }
}

/// Calls `rand::Rng::gen_range` on the thread-local generator with the range
/// from zero up to, not including, `n`. Claimed of it: the number drawn lies
/// in that range. An empty range makes the call panic.
#[verifier::external_body]
fn random_below(n: usize) -> (drawn: usize)
    requires
        n > 0,
    ensures
        drawn < n,
{
    rand::thread_rng().gen_range(0..n)
}

} // verus!
