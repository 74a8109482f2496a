//! The mathematical model of a directed graph.
//!
//! A graph is a finite map from each vertex to the sequence of its
//! out-neighbours. Everything the contracts of the crate say is phrased over
//! this map: edges, degrees, walks, cycles and the graphs that result from
//! adding or removing vertices and edges.

use vstd::prelude::*;

verus! {

/// The model of a graph: every vertex mapped to its out-neighbours in order.
pub type Adjacency = Map<u32, Seq<u32>>;

/// A graph is well formed when it has finitely many vertices, no neighbour
/// list names a vertex twice, and every neighbour is itself a vertex.
pub open spec fn well_formed(g: Adjacency) -> bool {
    &&& g.dom().finite()
    &&& forall|u: u32| g.contains_key(u) ==> #[trigger] g[u].no_duplicates()
    &&& forall|u: u32, i: int|
        g.contains_key(u) && 0 <= i < g[u].len() ==> g.contains_key(#[trigger] g[u][i])
}

/// Whether the graph holds the edge from `u` to `v`.
pub open spec fn has_edge(g: Adjacency, u: u32, v: u32) -> bool {
    g.contains_key(u) && g[u].contains(v)
}

/// The edges of the graph as a set of ordered pairs.
pub open spec fn edge_set(g: Adjacency) -> Set<(u32, u32)> {
    Set::new(|e: (u32, u32)| has_edge(g, e.0, e.1))
}

/// The number of edges.
pub open spec fn edge_count(g: Adjacency) -> nat {
    edge_set(g).len()
}

/// The vertices that have an edge into `v`.
pub open spec fn predecessors(g: Adjacency, v: u32) -> Set<u32> {
    Set::new(|u: u32| has_edge(g, u, v))
}

/// The number of edges that end in `v`.
pub open spec fn indegree(g: Adjacency, v: u32) -> nat {
    predecessors(g, v).len()
}

/// The order of vertex identifiers.
pub open spec fn id_leq() -> spec_fn(u32, u32) -> bool {
    |a: u32, b: u32| a <= b
}

/// The order by indegree, ties broken by the smaller identifier.
pub open spec fn indegree_leq(g: Adjacency) -> spec_fn(u32, u32) -> bool {
    |a: u32, b: u32|
        indegree(g, a) < indegree(g, b) || (indegree(g, a) == indegree(g, b) && a <= b)
}

/// The vertices by ascending indegree, ties broken by the smaller identifier.
pub open spec fn indegree_order(g: Adjacency) -> Seq<u32> {
    g.dom().to_sorted_seq(indegree_leq(g))
}

/// The vertices in ascending order of their identifiers.
pub open spec fn vertex_seq(g: Adjacency) -> Seq<u32> {
    g.dom().to_sorted_seq(id_leq())
}

/// The test "is not `v`".
pub open spec fn differs_from(v: u32) -> spec_fn(u32) -> bool {
    |w: u32| w != v
}

/// The test "belongs to `keep`".
pub open spec fn member_of(keep: Set<u32>) -> spec_fn(u32) -> bool {
    |w: u32| keep.contains(w)
}

/// The test "the edge from `u` to this vertex is not in `drop`".
pub open spec fn edge_stays(drop: Set<(u32, u32)>, u: u32) -> spec_fn(u32) -> bool {
    |w: u32| !drop.contains((u, w))
}

/// The test "has an edge into `v`".
pub open spec fn points_to(g: Adjacency, v: u32) -> spec_fn(u32) -> bool {
    |u: u32| g[u].contains(v)
}

/// Makes the edge from `u` to a given target.
pub open spec fn edge_out_of(u: u32) -> spec_fn(u32) -> (u32, u32) {
    |w: u32| (u, w)
}

/// Makes the edge from a given source to `v`.
pub open spec fn edge_into(v: u32) -> spec_fn(u32) -> (u32, u32) {
    |u: u32| (u, v)
}

/// The edges that leave `u`, in the order of its neighbour list.
pub open spec fn out_edges(g: Adjacency, u: u32) -> Seq<(u32, u32)> {
    g[u].map_values(edge_out_of(u))
}

/// The edges that enter `v`, by ascending source.
pub open spec fn in_edges(g: Adjacency, v: u32) -> Seq<(u32, u32)> {
    vertex_seq(g).filter(points_to(g, v)).map_values(edge_into(v))
}

/// The out-edges of the vertices in `vs`, one vertex after the other.
pub open spec fn edges_from(g: Adjacency, vs: Seq<u32>) -> Seq<(u32, u32)>
    decreases vs.len(),
{
    if vs.len() == 0 {
        Seq::empty()
    } else {
        edges_from(g, vs.drop_last()) + out_edges(g, vs.last())
    }
}

/// Every edge of the graph: by ascending source, then in neighbour-list order.
pub open spec fn edge_seq(g: Adjacency) -> Seq<(u32, u32)> {
    edges_from(g, vertex_seq(g))
}

/// Whether `v` is the source or the target of `e`.
pub open spec fn touches(e: (u32, u32), v: u32) -> bool {
    e.0 == v || e.1 == v
}

/// The graph with `v` added as a vertex, unless it is one already.
pub open spec fn with_vertex(g: Adjacency, v: u32) -> Adjacency {
    if g.contains_key(v) {
        g
    } else {
        g.insert(v, Seq::empty())
    }
}

/// The graph with the edge `e` added: both endpoints become vertices, and the
/// target is appended to the source's neighbour list unless it is there.
pub open spec fn with_edge(g: Adjacency, e: (u32, u32)) -> Adjacency {
    let g1 = with_vertex(g, e.0);
    let g2 = if g1[e.0].contains(e.1) {
        g1
    } else {
        g1.insert(e.0, g1[e.0].push(e.1))
    };
    with_vertex(g2, e.1)
}

/// The graph after adding each vertex of `vs`.
pub open spec fn with_vertices(g: Adjacency, vs: Seq<u32>) -> Adjacency
    decreases vs.len(),
{
    if vs.len() == 0 {
        g
    } else {
        with_vertex(with_vertices(g, vs.drop_last()), vs.last())
    }
}

/// The graph after adding each edge of `es`, first to last.
pub open spec fn with_edges(g: Adjacency, es: Seq<(u32, u32)>) -> Adjacency
    decreases es.len(),
{
    if es.len() == 0 {
        g
    } else {
        with_edge(with_edges(g, es.drop_last()), es.last())
    }
}

/// The graph without the vertex `v` and without every edge that touches it.
pub open spec fn without_vertex(g: Adjacency, v: u32) -> Adjacency {
    Map::new(|u: u32| g.contains_key(u) && u != v, |u: u32| g[u].filter(differs_from(v)))
}

/// The graph without the edge `e`; the vertices stay.
pub open spec fn without_edge(g: Adjacency, e: (u32, u32)) -> Adjacency {
    if g.contains_key(e.0) {
        g.insert(e.0, g[e.0].filter(differs_from(e.1)))
    } else {
        g
    }
}

/// The graph without the edges in `drop`; the vertices stay.
pub open spec fn without_edges(g: Adjacency, drop: Set<(u32, u32)>) -> Adjacency {
    Map::new(|u: u32| g.contains_key(u), |u: u32| g[u].filter(edge_stays(drop, u)))
}

/// The subgraph induced by `keep`: exactly the vertices of `keep`, and the
/// edges of `g` with both endpoints in `keep`.
pub open spec fn induced(g: Adjacency, keep: Set<u32>) -> Adjacency {
    Map::new(
        |u: u32| keep.contains(u),
        |u: u32|
            if g.contains_key(u) {
                g[u].filter(member_of(keep))
            } else {
                Seq::empty()
            },
    )
}

/// The edges of `g` that lead from a vertex of `from` to a vertex of `to`.
pub open spec fn edges_between(g: Adjacency, from: Set<u32>, to: Set<u32>) -> Set<(u32, u32)> {
    Set::new(|e: (u32, u32)| has_edge(g, e.0, e.1) && from.contains(e.0) && to.contains(e.1))
}

/// Whether `v` is the source or the target of some edge.
pub open spec fn has_incident_edge(g: Adjacency, v: u32) -> bool {
    (exists|w: u32| has_edge(g, v, w)) || (exists|w: u32| has_edge(g, w, v))
}

/// Whether every neighbour list is in ascending order.
pub open spec fn ascending_lists(g: Adjacency) -> bool {
    forall|u: u32, i: int, j: int|
        g.contains_key(u) && 0 <= i < j < g[u].len() ==> (#[trigger] g[u][i]) < (#[trigger] g[u][j])
}

/// The place that the ordered pair `(a, b)` of different identifiers below
/// `n` has among all such pairs, taken by source and then by target.
pub open spec fn pair_place(n: int, a: int, b: int) -> int {
    a * (n - 1) + if b < a {
        b
    } else {
        b - 1
    }
}

/// A walk follows an edge from each of its vertices to the next.
pub open spec fn is_walk(g: Adjacency, p: Seq<u32>) -> bool {
    forall|i: int| 0 <= i < p.len() - 1 ==> has_edge(g, #[trigger] p[i], p[i + 1])
}

/// A closed walk has at least one edge and ends where it starts.
pub open spec fn is_closed_walk(g: Adjacency, p: Seq<u32>) -> bool {
    &&& p.len() >= 2
    &&& p.first() == p.last()
    &&& is_walk(g, p)
}

/// A graph is cyclic when it has a closed walk.
pub open spec fn is_cyclic(g: Adjacency) -> bool {
    exists|p: Seq<u32>| is_closed_walk(g, p)
}

} // verus!
