//! What the operations of the model do to vertices, edges and
//! well-formedness.

use crate::graph::model::{
    ascending_lists, differs_from, edge_count, edge_seq, edge_set, edge_stays, edges_from, has_edge,
    has_incident_edge, id_leq, in_edges, indegree, induced, is_closed_walk, is_cyclic, is_walk,
    member_of, out_edges, points_to, predecessors, touches, vertex_seq, well_formed, with_edge,
    with_edges, with_vertex, with_vertices, without_edge, without_edges, without_vertex, Adjacency,
};
use crate::graph::sequences::{
    lemma_concat_contains, lemma_drop_last_contains, lemma_filter_all, lemma_filter_no_duplicates,
    lemma_push_contains, lemma_sorted_seq_properties,
};
use vstd::prelude::*;
use vstd::seq_lib::lemma_no_dup_in_concat;
use vstd::set_lib::lemma_len_subset;

verus! {

/// Adding a vertex keeps a graph well formed, adds no edge and adds one
/// vertex at most.
pub proof fn lemma_with_vertex(g: Adjacency, v: u32)
    requires
        well_formed(g),
    ensures
        well_formed(with_vertex(g, v)),
        with_vertex(g, v).dom() == g.dom().insert(v),
        forall|x: u32| #[trigger]
            with_vertex(g, v).contains_key(x) <==> g.contains_key(x) || x == v,
        forall|a: u32, b: u32| #[trigger]
            has_edge(with_vertex(g, v), a, b) <==> has_edge(g, a, b),
{
    assert(with_vertex(g, v).dom() =~= g.dom().insert(v));
}

/// Adding an edge keeps a graph well formed; the edges are then the old ones
/// and the new one, the vertices the old ones and its endpoints.
pub proof fn lemma_with_edge(g: Adjacency, e: (u32, u32))
    requires
        well_formed(g),
    ensures
        well_formed(with_edge(g, e)),
        with_edge(g, e).dom() == g.dom().insert(e.0).insert(e.1),
        forall|x: u32| #[trigger]
            with_edge(g, e).contains_key(x) <==> g.contains_key(x) || touches(e, x),
        forall|a: u32, b: u32| #[trigger]
            has_edge(with_edge(g, e), a, b) <==> has_edge(g, a, b) || (a, b) == e,
{
    let g1 = with_vertex(g, e.0);
    lemma_with_vertex(g, e.0);
    let g2 = if g1[e.0].contains(e.1) {
        g1
    } else {
        g1.insert(e.0, g1[e.0].push(e.1))
    };
    let g3 = with_vertex(g2, e.1);
    assert(g3.dom() =~= g.dom().insert(e.0).insert(e.1));
    let l = g1[e.0];
    lemma_push_contains(l, e.1);
    assert forall|u: u32, i: int| g3.contains_key(u) && 0 <= i < g3[u].len() implies g3.contains_key(
        #[trigger] g3[u][i],
    ) by {
        if g.contains_key(u) {
            if i < g[u].len() {
                assert(g.contains_key(g[u][i]));
            }
        }
    }
    assert forall|u: u32| g3.contains_key(u) implies #[trigger] g3[u].no_duplicates() by {
        if g.contains_key(u) {
            assert(g[u].no_duplicates());
        }
        if u == e.0 && !l.contains(e.1) {
            assert forall|i: int, j: int| 0 <= i < j < l.push(e.1).len() implies l.push(e.1)[i]
                != l.push(e.1)[j] by {
                if j == l.len() {
                    assert(l.contains(l[i]));
                }
            }
        }
    }
}

/// Removing an edge keeps a graph well formed and takes away that edge alone.
pub proof fn lemma_without_edge(g: Adjacency, e: (u32, u32))
    requires
        well_formed(g),
    ensures
        well_formed(without_edge(g, e)),
        without_edge(g, e).dom() == g.dom(),
        forall|a: u32, b: u32| #[trigger]
            has_edge(without_edge(g, e), a, b) <==> has_edge(g, a, b) && (a, b) != e,
{
    let h = without_edge(g, e);
    if g.contains_key(e.0) {
        lemma_filter_no_duplicates(g[e.0], differs_from(e.1));
        assert(h.dom() =~= g.dom());
        assert forall|u: u32, i: int| h.contains_key(u) && 0 <= i < h[u].len() implies h.contains_key(
            #[trigger] h[u][i],
        ) by {
            if u == e.0 {
                assert(h[u].contains(h[u][i]));
                let k = choose|k: int| 0 <= k < g[u].len() && g[u][k] == h[u][i];
                assert(g.contains_key(g[u][k]));
            } else {
                assert(g.contains_key(g[u][i]));
            }
        }
        assert forall|u: u32| h.contains_key(u) implies #[trigger] h[u].no_duplicates() by {
            if u != e.0 {
                assert(g[u].no_duplicates());
            }
        }
    }
}

/// A graph is well formed when its vertices are finitely many, its lists are
/// free of repetition and every edge ends in a vertex.
proof fn lemma_well_formed_by_edges(h: Adjacency)
    requires
        h.dom().finite(),
        forall|u: u32| h.contains_key(u) ==> #[trigger] h[u].no_duplicates(),
        forall|a: u32, b: u32| #[trigger] has_edge(h, a, b) ==> h.contains_key(b),
    ensures
        well_formed(h),
{
    assert forall|u: u32, i: int| h.contains_key(u) && 0 <= i < h[u].len() implies h.contains_key(
        #[trigger] h[u][i],
    ) by {
        assert(h[u].contains(h[u][i]));
        assert(has_edge(h, u, h[u][i]));
    }
}

/// Every neighbour of a vertex of a well-formed graph is a vertex.
pub proof fn lemma_edge_endpoints(g: Adjacency, a: u32, b: u32)
    requires
        well_formed(g),
        has_edge(g, a, b),
    ensures
        g.contains_key(a),
        g.contains_key(b),
{
    let k = choose|k: int| 0 <= k < g[a].len() && g[a][k] == b;
    assert(g.contains_key(g[a][k]));
}

/// Removing a vertex keeps a graph well formed and takes away that vertex and
/// the edges that touch it.
pub proof fn lemma_without_vertex(g: Adjacency, v: u32)
    requires
        well_formed(g),
    ensures
        well_formed(without_vertex(g, v)),
        without_vertex(g, v).dom() == g.dom().remove(v),
        forall|a: u32, b: u32| #[trigger]
            has_edge(without_vertex(g, v), a, b) <==> has_edge(g, a, b) && a != v && b != v,
{
    let h = without_vertex(g, v);
    assert(h.dom() =~= g.dom().remove(v));
    assert forall|a: u32, b: u32| has_edge(h, a, b) <==> has_edge(g, a, b) && a != v && b
        != v by {
        if g.contains_key(a) {
            assert(g[a].no_duplicates());
            lemma_filter_no_duplicates(g[a], differs_from(v));
        }
    }
    assert forall|u: u32| h.contains_key(u) implies #[trigger] h[u].no_duplicates() by {
        assert(g[u].no_duplicates());
        lemma_filter_no_duplicates(g[u], differs_from(v));
    }
    assert forall|a: u32, b: u32| #[trigger] has_edge(h, a, b) implies h.contains_key(b) by {
        lemma_edge_endpoints(g, a, b);
    }
    lemma_well_formed_by_edges(h);
}

/// The induced subgraph is well formed; its vertices are the kept ones and
/// its edges those of the graph between kept vertices.
pub proof fn lemma_induced(g: Adjacency, keep: Set<u32>)
    requires
        well_formed(g),
        keep.finite(),
    ensures
        well_formed(induced(g, keep)),
        induced(g, keep).dom() == keep,
        forall|a: u32, b: u32| #[trigger]
            has_edge(induced(g, keep), a, b) <==> has_edge(g, a, b) && keep.contains(a)
                && keep.contains(b),
{
    let h = induced(g, keep);
    assert(h.dom() =~= keep);
    assert forall|a: u32, b: u32|
        has_edge(h, a, b) <==> has_edge(g, a, b) && keep.contains(a) && keep.contains(b) by {
        if g.contains_key(a) {
            assert(g[a].no_duplicates());
            lemma_filter_no_duplicates(g[a], member_of(keep));
        }
    }
    assert forall|u: u32| h.contains_key(u) implies #[trigger] h[u].no_duplicates() by {
        if g.contains_key(u) {
            assert(g[u].no_duplicates());
            lemma_filter_no_duplicates(g[u], member_of(keep));
        }
    }
    assert forall|u: u32, i: int| h.contains_key(u) && 0 <= i < h[u].len() implies h.contains_key(
        #[trigger] h[u][i],
    ) by {
        assert(h[u].contains(h[u][i]));
        assert(has_edge(h, u, h[u][i]));
    }
}

/// Removing a set of edges keeps a graph well formed and its vertices, and
/// takes away exactly the edges of the set.
pub proof fn lemma_without_edges(g: Adjacency, drop: Set<(u32, u32)>)
    requires
        well_formed(g),
    ensures
        well_formed(without_edges(g, drop)),
        without_edges(g, drop).dom() == g.dom(),
        forall|a: u32, b: u32| #[trigger]
            has_edge(without_edges(g, drop), a, b) <==> has_edge(g, a, b) && !drop.contains(
                (a, b),
            ),
{
    let h = without_edges(g, drop);
    assert(h.dom() =~= g.dom());
    assert forall|a: u32, b: u32|
        has_edge(h, a, b) <==> has_edge(g, a, b) && !drop.contains((a, b)) by {
        if g.contains_key(a) {
            assert(g[a].no_duplicates());
            lemma_filter_no_duplicates(g[a], edge_stays(drop, a));
        }
    }
    assert forall|u: u32| h.contains_key(u) implies #[trigger] h[u].no_duplicates() by {
        assert(g[u].no_duplicates());
        lemma_filter_no_duplicates(g[u], edge_stays(drop, u));
    }
    assert forall|a: u32, b: u32| #[trigger] has_edge(h, a, b) implies h.contains_key(b) by {
        lemma_edge_endpoints(g, a, b);
    }
    lemma_well_formed_by_edges(h);
}

/// Adding vertices one after the other keeps a graph well formed, adds
/// exactly those vertices and no edge.
pub proof fn lemma_with_vertices(g: Adjacency, vs: Seq<u32>)
    requires
        well_formed(g),
    ensures
        well_formed(with_vertices(g, vs)),
        forall|v: u32| #[trigger]
            with_vertices(g, vs).contains_key(v) <==> g.contains_key(v) || vs.contains(v),
        forall|a: u32, b: u32| #[trigger]
            has_edge(with_vertices(g, vs), a, b) <==> has_edge(g, a, b),
    decreases vs.len(),
{
    if vs.len() != 0 {
        let front = vs.drop_last();
        let h = with_vertices(g, front);
        lemma_with_vertices(g, front);
        lemma_with_vertex(h, vs.last());
        lemma_drop_last_contains(vs);
        assert forall|v: u32|
            with_vertices(g, vs).contains_key(v) <==> g.contains_key(v) || vs.contains(v) by {
            assert(with_vertex(h, vs.last()).contains_key(v) <==> h.contains_key(v) || v
                == vs.last());
            assert(h.contains_key(v) <==> g.contains_key(v) || front.contains(v));
        }
    } else {
        assert forall|v: u32| !vs.contains(v) by {}
    }
}

/// Adding edges one after the other keeps a graph well formed and adds
/// exactly those edges and their endpoints.
pub proof fn lemma_with_edges(g: Adjacency, es: Seq<(u32, u32)>)
    requires
        well_formed(g),
    ensures
        well_formed(with_edges(g, es)),
        forall|v: u32| #[trigger]
            with_edges(g, es).contains_key(v) <==> g.contains_key(v) || exists|i: int|
                0 <= i < es.len() && touches(#[trigger] es[i], v),
        forall|a: u32, b: u32| #[trigger]
            has_edge(with_edges(g, es), a, b) <==> has_edge(g, a, b) || es.contains((a, b)),
    decreases es.len(),
{
    if es.len() != 0 {
        let front = es.drop_last();
        let h = with_edges(g, front);
        lemma_with_edges(g, front);
        lemma_with_edge(h, es.last());
        lemma_drop_last_contains(es);
        assert forall|v: u32|
            with_edges(g, es).contains_key(v) <==> g.contains_key(v) || exists|i: int|
                0 <= i < es.len() && touches(#[trigger] es[i], v) by {
            let last = es.len() - 1;
            assert(with_edge(h, es.last()).contains_key(v) <==> h.contains_key(v) || touches(
                es.last(),
                v,
            ));
            assert(h.contains_key(v) <==> g.contains_key(v) || exists|i: int|
                0 <= i < front.len() && touches(#[trigger] front[i], v));
            if exists|i: int| 0 <= i < es.len() && touches(#[trigger] es[i], v) {
                let i = choose|i: int| 0 <= i < es.len() && touches(#[trigger] es[i], v);
                if i < front.len() {
                    assert(touches(front[i], v));
                }
            }
            if exists|i: int| 0 <= i < front.len() && touches(#[trigger] front[i], v) {
                let i = choose|i: int| 0 <= i < front.len() && touches(#[trigger] front[i], v);
                assert(touches(es[i], v));
            }
            if touches(es.last(), v) {
                assert(touches(es[last], v));
            }
        }
    }
}

/// The out-edges of distinct vertices, one vertex after the other, name no
/// edge twice and are the edges that leave those vertices.
pub proof fn lemma_edges_from(g: Adjacency, vs: Seq<u32>)
    requires
        well_formed(g),
        vs.no_duplicates(),
        forall|i: int| 0 <= i < vs.len() ==> g.contains_key(#[trigger] vs[i]),
    ensures
        edges_from(g, vs).no_duplicates(),
        forall|a: u32, b: u32| #[trigger]
            edges_from(g, vs).contains((a, b)) <==> vs.contains(a) && g[a].contains(b),
    decreases vs.len(),
{
    if vs.len() != 0 {
        let front = vs.drop_last();
        let last = vs.last();
        let head = edges_from(g, front);
        let tail = out_edges(g, last);
        lemma_edges_from(g, front);
        lemma_drop_last_contains(vs);
        lemma_concat_contains(head, tail);
        assert(g.contains_key(vs[vs.len() - 1]));
        assert(g[last].no_duplicates());
        assert forall|a: u32, b: u32| tail.contains((a, b)) <==> a == last && g[last].contains(
            b,
        ) by {
            if tail.contains((a, b)) {
                let k = choose|k: int| 0 <= k < tail.len() && tail[k] == (a, b);
                assert(g[last][k] == b);
            }
            if a == last && g[last].contains(b) {
                let k = choose|k: int| 0 <= k < g[last].len() && g[last][k] == b;
                assert(tail[k] == (a, b));
            }
        }
        assert(!front.contains(last)) by {
            if front.contains(last) {
                let k = choose|k: int| 0 <= k < front.len() && front[k] == last;
                assert(vs[k] == vs[vs.len() - 1]);
            }
        }
        assert forall|i: int, j: int| 0 <= i < head.len() && 0 <= j < tail.len() implies head[i]
            != tail[j] by {
            assert(head.contains(head[i]));
            assert(head.contains((head[i].0, head[i].1)));
            assert(tail.contains(tail[j]));
            assert(tail.contains((tail[j].0, tail[j].1)));
        }
        lemma_no_dup_in_concat(head, tail);
        assert forall|a: u32, b: u32| #[trigger]
            edges_from(g, vs).contains((a, b)) <==> vs.contains(a) && g[a].contains(b) by {
            assert(head.contains((a, b)) <==> front.contains(a) && g[a].contains(b));
        }
    } else {
        assert forall|a: u32, b: u32| !(#[trigger] edges_from(g, vs).contains((a, b))) by {}
    }
}

/// The edge sequence of a well-formed graph lists every edge once, so the
/// edges are finitely many and as many as the sequence is long.
pub proof fn lemma_edge_seq(g: Adjacency)
    requires
        well_formed(g),
    ensures
        edge_seq(g).no_duplicates(),
        edge_seq(g).to_set() == edge_set(g),
        edge_set(g).finite(),
        edge_seq(g).len() == edge_count(g),
{
    let vs = vertex_seq(g);
    lemma_sorted_seq_properties(g.dom(), id_leq());
    assert forall|i: int| 0 <= i < vs.len() implies g.contains_key(#[trigger] vs[i]) by {
        assert(vs.to_set().contains(vs[i]));
    }
    lemma_edges_from(g, vs);
    assert forall|e: (u32, u32)| edge_seq(g).to_set().contains(e) <==> edge_set(g).contains(e) by {
        assert(edge_seq(g).contains((e.0, e.1)) <==> vs.contains(e.0) && g[e.0].contains(e.1));
        assert(vs.contains(e.0) <==> vs.to_set().contains(e.0));
    }
    assert(edge_seq(g).to_set() =~= edge_set(g));
    edge_seq(g).unique_seq_to_set();
}

/// Adding an edge that is there, removing an edge that is not there and
/// removing a vertex that is not there change nothing.
pub proof fn lemma_nothing_to_do(g: Adjacency, e: (u32, u32), v: u32)
    requires
        well_formed(g),
    ensures
        has_edge(g, e.0, e.1) ==> with_edge(g, e) == g,
        !has_edge(g, e.0, e.1) ==> without_edge(g, e) == g,
        !g.contains_key(v) ==> without_vertex(g, v) == g,
{
    if has_edge(g, e.0, e.1) {
        lemma_edge_endpoints(g, e.0, e.1);
        assert(with_edge(g, e) =~= g);
    } else if g.contains_key(e.0) {
        assert forall|i: int| 0 <= i < g[e.0].len() implies differs_from(e.1)(
            #[trigger] g[e.0][i],
        ) by {
            assert(g[e.0].contains(g[e.0][i]));
        }
        lemma_filter_all(g[e.0], differs_from(e.1));
        assert(without_edge(g, e) =~= g);
    }
    if !g.contains_key(v) {
        assert forall|u: u32| g.contains_key(u) implies #[trigger] g[u].filter(differs_from(v))
            == g[u] by {
            assert forall|i: int| 0 <= i < g[u].len() implies differs_from(v)(
                #[trigger] g[u][i],
            ) by {
                assert(g.contains_key(g[u][i]));
            }
            lemma_filter_all(g[u], differs_from(v));
        }
        assert(without_vertex(g, v) =~= g);
    }
}

/// A graph whose edges all stand in the sequence `es` has no more edges than
/// `es` is long.
pub proof fn lemma_edge_count_bound(g: Adjacency, es: Seq<(u32, u32)>)
    requires
        forall|a: u32, b: u32| #[trigger] has_edge(g, a, b) ==> es.contains((a, b)),
    ensures
        edge_set(g).finite(),
        edge_count(g) <= es.len(),
{
    assert forall|e: (u32, u32)| edge_set(g).contains(e) implies es.to_set().contains(e) by {
        assert(has_edge(g, e.0, e.1));
        assert(es.contains((e.0, e.1)));
    }
    es.lemma_cardinality_of_set();
    lemma_len_subset(edge_set(g), es.to_set());
}

/// As many edges enter a vertex as the sequence of its in-edges is long.
pub proof fn lemma_in_edges_len(g: Adjacency, v: u32)
    requires
        well_formed(g),
    ensures
        in_edges(g, v).len() == indegree(g, v),
        predecessors(g, v).finite(),
{
    let vs = vertex_seq(g);
    let sources = vs.filter(points_to(g, v));
    lemma_sorted_seq_properties(g.dom(), id_leq());
    lemma_filter_no_duplicates(vs, points_to(g, v));
    assert forall|u: u32| sources.to_set().contains(u) <==> predecessors(g, v).contains(u) by {
        assert(sources.contains(u) <==> vs.contains(u) && g[u].contains(v));
        assert(vs.contains(u) <==> vs.to_set().contains(u));
    }
    assert(sources.to_set() =~= predecessors(g, v));
    sources.unique_seq_to_set();
}

/// Along a walk in a graph whose every edge leads to a higher rank, the rank
/// rises.
pub proof fn lemma_ranked_walk(g: Adjacency, rank: spec_fn(u32) -> int, p: Seq<u32>, k: int)
    requires
        forall|a: u32, b: u32| #[trigger] has_edge(g, a, b) ==> rank(a) < rank(b),
        is_walk(g, p),
        1 <= k < p.len(),
    ensures
        rank(p[0]) < rank(p[k]),
    decreases k,
{
    if k > 1 {
        lemma_ranked_walk(g, rank, p, k - 1);
    }
    assert(has_edge(g, p[k - 1], p[k]));
}

/// A graph whose every edge leads to a higher rank has no cycle.
pub proof fn lemma_ranked_acyclic(g: Adjacency, rank: spec_fn(u32) -> int)
    requires
        forall|a: u32, b: u32| #[trigger] has_edge(g, a, b) ==> rank(a) < rank(b),
    ensures
        !is_cyclic(g),
{
    assert forall|p: Seq<u32>| !is_closed_walk(g, p) by {
        if is_closed_walk(g, p) {
            lemma_ranked_walk(g, rank, p, p.len() - 1);
        }
    }
}

/// Where every vertex has an edge at it, that is still so after an edge is
/// added.
pub proof fn lemma_incident_after_edge(g: Adjacency, e: (u32, u32))
    requires
        well_formed(g),
        forall|x: u32| #[trigger] g.contains_key(x) <==> has_incident_edge(g, x),
    ensures
        forall|x: u32| #[trigger]
            with_edge(g, e).contains_key(x) <==> has_incident_edge(with_edge(g, e), x),
{
    let h = with_edge(g, e);
    lemma_with_edge(g, e);
    assert forall|x: u32| #[trigger] h.contains_key(x) <==> has_incident_edge(h, x) by {
        if exists|w: u32| has_edge(g, x, w) {
            let w = choose|w: u32| has_edge(g, x, w);
            assert(has_edge(h, x, w));
        }
        if exists|w: u32| has_edge(g, w, x) {
            let w = choose|w: u32| has_edge(g, w, x);
            assert(has_edge(h, w, x));
        }
        if exists|w: u32| has_edge(h, x, w) {
            let w = choose|w: u32| has_edge(h, x, w);
            if !touches(e, x) {
                assert(has_edge(g, x, w));
            }
        }
        if exists|w: u32| has_edge(h, w, x) {
            let w = choose|w: u32| has_edge(h, w, x);
            if !touches(e, x) {
                assert(has_edge(g, w, x));
            }
        }
        if touches(e, x) {
            assert(has_edge(h, e.0, e.1));
        }
    }
}

/// Neighbour lists in ascending order stay so when an edge is added whose
/// target is larger than every neighbour of its source.
pub proof fn lemma_ascending_after_edge(g: Adjacency, e: (u32, u32))
    requires
        well_formed(g),
        ascending_lists(g),
        forall|b: u32| #[trigger] has_edge(g, e.0, b) ==> b < e.1,
    ensures
        ascending_lists(with_edge(g, e)),
{
    let h = with_edge(g, e);
    assert forall|x: u32, i: int, j: int| h.contains_key(x) && 0 <= i < j < h[x].len() implies (
    #[trigger] h[x][i]) < (#[trigger] h[x][j]) by {
        if x == e.0 {
            let list = with_vertex(g, x)[x];
            assert(!list.contains(e.1)) by {
                if list.contains(e.1) {
                    assert(has_edge(g, e.0, e.1));
                }
            }
            assert(h[x] == list.push(e.1));
            if g.contains_key(x) {
                if j == list.len() {
                    assert(list.contains(list[i]));
                    assert(has_edge(g, x, list[i]));
                } else {
                    assert(g[x][i] < g[x][j]);
                }
            }
        } else if g.contains_key(x) {
            assert(g[x][i] < g[x][j]);
        }
    }
}

} // verus!
