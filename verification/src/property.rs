//! Traits for graphs that can be changed: vertices and edges added and
//! removed, and counted.
use crate::graph::Graph;
use crate::view::{deref_pairs, positions_to, tag, GraphView};
use vstd::prelude::*;

verus! {

/// Whether `f` answered `false` for every stored edge before the `j`th edge of
/// the `m`th vertex, in vertex then storage order.
pub open spec fn rejected_before<Vw, Ew, F: Fn((usize, usize, &Ew)) -> bool>(
    g: GraphView<Vw, Ew>,
    f: F,
    m: int,
    j: int,
) -> bool {
    forall|m2: int, j2: int|
        #![trigger g.out_edges[g.vertices[m2]][j2]]
        g.edge_before(m2, j2, m, j) ==> f.ensures(
            (
                (
                    g.vertices[m2],
                    g.out_edges[g.vertices[m2]][j2].0,
                    &g.out_edges[g.vertices[m2]][j2].1,
                ),
            ),
            false,
        )
}

/// A graph to which new vertices can be added.
pub trait NewVertex: Graph {
    /// Whether the graph takes a new vertex.
    spec fn accepts_new_vertex(&self) -> bool;

    /// Adds a new vertex with the given weight, returning it. Succeeds
    /// exactly when the graph [accepts](NewVertex::accepts_new_vertex) a new
    /// vertex.
    fn new_vertex_weighted(&mut self, w: Self::VertexWeight) -> (r: Result<usize, ()>)
        requires
            old(self).wf(),
        ensures
            final(self).wf(),
            r is Ok <==> old(self).accepts_new_vertex(),
            match r {
                Ok(v) => old(self).model().adds_vertex(final(self).model(), v, w),
                Err(_) => final(self).model() == old(self).model(),
            },
    ;
}

/// A graph from which vertices can be removed.
pub trait RemoveVertex: Graph {
    /// Whether the graph lets the vertex `v` be removed.
    spec fn accepts_vertex_removal(&self, v: usize) -> bool;

    /// Removes the given vertex along with every edge incident on it,
    /// returning its weight. The vertices after it are renumbered down by one.
    /// Succeeds exactly when the graph
    /// [lets](RemoveVertex::accepts_vertex_removal) the vertex be removed,
    /// which it does only for a vertex in the graph; otherwise fails, changing
    /// nothing.
    fn remove_vertex(&mut self, v: usize) -> (r: Result<Self::VertexWeight, ()>)
        requires
            old(self).wf(),
        ensures
            final(self).wf(),
            r is Ok <==> old(self).accepts_vertex_removal(v),
            match r {
                Ok(w) => {
                    &&& old(self).model().has_vertex(v)
                    &&& w == old(self).model().weights[v]
                    &&& final(self).model() == old(self).model().without_vertex(v)
                },
                Err(_) => final(self).model() == old(self).model(),
            },
    ;
}

/// A graph to which edges can be added.
pub trait AddEdge: Graph {
    /// Whether the graph takes an edge from `source` to `sink` with the given
    /// weight.
    spec fn accepts_edge(&self, source: usize, sink: usize, weight: Self::EdgeWeight) -> bool;

    /// Adds an edge from `source` to `sink` with the given weight. Succeeds
    /// exactly when the graph [accepts](AddEdge::accepts_edge) the edge, which
    /// it does only between two of its vertices; otherwise fails, changing
    /// nothing.
    fn add_edge_weighted(&mut self, source: usize, sink: usize, weight: Self::EdgeWeight) -> (r:
        Result<(), ()>)
        requires
            old(self).wf(),
        ensures
            final(self).wf(),
            r is Ok <==> old(self).accepts_edge(source, sink, weight),
            match r {
                Ok(_) => {
                    &&& old(self).model().has_vertex(source)
                    &&& old(self).model().has_vertex(sink)
                    &&& final(self).model() == old(self).model().with_edge(source, sink, weight)
                },
                Err(_) => final(self).model() == old(self).model(),
            },
    ;
}

/// A graph from which edges can be removed.
pub trait RemoveEdge: Graph {
    /// Removes the `idx`th edge stored from `source`, returning its sink and
    /// weight.
    fn remove_edge_at(&mut self, source: usize, idx: usize) -> (r: (usize, Self::EdgeWeight))
        requires
            old(self).wf(),
            old(self).model().has_vertex(source),
            idx < old(self).model().out_edges[source].len(),
        ensures
            final(self).wf(),
            r == old(self).model().out_edges[source][idx as int],
            final(self).model() == old(self).model().without_edge(source, idx as int),
    ;

    /// Finds the first stored edge, in vertex then storage order, for which
    /// `f` returns `true`: its source and its position among the edges stored
    /// from the source.
    fn find_edge_where<F: Fn((usize, usize, &Self::EdgeWeight)) -> bool>(&self, f: &F) -> (r:
        Option<(usize, usize)>)
        requires
            self.wf(),
            forall|e: (usize, usize, &Self::EdgeWeight)| #[trigger] f.requires((e,)),
        ensures
            match r {
                Some((u, j)) => exists|m: int|
                    {
                        &&& 0 <= m < self.model().vertices.len()
                        &&& self.model().vertices[m] == u
                        &&& j < self.model().out_edges[u].len()
                        &&& f.ensures(
                            (
                                (
                                    u,
                                    self.model().out_edges[u][j as int].0,
                                    &self.model().out_edges[u][j as int].1,
                                ),
                            ),
                            true,
                        )
                        &&& rejected_before(self.model(), *f, m, j as int)
                    },
                None => rejected_before(
                    self.model(),
                    *f,
                    self.model().vertices.len() as int,
                    0,
                ),
            },
    {
        let vs = self.all_vertices();
        let mut m: usize = 0;
        while m < vs.len()
            invariant
                self.wf(),
                vs@ == self.model().vertices,
                m <= vs@.len(),
                forall|e: (usize, usize, &Self::EdgeWeight)| #[trigger] f.requires((e,)),
                rejected_before(self.model(), *f, m as int, 0),
            decreases vs.len() - m,
        {
            let u = vs[m];
            let es = self.edges_stored_from(u);
            proof {
                self.lemma_wf();
                self.model().lemma_vertices(u);
                assert(self.model().vertices.contains(u));
            }
            let mut j: usize = 0;
            while j < es.len()
                invariant
                    self.wf(),
                    vs@ == self.model().vertices,
                    m < vs@.len(),
                    u == vs@[m as int],
                    self.model().has_vertex(u),
                    deref_pairs(es@) == self.model().out_edges[u],
                    j <= es@.len(),
                    forall|e: (usize, usize, &Self::EdgeWeight)| #[trigger] f.requires((e,)),
                    rejected_before(self.model(), *f, m as int, j as int),
                decreases es.len() - j,
            {
                proof {
                    assert(deref_pairs(es@)[j as int] == self.model().out_edges[u][j as int]);
                }
                let hit = f((u, es[j].0, es[j].1));
                if hit {
                    return Some((u, j));
                }
                proof {
                    assert forall|m2: int, j2: int|
                        #![trigger self.model().out_edges[self.model().vertices[m2]][j2]]
                        self.model().edge_before(m2, j2, m as int, j + 1) implies f.ensures(
                        (
                            (
                                self.model().vertices[m2],
                                self.model().out_edges[self.model().vertices[m2]][j2].0,
                                &self.model().out_edges[self.model().vertices[m2]][j2].1,
                            ),
                        ),
                        false,
                    ) by {
                        if !self.model().edge_before(m2, j2, m as int, j as int) {
                            assert(m2 == m && j2 == j);
                        }
                    }
                }
                j += 1;
            }
            proof {
                assert forall|m2: int, j2: int|
                    #![trigger self.model().out_edges[self.model().vertices[m2]][j2]]
                    self.model().edge_before(m2, j2, m + 1, 0) implies f.ensures(
                    (
                        (
                            self.model().vertices[m2],
                            self.model().out_edges[self.model().vertices[m2]][j2].0,
                            &self.model().out_edges[self.model().vertices[m2]][j2].1,
                        ),
                    ),
                    false,
                ) by {
                    if !self.model().edge_before(m2, j2, m as int, j as int) {
                        assert(m2 == m);
                        assert(j2 < es@.len());
                    }
                }
            }
            m += 1;
        }
        None
    }

    /// Removes the first stored edge, in vertex then storage order, for which
    /// `f` returns `true`, returning its source, sink and weight. Fails,
    /// changing nothing, if `f` returns `false` for every edge.
    fn remove_edge_where<F: Fn((usize, usize, &Self::EdgeWeight)) -> bool>(&mut self, f: F) -> (r:
        Result<(usize, usize, Self::EdgeWeight), ()>)
        requires
            old(self).wf(),
            forall|e: (usize, usize, &Self::EdgeWeight)| #[trigger] f.requires((e,)),
        ensures
            final(self).wf(),
            match r {
                Ok((u, si, w)) => exists|m: int, j: int|
                    {
                        &&& 0 <= m < old(self).model().vertices.len()
                        &&& old(self).model().vertices[m] == u
                        &&& 0 <= j < old(self).model().out_edges[u].len()
                        &&& old(self).model().out_edges[u][j] == (si, w)
                        &&& f.ensures(((u, si, &w),), true)
                        &&& rejected_before(old(self).model(), f, m, j)
                        &&& final(self).model() == old(self).model().without_edge(u, j)
                    },
                Err(_) => {
                    &&& final(self).model() == old(self).model()
                    &&& rejected_before(
                        old(self).model(),
                        f,
                        old(self).model().vertices.len() as int,
                        0,
                    )
                },
            },
    {
        match self.find_edge_where(&f) {
            Some((u, j)) => {
                proof {
                    self.lemma_wf();
                    self.model().lemma_vertices(u);
                }
                let (si, w) = self.remove_edge_at(u, j);
                Ok((u, si, w))
            },
            None => Err(()),
        }
    }

    /// Removes the first edge between `source` and `sink`, in the order of
    /// [`edges_between`](Graph::edges_between), whose weight `f` accepts,
    /// returning its weight. Fails, changing nothing, if `f` accepts none of
    /// them.
    fn remove_edge_where_weight<F: Fn(&Self::EdgeWeight) -> bool>(&mut self, source: usize, sink: usize, f: F) -> (r:
        Result<Self::EdgeWeight, ()>)
        requires
            old(self).wf(),
            forall|w: &Self::EdgeWeight| #[trigger] f.requires((w,)),
        ensures
            final(self).wf(),
            match r {
                Ok(w) => exists|k: int|
                    #![trigger old(self).model().between_positions(source, sink)[k]]
                    {
                        let b = old(self).model().between(source, sink);
                        let p = old(self).model().between_positions(source, sink)[k];
                        &&& 0 <= k < b.len()
                        &&& b[k] == w
                        &&& f.ensures((&w,), true)
                        &&& forall|k2: int| 0 <= k2 < k ==> f.ensures((&#[trigger] b[k2],), false)
                        &&& final(self).model() == old(self).model().without_edge(p.0, p.1 as int)
                    },
                Err(_) => {
                    &&& final(self).model() == old(self).model()
                    &&& forall|k: int|
                        0 <= k < old(self).model().between(source, sink).len() ==> f.ensures(
                            (&#[trigger] old(self).model().between(source, sink)[k],),
                            false,
                        )
                },
            },
    {
        let ps = self.edges_between_positions(source, sink);
        let ghost m = self.model();
        proof {
            self.lemma_wf();
            m.lemma_between_positions(source, sink);
        }
        let mut k: usize = 0;
        while k < ps.len()
            invariant
                self.wf(),
                *self == *old(self),
                m == self.model(),
                m.wf(),
                ps@ == m.between_positions(source, sink),
                ps@.len() == m.between(source, sink).len(),
                forall|i: int|
                    0 <= i < ps@.len() ==> {
                        let p = #[trigger] ps@[i];
                        &&& m.has_vertex(p.0)
                        &&& p.1 < m.out_edges[p.0].len()
                        &&& m.out_edges[p.0][p.1 as int].1 == m.between(source, sink)[i]
                    },
                k <= ps@.len(),
                forall|w: &Self::EdgeWeight| #[trigger] f.requires((w,)),
                forall|k2: int| 0 <= k2 < k ==> f.ensures((&#[trigger] m.between(source, sink)[k2],), false),
            decreases ps.len() - k,
        {
            let (u, j) = ps[k];
            let es = self.edges_stored_from(u);
            proof {
                assert(ps@[k as int] == (u, j));
                assert(deref_pairs(es@) == m.out_edges[u]);
                assert(deref_pairs(es@)[j as int] == m.out_edges[u][j as int]);
            }
            let hit = f(es[j].1);
            if hit {
                let (_, w) = self.remove_edge_at(u, j);
                proof {
                    assert(m.between(source, sink)[k as int] == w);
                    assert(m.between_positions(source, sink)[k as int] == (u, j));
                }
                return Ok(w);
            }
            k += 1;
        }
        Err(())
    }
}

/// Whether `a` comes before `b` among the vertices of `g`, both of which are
/// vertices of it.
fn vertex_comes_before<G: Graph>(g: &G, a: usize, b: usize) -> (r: bool)
    requires
        g.wf(),
        g.model().has_vertex(a),
        g.model().has_vertex(b),
        a != b,
    ensures
        r == g.model().vertex_before(a, b),
{
    let vs = g.all_vertices();
    let ghost m = g.model();
    proof {
        g.lemma_wf();
        m.lemma_vertices(a);
        m.lemma_vertices(b);
    }
    let ghost ia = m.vertices.index_of(a);
    let ghost ib = m.vertices.index_of(b);
    proof {
        assert(m.vertices[ia] == a && m.vertices[ib] == b);
    }
    let mut i: usize = 0;
    while i < vs.len()
        invariant
            vs@ == m.vertices,
            m == g.model(),
            m.vertices.no_duplicates(),
            0 <= ia < m.vertices.len() && m.vertices[ia] == a,
            0 <= ib < m.vertices.len() && m.vertices[ib] == b,
            ia == m.vertices.index_of(a),
            ib == m.vertices.index_of(b),
            i <= ia && i <= ib,
            a != b,
        decreases vs.len() - i,
    {
        if vs[i] == a {
            proof {
                assert(m.vertices[i as int] == m.vertices[ia]);
                assert(i == ia);
                assert(ia != ib);
                assert(m.vertex_before(a, b));
            }
            return true;
        }
        if vs[i] == b {
            proof {
                assert(m.vertices[i as int] == m.vertices[ib]);
                assert(i == ib);
                assert(ia != ib);
                assert(!m.vertex_before(a, b));
            }
            return false;
        }
        proof {
            assert(m.vertices[i as int] != m.vertices[ia]);
            assert(m.vertices[i as int] != m.vertices[ib]);
        }
        i += 1;
    }
    false
}

/// A graph whose vertex and edge weights can be changed in place.
pub trait GraphMut: Graph {
    /// Returns a mutable reference to the weight of the given vertex.
    fn vertex_weight_mut(&mut self, v: usize) -> (r: &mut Self::VertexWeight)
        requires
            old(self).wf(),
            old(self).model().has_vertex(v),
        ensures
            *r == old(self).model().weights[v],
            final(self).wf(),
            final(self).model().vertices == old(self).model().vertices,
            final(self).model().weights == old(self).model().weights.insert(v, *final(r)),
            final(self).model().out_edges == old(self).model().out_edges,
            final(self).model().directed == old(self).model().directed,
    ;

    /// Returns a mutable reference to the weight of the `idx`th edge stored
    /// from `source`.
    fn edge_weight_mut(&mut self, source: usize, idx: usize) -> (r: &mut Self::EdgeWeight)
        requires
            old(self).wf(),
            old(self).model().has_vertex(source),
            idx < old(self).model().out_edges[source].len(),
        ensures
            *r == old(self).model().out_edges[source][idx as int].1,
            final(self).wf(),
            final(self).model().vertices == old(self).model().vertices,
            final(self).model().weights == old(self).model().weights,
            final(self).model().out_edges == old(self).model().out_edges.insert(
                source,
                old(self).model().out_edges[source].update(
                    idx as int,
                    (old(self).model().out_edges[source][idx as int].0, *final(r)),
                ),
            ),
            final(self).model().directed == old(self).model().directed,
    ;

    /// Returns where the edges from `source` to `sink` are stored (in an
    /// undirected graph, also those from `sink` to `source`): the vertex each
    /// is stored from and its position there, to be given to
    /// [`edge_weight_mut`](GraphMut::edge_weight_mut). The edges stored from
    /// whichever of the two vertices comes first among the vertices are
    /// listed first, each vertex's in storage order.
    fn edges_between_mut(&self, source: usize, sink: usize) -> (r: Vec<(usize, usize)>)
        requires
            self.wf(),
        ensures
            r@ == self.model().between_positions_by_vertex(source, sink),
    {
        let ps = self.edges_between_positions(source, sink);
        if self.directed() || source == sink || !self.contains_vertex(source) || !self.contains_vertex(sink) {
            return ps;
        }
        if !vertex_comes_before(self, sink, source) {
            return ps;
        }
        let ghost g = self.model();
        let ghost a = tag(source, positions_to(g.out_edges[source], sink));
        let ghost b = tag(sink, positions_to(g.out_edges[sink], source));
        proof {
            assert(ps@ == a + b);
        }
        // The edges stored from `source` come first in `ps`; move them last.
        let mut n: usize = 0;
        while n < ps.len() && ps[n].0 == source
            invariant
                n <= ps@.len(),
                ps@ == a + b,
                n <= a.len(),
                source != sink,
                b == tag(sink, positions_to(g.out_edges[sink], source)),
            decreases ps.len() - n,
        {
            proof {
                if n >= a.len() {
                    assert(ps@.len() == a.len() + b.len());
                    assert(ps@[n as int] == b[n - a.len()]);
                    assert(b[n - a.len()].0 == sink);
                }
            }
            n += 1;
        }
        proof {
            if n < a.len() {
                assert(ps@[n as int] == a[n as int]);
                assert(a[n as int].0 == source);
            }
        }
        let mut r: Vec<(usize, usize)> = Vec::new();
        let mut i: usize = n;
        while i < ps.len()
            invariant
                n == a.len(),
                ps@ == a + b,
                n <= i <= ps@.len(),
                r@ == ps@.subrange(n as int, i as int),
            decreases ps.len() - i,
        {
            r.push(ps[i]);
            i += 1;
        }
        let mut j: usize = 0;
        while j < n
            invariant
                n == a.len(),
                ps@ == a + b,
                j <= n,
                r@ == b + ps@.take(j as int),
            decreases n - j,
        {
            r.push(ps[j]);
            j += 1;
        }
        proof {
            assert(ps@.subrange(n as int, ps@.len() as int) =~= b);
            assert(ps@.take(n as int) =~= a);
        }
        r
    }
}

/// A graph that can count its vertices.
pub trait VertexCount: Graph {
    /// Returns the number of vertices in the graph.
    fn vertex_count(&self) -> (r: usize)
        requires
            self.wf(),
        ensures
            r == self.model().vertices.len(),
    ;
}

/// A graph that can count its edges.
pub trait EdgeCount: Graph {
    /// Returns the number of edges stored in the graph.
    fn edge_count(&self) -> (r: usize)
        requires
            self.wf(),
            self.model().edge_count() <= usize::MAX,
        ensures
            r == self.model().edge_count(),
    ;
}

} // verus!
