//! A graph whose vertices are chosen by its user, backed by another graph.
use crate::graph::Graph;
use crate::property::{AddEdge, EdgeCount, GraphMut, NewVertex, RemoveEdge, VertexCount};
use crate::view::{deref_pairs, deref_seq, lemma_deref_pairs_push, weights_to, GraphView};
use std::collections::HashMap;
use vstd::prelude::*;

verus! {

broadcast use vstd::std_specs::hash::group_hash_axioms;

/// The stored edges `s` of the underlying graph with each sink replaced by
/// the vertex in front of it.
pub open spec fn front_edges<Ew>(back: Map<usize, usize>, s: Seq<(usize, Ew)>) -> Seq<(usize, Ew)> {
    s.map_values(|e: (usize, Ew)| (back[e.0], e.1))
}

/// Whether `map` takes the vertices in front one to one onto the vertices of
/// `g`, and `back` undoes it.
pub open spec fn linked<Vw, Ew>(g: GraphView<Vw, Ew>, map: Map<usize, usize>, back: Map<usize, usize>) -> bool {
    &&& forall|k: usize| #[trigger]
        map.contains_key(k) ==> g.has_vertex(map[k]) && back.contains_key(map[k]) && back[map[k]] == k
    &&& forall|b: usize| #[trigger]
        g.has_vertex(b) ==> back.contains_key(b) && map.contains_key(back[b]) && map[back[b]] == b
}

/// The graph in front of `g`: its vertices are those that `back` puts in front
/// of the vertices of `g`, in the same order, with the same weights and edges.
pub open spec fn front<Vw, Ew>(g: GraphView<Vw, Ew>, map: Map<usize, usize>, back: Map<usize, usize>) -> GraphView<Vw, Ew> {
    GraphView {
        vertices: g.vertices.map_values(|b: usize| back[b]),
        weights: Map::new(|k: usize| map.contains_key(k), |k: usize| g.weights[map[k]]),
        out_edges: Map::new(|k: usize| map.contains_key(k), |k: usize| front_edges(back, g.out_edges[map[k]])),
        directed: g.directed,
    }
}

/// The graph in front of a consistent graph is consistent.
proof fn lemma_front_wf<Vw, Ew>(g: GraphView<Vw, Ew>, map: Map<usize, usize>, back: Map<usize, usize>)
    requires
        g.wf(),
        linked(g, map, back),
    ensures
        front(g, map, back).wf(),
{
    let f = front(g, map, back);
    assert forall|i: int, j: int| 0 <= i < j < f.vertices.len() implies f.vertices[i] != f.vertices[j] by {
        assert(g.vertices.contains(g.vertices[i]));
        assert(g.vertices.contains(g.vertices[j]));
        assert(g.has_vertex(g.vertices[i]));
        assert(g.has_vertex(g.vertices[j]));
    }
    assert forall|k: usize| #[trigger] f.weights.dom().contains(k) <==> f.vertices.contains(k) by {
        if map.contains_key(k) {
            assert(g.vertices.contains(map[k]));
            let i = choose|i: int| 0 <= i < g.vertices.len() && g.vertices[i] == map[k];
            assert(f.vertices[i] == k);
        }
        if f.vertices.contains(k) {
            let i = choose|i: int| 0 <= i < f.vertices.len() && f.vertices[i] == k;
            assert(g.vertices.contains(g.vertices[i]));
            assert(g.has_vertex(g.vertices[i]));
        }
    }
    assert forall|k: usize| #[trigger] f.out_edges.dom().contains(k) <==> f.vertices.contains(k) by {
        assert(f.weights.dom().contains(k) <==> f.vertices.contains(k));
    }
    assert forall|k: usize, j: int| f.has_vertex(k) && 0 <= j < f.out_edges[k].len() implies f.has_vertex(
        #[trigger] f.out_edges[k][j].0,
    ) by {
        assert(g.has_vertex(g.out_edges[map[k]][j].0));
    }
}

/// Replacing the sinks by the vertices in front of them keeps the weights of
/// the edges to a vertex and to the vertex behind it the same.
proof fn lemma_front_weights_to<Ew>(back: Map<usize, usize>, s: Seq<(usize, Ew)>, t: usize, b: usize)
    requires
        forall|i: int| 0 <= i < s.len() ==> (back[(#[trigger] s[i]).0] == t <==> s[i].0 == b),
    ensures
        weights_to(front_edges(back, s), t) == weights_to(s, b),
    decreases s.len(),
{
    if s.len() > 0 {
        assert(front_edges(back, s).drop_last() =~= front_edges(back, s.drop_last()));
        assert forall|i: int| 0 <= i < s.drop_last().len() implies (back[(#[trigger] s.drop_last()[i]).0] == t
            <==> s.drop_last()[i].0 == b) by {
            assert(s.drop_last()[i] == s[i]);
        }
        lemma_front_weights_to(back, s.drop_last(), t, b);
        assert(s[s.len() - 1] == s.last());
    }
}

/// The edges between two vertices in front are those between the vertices
/// behind them.
proof fn lemma_front_between<Vw, Ew>(
    g: GraphView<Vw, Ew>,
    map: Map<usize, usize>,
    back: Map<usize, usize>,
    source: usize,
    sink: usize,
)
    requires
        g.wf(),
        linked(g, map, back),
    ensures
        front(g, map, back).between(source, sink) == if map.contains_key(source) && map.contains_key(sink) {
            g.between(map[source], map[sink])
        } else {
            Seq::empty()
        },
{
    let f = front(g, map, back);
    if map.contains_key(source) && map.contains_key(sink) {
        let so = map[source];
        let si = map[sink];
        assert forall|i: int| 0 <= i < g.out_edges[so].len() implies (back[(#[trigger] g.out_edges[so][i]).0]
            == sink <==> g.out_edges[so][i].0 == si) by {
            assert(g.has_vertex(g.out_edges[so][i].0));
        }
        lemma_front_weights_to(back, g.out_edges[so], sink, si);
        assert forall|i: int| 0 <= i < g.out_edges[si].len() implies (back[(#[trigger] g.out_edges[si][i]).0]
            == source <==> g.out_edges[si][i].0 == so) by {
            assert(g.has_vertex(g.out_edges[si][i].0));
        }
        lemma_front_weights_to(back, g.out_edges[si], source, so);
        assert((source == sink) == (so == si));
    }
}

/// The number of edges stored in front is that stored behind.
proof fn lemma_front_edge_count<Vw, Ew>(g: GraphView<Vw, Ew>, map: Map<usize, usize>, back: Map<usize, usize>, k: nat)
    requires
        g.wf(),
        linked(g, map, back),
        k <= g.vertices.len(),
    ensures
        front(g, map, back).edge_count_upto(k) == g.edge_count_upto(k),
    decreases k,
{
    if k > 0 {
        lemma_front_edge_count(g, map, back, (k - 1) as nat);
        let b = g.vertices[k - 1];
        assert(g.vertices.contains(b));
        assert(g.has_vertex(b));
    }
}

/// The graph `g1` differs from `g0` only in the weight of the vertex `b`.
pub open spec fn reweighted<Vw, Ew>(g0: GraphView<Vw, Ew>, g1: GraphView<Vw, Ew>, b: usize) -> bool {
    &&& g1.vertices == g0.vertices
    &&& g1.weights == g0.weights.insert(b, g1.weights[b])
    &&& g1.out_edges == g0.out_edges
    &&& g1.directed == g0.directed
}

/// The graph `g1` differs from `g0` only in the weight of the `idx`th edge
/// stored from `b`.
pub open spec fn edge_reweighted<Vw, Ew>(g0: GraphView<Vw, Ew>, g1: GraphView<Vw, Ew>, b: usize, idx: int) -> bool {
    &&& g1.vertices == g0.vertices
    &&& g1.weights == g0.weights
    &&& g1.out_edges == g0.out_edges.insert(b, g0.out_edges[b].update(idx, (g0.out_edges[b][idx].0, g1.out_edges[b][idx].1)))
    &&& g1.directed == g0.directed
}

/// Changing the weight of a vertex behind changes that of the vertex in front
/// of it, and nothing else.
proof fn lemma_front_weight_update<Vw, Ew>(g0: GraphView<Vw, Ew>, map: Map<usize, usize>, back: Map<usize, usize>, v: usize)
    requires
        linked(g0, map, back),
        map.contains_key(v),
    ensures
        forall|g1: GraphView<Vw, Ew>|
            #![trigger front(g1, map, back)]
            #![trigger linked(g1, map, back)]
            reweighted(g0, g1, map[v]) ==> linked(g1, map, back) && reweighted(
                front(g0, map, back),
                front(g1, map, back),
                v,
            ) && front(g1, map, back).weights[v] == g1.weights[map[v]],
{
    assert forall|g1: GraphView<Vw, Ew>|
        #![trigger front(g1, map, back)]
        #![trigger linked(g1, map, back)]
        reweighted(g0, g1, map[v]) implies linked(g1, map, back) && reweighted(
            front(g0, map, back),
            front(g1, map, back),
            v,
        ) && front(g1, map, back).weights[v] == g1.weights[map[v]] by {
        assert(g0.has_vertex(map[v]));
        assert forall|x: usize| g1.has_vertex(x) == g0.has_vertex(x) by {}
        let f0 = front(g0, map, back);
        let f1 = front(g1, map, back);
        assert forall|k: usize| #[trigger] map.contains_key(k) && k != v implies map[k] != map[v] by {
            assert(back[map[k]] == k);
        }
        assert(f1.vertices =~= f0.vertices);
        assert(f1.weights =~= f0.weights.insert(v, f1.weights[v]));
        assert(f1.out_edges =~= f0.out_edges);
    }
}

/// Changing the weight of an edge stored behind changes that of the edge
/// stored in front of it, and nothing else.
proof fn lemma_front_edge_update<Vw, Ew>(
    g0: GraphView<Vw, Ew>,
    map: Map<usize, usize>,
    back: Map<usize, usize>,
    source: usize,
    idx: int,
)
    requires
        g0.wf(),
        linked(g0, map, back),
        map.contains_key(source),
        0 <= idx < g0.out_edges[map[source]].len(),
    ensures
        forall|g1: GraphView<Vw, Ew>|
            #![trigger front(g1, map, back)]
            #![trigger linked(g1, map, back)]
            edge_reweighted(g0, g1, map[source], idx) ==> linked(g1, map, back) && edge_reweighted(
                front(g0, map, back),
                front(g1, map, back),
                source,
                idx,
            ) && front(g1, map, back).out_edges[source][idx].1 == g1.out_edges[map[source]][idx].1,
{
    let b = map[source];
    assert forall|g1: GraphView<Vw, Ew>|
        #![trigger front(g1, map, back)]
        #![trigger linked(g1, map, back)]
        edge_reweighted(g0, g1, b, idx) implies linked(g1, map, back) && edge_reweighted(
            front(g0, map, back),
            front(g1, map, back),
            source,
            idx,
        ) && front(g1, map, back).out_edges[source][idx].1 == g1.out_edges[b][idx].1 by {
        assert forall|x: usize| g1.has_vertex(x) == g0.has_vertex(x) by {}
        let f0 = front(g0, map, back);
        let f1 = front(g1, map, back);
        assert forall|k: usize| #[trigger] map.contains_key(k) && k != source implies map[k] != b by {
            assert(back[map[k]] == k);
        }
        assert(f1.vertices =~= f0.vertices);
        assert(f1.weights =~= f0.weights);
        assert(front_edges(back, g1.out_edges[b]) =~= f0.out_edges[source].update(
            idx,
            (f0.out_edges[source][idx].0, g1.out_edges[b][idx].1),
        ));
        assert(f1.out_edges =~= f0.out_edges.insert(
            source,
            f0.out_edges[source].update(idx, (f0.out_edges[source][idx].0, f1.out_edges[source][idx].1)),
        ));
    }
}

/// A graph whose vertices may be any integers, each unique.
///
/// It is backed by an underlying graph, with a map from its vertices to the
/// vertices of the underlying graph. Vertices are added with
/// [`add_vertex_weighted`](VertexMapGraph::add_vertex_weighted). Vertices
/// cannot be removed, as that would not keep the vertices of the underlying
/// graph the same.
#[derive(Clone)]
pub struct VertexMapGraph<G: Graph> {
    /// The underlying graph.
    pub graph: G,
    /// The vertex of the underlying graph behind each vertex.
    pub map: HashMap<usize, usize>,
    /// The vertex in front of each vertex of the underlying graph.
    pub back: HashMap<usize, usize>,
}

impl<G: Graph> VertexMapGraph<G> {
    /// Creates a graph backed by the given graph, which has no vertices.
    pub fn new(graph: G) -> (r: Self)
        requires
            graph.wf(),
            graph.model().vertices.len() == 0,
        ensures
            r.wf(),
            r.graph == graph,
            r.map@ == Map::<usize, usize>::empty(),
            r.model().vertices.len() == 0,
            r.model().directed == graph.model().directed,
    {
        proof {
            graph.lemma_wf();
            assert forall|b: usize| !graph.model().has_vertex(b) by {
                graph.model().lemma_vertices(b);
            }
        }
        VertexMapGraph { graph, map: HashMap::new(), back: HashMap::new() }
    }

    /// Returns the vertex of the underlying graph behind `v`, if `v` is a
    /// vertex.
    pub fn backing_vertex(&self, v: usize) -> (r: Option<usize>)
        ensures
            match r {
                Some(b) => self.map@.contains_key(v) && self.map@[v] == b,
                None => !self.map@.contains_key(v),
            },
    {
        match self.map.get(&v) {
            Some(b) => Some(*b),
            None => None,
        }
    }

    /// Returns the vertex in front of the vertex `b` of the underlying graph.
    fn front_vertex(&self, b: usize) -> (r: usize)
        requires
            self.wf(),
            self.graph.model().has_vertex(b),
        ensures
            r == self.back@[b],
    {
        *self.back.get(&b).unwrap()
    }
}

impl<G: Graph> Graph for VertexMapGraph<G> {
    type VertexWeight = G::VertexWeight;

    type EdgeWeight = G::EdgeWeight;

    /// The underlying graph seen through the map: each vertex of the
    /// underlying graph is replaced by the vertex in front of it.
    closed spec fn model(&self) -> GraphView<G::VertexWeight, G::EdgeWeight> {
        front(self.graph.model(), self.map@, self.back@)
    }

    /// The underlying graph is consistent, and the map is one to one onto
    /// its vertices.
    open spec fn wf(&self) -> bool {
        &&& self.graph.wf()
        &&& linked(self.graph.model(), self.map@, self.back@)
    }

    proof fn lemma_wf(&self) {
        self.graph.lemma_wf();
        lemma_front_wf(self.graph.model(), self.map@, self.back@);
    }

    fn directed(&self) -> (r: bool) {
        self.graph.directed()
    }

    fn all_vertices_weighted(&self) -> (r: Vec<(usize, &G::VertexWeight)>) {
        proof {
            self.graph.lemma_wf();
        }
        let all = self.graph.all_vertices_weighted();
        let ghost g = self.graph.model();
        let mut r: Vec<(usize, &G::VertexWeight)> = Vec::new();
        let mut i: usize = 0;
        while i < all.len()
            invariant
                self.wf(),
                g == self.graph.model(),
                g.wf(),
                all@.len() == g.vertices.len(),
                forall|j: int|
                    0 <= j < all@.len() ==> (#[trigger] all@[j]).0 == g.vertices[j] && *all@[j].1
                        == g.weights[g.vertices[j]],
                i <= all@.len(),
                r@.len() == i,
                forall|j: int|
                    0 <= j < i ==> (#[trigger] r@[j]).0 == self.back@[g.vertices[j]] && *r@[j].1
                        == g.weights[g.vertices[j]],
            decreases all.len() - i,
        {
            let (b, w) = all[i];
            proof {
                assert(g.vertices.contains(g.vertices[i as int]));
            }
            let k = self.front_vertex(b);
            r.push((k, w));
            i += 1;
        }
        proof {
            let f = self.model();
            assert forall|j: int| 0 <= j < r@.len() implies (#[trigger] r@[j]).0 == f.vertices[j] && *r@[j].1
                == f.weights[f.vertices[j]] by {
                assert(g.vertices.contains(g.vertices[j]));
                assert(g.has_vertex(g.vertices[j]));
            }
        }
        r
    }

    fn edges_between(&self, source: usize, sink: usize) -> (r: Vec<&G::EdgeWeight>) {
        proof {
            self.graph.lemma_wf();
            lemma_front_between(self.graph.model(), self.map@, self.back@, source, sink);
        }
        match (self.backing_vertex(source), self.backing_vertex(sink)) {
            (Some(so), Some(si)) => self.graph.edges_between(so, si),
            _ => {
                let r: Vec<&G::EdgeWeight> = Vec::new();
                proof {
                    assert(deref_seq(r@) =~= Seq::empty());
                }
                r
            },
        }
    }

    fn edges_stored_from(&self, v: usize) -> (r: Vec<(usize, &G::EdgeWeight)>) {
        proof {
            self.graph.lemma_wf();
        }
        let mut r: Vec<(usize, &G::EdgeWeight)> = Vec::new();
        match self.backing_vertex(v) {
            Some(b) => {
                let es = self.graph.edges_stored_from(b);
                let ghost g = self.graph.model();
                let mut i: usize = 0;
                while i < es.len()
                    invariant
                        self.wf(),
                        g == self.graph.model(),
                        g.wf(),
                        g.has_vertex(b),
                        deref_pairs(es@) == g.out_edges[b],
                        i <= es@.len(),
                        deref_pairs(r@) == front_edges(self.back@, g.out_edges[b].take(i as int)),
                    decreases es.len() - i,
                {
                    let (s, w) = es[i];
                    proof {
                        assert(deref_pairs(es@)[i as int] == g.out_edges[b][i as int]);
                        assert(g.has_vertex(g.out_edges[b][i as int].0));
                    }
                    let k = self.front_vertex(s);
                    let ghost r0 = r@;
                    r.push((k, w));
                    i += 1;
                    proof {
                        lemma_deref_pairs_push(r0, (k, w));
                        let e = g.out_edges[b][i - 1];
                        assert(e == (s, *w));
                        assert(g.out_edges[b].take(i as int) =~= g.out_edges[b].take(i - 1).push(e));
                        assert(front_edges(self.back@, g.out_edges[b].take(i as int)) =~= front_edges(
                            self.back@,
                            g.out_edges[b].take(i - 1),
                        ).push((self.back@[e.0], e.1)));
                    }
                }
                proof {
                    assert(g.out_edges[b].take(i as int) =~= g.out_edges[b]);
                }
                r
            },
            None => {
                proof {
                    assert(deref_pairs(r@) =~= Seq::empty());
                }
                r
            },
        }
    }
}

impl<G: NewVertex> VertexMapGraph<G> {
    /// Adds the vertex `v`, which must not be a vertex yet, with the given
    /// weight: a new vertex of the underlying graph is put behind it. Fails,
    /// changing nothing, if the underlying graph refuses the new vertex.
    pub fn add_vertex_weighted(&mut self, v: usize, w: G::VertexWeight) -> (r: Result<(), ()>)
        requires
            old(self).wf(),
            !old(self).map@.contains_key(v),
        ensures
            final(self).wf(),
            r is Ok <==> old(self).graph.accepts_new_vertex(),
            match r {
                Ok(_) => {
                    &&& old(self).model().adds_vertex(final(self).model(), v, w)
                    &&& final(self).map@ == old(self).map@.insert(v, final(self).map@[v])
                    &&& old(self).graph.model().adds_vertex(final(self).graph.model(), final(self).map@[v], w)
                },
                Err(_) => {
                    &&& final(self).model() == old(self).model()
                    &&& final(self).graph.model() == old(self).graph.model()
                    &&& final(self).map@ == old(self).map@
                },
            },
    {
        proof {
            self.graph.lemma_wf();
        }
        match self.graph.new_vertex_weighted(w) {
            Ok(b) => {
                self.map.insert(v, b);
                self.back.insert(b, v);
                proof {
                    let g0 = old(self).graph.model();
                    let g1 = self.graph.model();
                    let m0 = old(self).map@;
                    let m1 = self.map@;
                    let k0 = old(self).back@;
                    let k1 = self.back@;
                    assert forall|k: usize| #[trigger] m1.contains_key(k) implies g1.has_vertex(m1[k]) && k1.contains_key(
                        m1[k],
                    ) && k1[m1[k]] == k by {
                        if k != v {
                            assert(g0.has_vertex(m0[k]));
                        }
                    }
                    assert forall|x: usize| #[trigger] g1.has_vertex(x) implies k1.contains_key(x) && m1.contains_key(
                        k1[x],
                    ) && m1[k1[x]] == x by {
                        if x != b {
                            assert(g0.has_vertex(x));
                            assert(k0[x] != v);
                        }
                    }
                    let f0 = old(self).model();
                    let f1 = self.model();
                    assert forall|i: int| 0 <= i < g0.vertices.len() implies #[trigger] k1[g0.vertices[i]]
                        == k0[g0.vertices[i]] by {
                        assert(g0.vertices.contains(g0.vertices[i]));
                    }
                    assert(f1.vertices =~= f0.vertices.push(v));
                    assert(f1.weights =~= f0.weights.insert(v, w));
                    assert forall|k: usize| #[trigger] m0.contains_key(k) implies f1.out_edges[k] == f0.out_edges[k] by {
                        assert(g0.has_vertex(m0[k]));
                        assert(m1[k] == m0[k]);
                        assert forall|j: int| 0 <= j < g0.out_edges[m0[k]].len() implies #[trigger] k1[g0.out_edges[m0[k]][j].0]
                            == k0[g0.out_edges[m0[k]][j].0] by {
                            assert(g0.has_vertex(g0.out_edges[m0[k]][j].0));
                        }
                        assert(front_edges(k1, g1.out_edges[m1[k]]) =~= front_edges(k0, g0.out_edges[m0[k]]));
                    }
                    assert(f1.out_edges =~= f0.out_edges.insert(v, f1.out_edges[v]));
                    assert(f1.out_edges[v].len() == 0);
                }
                Ok(())
            },
            Err(_) => Err(()),
        }
    }

    /// Adds the vertex `v`, which must not be a vertex yet, with the default
    /// weight.
    pub fn add_vertex(&mut self, v: usize) -> (r: Result<(), ()>)
        where G::VertexWeight: Default
        requires
            old(self).wf(),
            !old(self).map@.contains_key(v),
        ensures
            final(self).wf(),
            r is Ok <==> old(self).graph.accepts_new_vertex(),
            match r {
                Ok(_) => {
                    &&& old(self).model().adds_vertex(final(self).model(), v, final(self).model().weights[v])
                    &&& final(self).map@ == old(self).map@.insert(v, final(self).map@[v])
                },
                Err(_) => final(self).model() == old(self).model() && final(self).map@ == old(self).map@,
            },
    {
        self.add_vertex_weighted(v, Default::default())
    }
}

impl<G: VertexCount> VertexCount for VertexMapGraph<G> {
    fn vertex_count(&self) -> (r: usize) {
        self.graph.vertex_count()
    }
}

impl<G: EdgeCount> EdgeCount for VertexMapGraph<G> {
    fn edge_count(&self) -> (r: usize) {
        proof {
            self.graph.lemma_wf();
            lemma_front_edge_count(self.graph.model(), self.map@, self.back@, self.graph.model().vertices.len());
        }
        self.graph.edge_count()
    }
}

impl<G: AddEdge> AddEdge for VertexMapGraph<G> {
    /// An edge is taken when both its ends are vertices and the underlying
    /// graph takes the edge between the vertices behind them.
    open spec fn accepts_edge(&self, source: usize, sink: usize, weight: G::EdgeWeight) -> bool {
        &&& self.map@.contains_key(source)
        &&& self.map@.contains_key(sink)
        &&& self.graph.accepts_edge(self.map@[source], self.map@[sink], weight)
    }

    /// Adds an edge from `source` to `sink` with the given weight, between
    /// the vertices behind them. Fails, changing nothing, if either is not a
    /// vertex or the underlying graph refuses the edge.
    fn add_edge_weighted(&mut self, source: usize, sink: usize, weight: G::EdgeWeight) -> (r: Result<(), ()>)
        ensures
            final(self).map@ == old(self).map@,
            !(old(self).map@.contains_key(source) && old(self).map@.contains_key(sink)) ==> r is Err,
    {
        match (self.backing_vertex(source), self.backing_vertex(sink)) {
            (Some(so), Some(si)) => {
                let r = self.graph.add_edge_weighted(so, si, weight);
                proof {
                    let g0 = old(self).graph.model();
                    let g1 = self.graph.model();
                    assert(g1.weights == g0.weights);
                    assert(self.map@ == old(self).map@ && self.back@ == old(self).back@);
                    assert(linked(g0, self.map@, self.back@));
                    assert forall|x: usize| g1.has_vertex(x) == g0.has_vertex(x) by {}
                    assert(linked(g1, self.map@, self.back@));
                    if r is Ok {
                        let f0 = old(self).model();
                        let f1 = self.model();
                        assert(f1.weights =~= f0.weights);
                        assert(f1.vertices =~= f0.vertices);
                        assert(front_edges(self.back@, g1.out_edges[so]) =~= front_edges(self.back@, g0.out_edges[so]).push(
                            (sink, weight),
                        ));
                        assert(f1.out_edges =~= f0.with_edge(source, sink, weight).out_edges);
                    } else {
                        assert(self.model() =~= old(self).model());
                    }
                }
                r
            },
            _ => Err(()),
        }
    }
}

impl<G: RemoveEdge> RemoveEdge for VertexMapGraph<G> {
    fn remove_edge_at(&mut self, source: usize, idx: usize) -> (r: (usize, G::EdgeWeight)) {
        proof {
            self.graph.lemma_wf();
        }
        let b = *self.map.get(&source).unwrap();
        let ghost g0 = self.graph.model();
        proof {
            assert(g0.has_vertex(g0.out_edges[b][idx as int].0));
        }
        let (s, w) = self.graph.remove_edge_at(b, idx);
        let k = *self.back.get(&s).unwrap();
        proof {
            let g1 = self.graph.model();
            assert(self.map@ == old(self).map@ && self.back@ == old(self).back@);
            assert forall|x: usize| g1.has_vertex(x) == g0.has_vertex(x) by {}
            assert(linked(g1, self.map@, self.back@));
            let f0 = old(self).model();
            let f1 = self.model();
            assert(f1.weights =~= f0.weights);
            assert(f1.vertices =~= f0.vertices);
            assert(front_edges(self.back@, g1.out_edges[b]) =~= front_edges(self.back@, g0.out_edges[b]).remove(idx as int));
            assert(f1.out_edges =~= f0.without_edge(source, idx as int).out_edges);
        }
        (k, w)
    }
}

impl<G: GraphMut> GraphMut for VertexMapGraph<G> {
    fn vertex_weight_mut(&mut self, v: usize) -> (r: &mut G::VertexWeight) {
        let b = *self.map.get(&v).unwrap();
        proof {
            lemma_front_weight_update(self.graph.model(), self.map@, self.back@, v);
        }
        self.graph.vertex_weight_mut(b)
    }

    fn edge_weight_mut(&mut self, source: usize, idx: usize) -> (r: &mut G::EdgeWeight) {
        let b = *self.map.get(&source).unwrap();
        proof {
            self.graph.lemma_wf();
            lemma_front_edge_update(self.graph.model(), self.map@, self.back@, source, idx as int);
        }
        self.graph.edge_weight_mut(b, idx)
    }
}

} // verus!
