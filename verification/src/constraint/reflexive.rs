//! Reflexive graphs: every vertex has exactly one loop.
use crate::adjacency_list::AdjListGraph;
use crate::constraint::{is_reflexive, Constrainer, Reflexive};
use crate::directedness::Directedness;
use crate::graph::Graph;
use crate::property::{AddEdge, NewVertex, RemoveEdge, RemoveVertex};
use crate::view::{deref_pairs, deref_seq, GraphView};
use vstd::prelude::*;

verus! {

/// Whether every vertex of the graph has exactly one loop.
pub fn every_vertex_has_one_loop<G: Graph>(g: &G) -> (r: bool)
    requires
        g.wf(),
    ensures
        r == is_reflexive(g.model()),
{
    proof {
        g.lemma_wf();
    }
    let vs = g.all_vertices();
    let mut i: usize = 0;
    while i < vs.len()
        invariant
            g.wf(),
            g.model().wf(),
            vs@ == g.model().vertices,
            i <= vs@.len(),
            forall|a: int| 0 <= a < i ==> #[trigger] g.model().between(vs@[a], vs@[a]).len() == 1,
        decreases vs.len() - i,
    {
        let es = g.edges_between(vs[i], vs[i]);
        proof {
            assert(deref_seq(es@).len() == es@.len());
        }
        if es.len() != 1 {
            proof {
                g.model().lemma_vertices(vs@[i as int]);
            }
            return false;
        }
        i += 1;
    }
    proof {
        assert forall|v: usize| g.model().has_vertex(v) implies #[trigger] g.model().between(v, v).len() == 1 by {
            g.model().lemma_vertices(v);
            let a = choose|a: int| 0 <= a < vs@.len() && vs@[a] == v;
            assert(g.model().between(vs@[a], vs@[a]).len() == 1);
        }
    }
    true
}

/// Whether, for every stored edge before the `j`th edge of the `m`th vertex,
/// the edge is a loop or `f` answered `false` for it.
pub open spec fn rejected_or_loop_before<Vw, Ew, F: Fn((usize, usize, &Ew)) -> bool>(
    g: GraphView<Vw, Ew>,
    f: F,
    m: int,
    j: int,
) -> bool {
    forall|m2: int, j2: int|
        #![trigger g.out_edges[g.vertices[m2]][j2]]
        g.edge_before(m2, j2, m, j) ==> g.out_edges[g.vertices[m2]][j2].0 == g.vertices[m2]
            || f.ensures(
            (
                (
                    g.vertices[m2],
                    g.out_edges[g.vertices[m2]][j2].0,
                    &g.out_edges[g.vertices[m2]][j2].1,
                ),
            ),
            false,
        )
}

/// A reflexive graph: see [`Reflexive`].
pub struct ReflexiveGraph<C: Graph>(C);

impl<C: Graph> Graph for ReflexiveGraph<C> {
    type VertexWeight = C::VertexWeight;

    type EdgeWeight = C::EdgeWeight;

    closed spec fn model(&self) -> GraphView<C::VertexWeight, C::EdgeWeight> {
        self.0.model()
    }

    closed spec fn wf(&self) -> bool {
        self.0.wf() && is_reflexive(self.0.model())
    }

    proof fn lemma_wf(&self) {
        self.0.lemma_wf();
    }

    fn directed(&self) -> (r: bool) {
        self.0.directed()
    }

    fn all_vertices_weighted(&self) -> (r: Vec<(usize, &C::VertexWeight)>) {
        self.0.all_vertices_weighted()
    }

    fn edges_between(&self, source: usize, sink: usize) -> (r: Vec<&C::EdgeWeight>) {
        self.0.edges_between(source, sink)
    }

    fn edges_stored_from(&self, v: usize) -> (r: Vec<(usize, &C::EdgeWeight)>) {
        self.0.edges_stored_from(v)
    }
}

impl<C: Graph> Constrainer for ReflexiveGraph<C> {
    type Constrained = C;

    closed spec fn constrained(&self) -> C {
        self.0
    }

    open spec fn holds(g: &C) -> bool {
        is_reflexive(g.model())
    }

    open spec fn constrained_model(g: &C) -> GraphView<C::VertexWeight, C::EdgeWeight> {
        g.model()
    }

    proof fn lemma_constrained(&self) {
    }

    fn constrain_single(g: C) -> (r: Result<Self, ()>) {
        if every_vertex_has_one_loop(&g) {
            Ok(ReflexiveGraph(g))
        } else {
            Err(())
        }
    }

    fn unconstrain_single(self) -> (r: C) {
        self.0
    }
}

impl<C: Graph> Reflexive for ReflexiveGraph<C> {
    proof fn lemma_reflexive(&self) {
    }
}

impl<C: RemoveVertex> RemoveVertex for ReflexiveGraph<C> {
    /// A vertex can be removed when the wrapped graph lets it be.
    open spec fn accepts_vertex_removal(&self, v: usize) -> bool {
        self.constrained().accepts_vertex_removal(v)
    }

    /// Removes the vertex together with its loop and every other edge
    /// incident on it.
    fn remove_vertex(&mut self, v: usize) -> (r: Result<C::VertexWeight, ()>) {
        let ghost g0 = self.0.model();
        proof {
            self.0.lemma_wf();
        }
        let r = self.0.remove_vertex(v);
        proof {
            if r is Ok {
                let g = self.0.model();
                assert forall|x: usize| g.has_vertex(x) implies #[trigger] g.between(x, x).len() == 1 by {
                    g0.lemma_between_without_vertex(v, x, x);
                }
            }
        }
        r
    }
}

impl<C: AddEdge> AddEdge for ReflexiveGraph<C> {
    /// An edge is taken when it is not a loop and the wrapped graph takes it.
    open spec fn accepts_edge(&self, source: usize, sink: usize, weight: C::EdgeWeight) -> bool {
        source != sink && self.constrained().accepts_edge(source, sink, weight)
    }

    /// Adds the edge unless it is a loop: every vertex already has its one
    /// loop.
    fn add_edge_weighted(&mut self, source: usize, sink: usize, weight: C::EdgeWeight) -> (r: Result<(), ()>)
        ensures
            source == sink ==> r is Err,
    {
        if source == sink {
            return Err(());
        }
        let ghost g0 = self.0.model();
        proof {
            self.0.lemma_wf();
        }
        let r = self.0.add_edge_weighted(source, sink, weight);
        proof {
            if r is Ok {
                let g = self.0.model();
                assert forall|x: usize| g.has_vertex(x) implies #[trigger] g.between(x, x).len() == 1 by {
                    g0.lemma_between_with_edge(source, sink, weight, x, x);
                }
            }
        }
        r
    }
}

impl<C: RemoveEdge> ReflexiveGraph<C> {
    /// Removes the first stored edge, in vertex then storage order, that is
    /// not a loop and for which `f` returns `true`, returning its source, sink
    /// and weight. Loops are never removed, so every vertex keeps its loop.
    pub fn remove_edge_where<F: Fn((usize, usize, &C::EdgeWeight)) -> bool>(&mut self, f: F) -> (r:
        Result<(usize, usize, C::EdgeWeight), ()>)
        requires
            old(self).wf(),
            forall|e: (usize, usize, &C::EdgeWeight)| #[trigger] f.requires((e,)),
        ensures
            final(self).wf(),
            match r {
                Ok((u, si, w)) => exists|m: int, j: int|
                    {
                        &&& 0 <= m < old(self).model().vertices.len()
                        &&& old(self).model().vertices[m] == u
                        &&& 0 <= j < old(self).model().out_edges[u].len()
                        &&& old(self).model().out_edges[u][j] == (si, w)
                        &&& u != si
                        &&& f.ensures(((u, si, &w),), true)
                        &&& rejected_or_loop_before(old(self).model(), f, m, j)
                        &&& final(self).model() == old(self).model().without_edge(u, j)
                    },
                Err(_) => {
                    &&& final(self).model() == old(self).model()
                    &&& rejected_or_loop_before(
                        old(self).model(),
                        f,
                        old(self).model().vertices.len() as int,
                        0,
                    )
                },
            },
    {
        let ghost g0 = self.0.model();
        proof {
            self.0.lemma_wf();
        }
        let vs = self.0.all_vertices();
        let mut m: usize = 0;
        while m < vs.len()
            invariant
                self.wf(),
                g0 == self.0.model(),
                g0 == old(self).model(),
                g0.wf(),
                vs@ == g0.vertices,
                m <= vs@.len(),
                forall|e: (usize, usize, &C::EdgeWeight)| #[trigger] f.requires((e,)),
                rejected_or_loop_before(g0, f, m as int, 0),
            decreases vs.len() - m,
        {
            let u = vs[m];
            let es = self.0.edges_stored_from(u);
            proof {
                g0.lemma_vertices(u);
                assert(g0.vertices.contains(u));
            }
            let mut j: usize = 0;
            while j < es.len()
                invariant
                    self.wf(),
                    g0 == self.0.model(),
                    g0 == old(self).model(),
                    g0.wf(),
                    vs@ == g0.vertices,
                    m < vs@.len(),
                    u == vs@[m as int],
                    g0.has_vertex(u),
                    deref_pairs(es@) == g0.out_edges[u],
                    j <= es@.len(),
                    forall|e: (usize, usize, &C::EdgeWeight)| #[trigger] f.requires((e,)),
                    rejected_or_loop_before(g0, f, m as int, j as int),
                decreases es.len() - j,
            {
                proof {
                    assert(deref_pairs(es@)[j as int] == g0.out_edges[u][j as int]);
                }
                let hit = f((u, es[j].0, es[j].1));
                if hit && es[j].0 != u {
                    let ghost fe = (u, es@[j as int].0, es@[j as int].1);
                    let (si, w) = self.0.remove_edge_at(u, j);
                    proof {
                        assert(f.ensures((fe,), true));
                        assert((u, si, &w) == fe);
                        assert(g0.vertices[m as int] == u);
                        let g = self.0.model();
                        assert forall|x: usize| g.has_vertex(x) implies #[trigger] g.between(x, x).len() == 1 by {
                            g0.lemma_between_without_edge(u, j as int, x, x);
                        }
                    }
                    return Ok((u, si, w));
                }
                proof {
                    assert forall|m2: int, j2: int|
                        #![trigger g0.out_edges[g0.vertices[m2]][j2]]
                        g0.edge_before(m2, j2, m as int, j + 1) implies g0.out_edges[g0.vertices[m2]][j2].0
                        == g0.vertices[m2] || f.ensures(
                        (
                            (
                                g0.vertices[m2],
                                g0.out_edges[g0.vertices[m2]][j2].0,
                                &g0.out_edges[g0.vertices[m2]][j2].1,
                            ),
                        ),
                        false,
                    ) by {
                        if !g0.edge_before(m2, j2, m as int, j as int) {
                            assert(m2 == m && j2 == j);
                        }
                    }
                }
                j += 1;
            }
            proof {
                assert forall|m2: int, j2: int|
                    #![trigger g0.out_edges[g0.vertices[m2]][j2]]
                    g0.edge_before(m2, j2, m + 1, 0) implies g0.out_edges[g0.vertices[m2]][j2].0
                    == g0.vertices[m2] || f.ensures(
                    (
                        (
                            g0.vertices[m2],
                            g0.out_edges[g0.vertices[m2]][j2].0,
                            &g0.out_edges[g0.vertices[m2]][j2].1,
                        ),
                    ),
                    false,
                ) by {
                    if !g0.edge_before(m2, j2, m as int, j as int) {
                        assert(m2 == m);
                        assert(j2 < es@.len());
                    }
                }
            }
            m += 1;
        }
        Err(())
    }
}

impl<Vw, Ew: Default, D: Directedness> ReflexiveGraph<AdjListGraph<Vw, Ew, D>> {
    /// Adds a new vertex with the given weight, together with its loop,
    /// returning the vertex.
    pub fn new_vertex_weighted(&mut self, w: Vw) -> (r: Result<usize, ()>)
        requires
            old(self).wf(),
        ensures
            final(self).wf(),
            r matches Ok(v) && {
                &&& !old(self).model().has_vertex(v)
                &&& final(self).model().vertices == old(self).model().vertices.push(v)
                &&& final(self).model().weights == old(self).model().weights.insert(v, w)
                &&& final(self).model().out_edges.dom() == old(self).model().out_edges.dom().insert(v)
                &&& final(self).model().out_edges[v].len() == 1
                &&& final(self).model().out_edges[v][0].0 == v
                &&& forall|u: usize| #[trigger] old(self).model().has_vertex(u) ==> final(self).model().out_edges[u] == old(self).model().out_edges[u]
                &&& final(self).model().directed == old(self).model().directed
            },
    {
        let ghost g0 = self.0.model();
        proof {
            self.0.lemma_wf();
        }
        let v = match self.0.new_vertex_weighted(w) {
            Ok(v) => v,
            Err(_) => return Err(()),
        };
        let ghost g1 = self.0.model();
        proof {
            self.0.lemma_wf();
        }
        let added = self.0.add_edge_weighted(v, v, Default::default());
        proof {
            let g = self.0.model();
            assert(added is Ok);
            assert forall|x: usize| g.has_vertex(x) implies #[trigger] g.between(x, x).len() == 1 by {
                g0.lemma_between_adds_vertex(g1, v, w, x, x);
                g1.lemma_between_with_edge(v, v, g.out_edges[v][0].1, x, x);
                assert(g1.has_vertex(x));
            }
        }
        Ok(v)
    }
}

} // verus!
