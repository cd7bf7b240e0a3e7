//! Graphs whose edges are unique.
use crate::constraint::{is_unique, Constrainer, Unique};
use crate::graph::Graph;
use crate::property::{AddEdge, NewVertex, RemoveEdge, RemoveVertex};
use crate::view::{deref_seq, GraphView};
use vstd::prelude::*;

verus! {

/// Whether no two edges connect the same two vertices: for every pair of
/// vertices, [`edges_between`](Graph::edges_between) gives at most one edge.
pub fn edges_are_unique<G: Graph>(g: &G) -> (r: bool)
    requires
        g.wf(),
    ensures
        r == is_unique(g.model()),
{
    proof {
        g.lemma_wf();
    }
    let vs = g.all_vertices();
    let mut i: usize = 0;
    while i < vs.len()
        invariant
            g.wf(),
            g.model().wf(),
            vs@ == g.model().vertices,
            i <= vs@.len(),
            forall|a: int, w: usize|
                0 <= a < i && g.model().has_vertex(w) ==> #[trigger] g.model().between(vs@[a], w).len() <= 1,
        decreases vs.len() - i,
    {
        let mut j: usize = 0;
        while j < vs.len()
            invariant
                g.wf(),
                g.model().wf(),
                vs@ == g.model().vertices,
                i < vs@.len(),
                j <= vs@.len(),
                forall|a: int, w: usize|
                    0 <= a < i && g.model().has_vertex(w) ==> #[trigger] g.model().between(vs@[a], w).len() <= 1,
                forall|b: int| 0 <= b < j ==> #[trigger] g.model().between(vs@[i as int], vs@[b]).len() <= 1,
            decreases vs.len() - j,
        {
            let es = g.edges_between(vs[i], vs[j]);
            proof {
                assert(deref_seq(es@).len() == es@.len());
            }
            if es.len() > 1 {
                proof {
                    g.model().lemma_vertices(vs@[i as int]);
                    g.model().lemma_vertices(vs@[j as int]);
                }
                return false;
            }
            j += 1;
        }
        proof {
            assert forall|a: int, w: usize|
                0 <= a < i + 1 && g.model().has_vertex(w) implies #[trigger] g.model().between(vs@[a], w).len() <= 1 by {
                if a == i {
                    g.model().lemma_vertices(w);
                    let b = choose|b: int| 0 <= b < vs@.len() && vs@[b] == w;
                    assert(g.model().between(vs@[i as int], vs@[b]).len() <= 1);
                }
            }
        }
        i += 1;
    }
    proof {
        assert forall|u: usize, w: usize|
            g.model().has_vertex(u) && g.model().has_vertex(w) implies #[trigger] g.model().between(u, w).len() <= 1 by {
            g.model().lemma_vertices(u);
            let a = choose|a: int| 0 <= a < vs@.len() && vs@[a] == u;
            assert(g.model().between(vs@[a], w).len() <= 1);
        }
    }
    true
}

/// A graph whose edges are unique: see [`Unique`].
pub struct UniqueGraph<C: Graph>(C);

impl<C: Graph> UniqueGraph<C> {
    /// Constrains the given graph, whose edges must be unique.
    pub fn unchecked(c: C) -> (r: Self)
        requires
            c.wf(),
            is_unique(c.model()),
        ensures
            r.wf(),
            r.constrained() == c,
            r.model() == c.model(),
    {
        UniqueGraph(c)
    }
}

impl<C: Graph> Graph for UniqueGraph<C> {
    type VertexWeight = C::VertexWeight;

    type EdgeWeight = C::EdgeWeight;

    closed spec fn model(&self) -> GraphView<C::VertexWeight, C::EdgeWeight> {
        self.0.model()
    }

    closed spec fn wf(&self) -> bool {
        self.0.wf() && is_unique(self.0.model())
    }

    proof fn lemma_wf(&self) {
        self.0.lemma_wf();
    }

    fn directed(&self) -> (r: bool) {
        self.0.directed()
    }

    fn all_vertices_weighted(&self) -> (r: Vec<(usize, &C::VertexWeight)>) {
        self.0.all_vertices_weighted()
    }

    fn edges_between(&self, source: usize, sink: usize) -> (r: Vec<&C::EdgeWeight>) {
        self.0.edges_between(source, sink)
    }

    fn edges_stored_from(&self, v: usize) -> (r: Vec<(usize, &C::EdgeWeight)>) {
        self.0.edges_stored_from(v)
    }
}

impl<C: Graph> Constrainer for UniqueGraph<C> {
    type Constrained = C;

    closed spec fn constrained(&self) -> C {
        self.0
    }

    open spec fn holds(g: &C) -> bool {
        is_unique(g.model())
    }

    open spec fn constrained_model(g: &C) -> GraphView<C::VertexWeight, C::EdgeWeight> {
        g.model()
    }

    proof fn lemma_constrained(&self) {
    }

    fn constrain_single(g: C) -> (r: Result<Self, ()>) {
        if edges_are_unique(&g) {
            Ok(UniqueGraph(g))
        } else {
            Err(())
        }
    }

    fn unconstrain_single(self) -> (r: C) {
        self.0
    }
}

impl<C: Graph> Unique for UniqueGraph<C> {
    proof fn lemma_unique(&self) {
    }
}

impl<C: NewVertex> NewVertex for UniqueGraph<C> {
    /// A new vertex is taken when the wrapped graph takes it.
    open spec fn accepts_new_vertex(&self) -> bool {
        self.constrained().accepts_new_vertex()
    }

    fn new_vertex_weighted(&mut self, w: C::VertexWeight) -> (r: Result<usize, ()>) {
        let ghost g0 = self.0.model();
        proof {
            self.0.lemma_wf();
        }
        let r = self.0.new_vertex_weighted(w);
        proof {
            self.0.lemma_wf();
            if let Ok(v) = r {
                let g = self.0.model();
                assert forall|u: usize, x: usize| g.has_vertex(u) && g.has_vertex(x) implies #[trigger] g.between(u, x).len() <= 1 by {
                    g0.lemma_between_adds_vertex(g, v, w, u, x);
                    assert(g.has_vertex(u) == (g0.has_vertex(u) || u == v));
                    assert(g.has_vertex(x) == (g0.has_vertex(x) || x == v));
                }
            }
        }
        r
    }
}

impl<C: RemoveVertex> RemoveVertex for UniqueGraph<C> {
    /// A vertex can be removed when the wrapped graph lets it be.
    open spec fn accepts_vertex_removal(&self, v: usize) -> bool {
        self.constrained().accepts_vertex_removal(v)
    }

    fn remove_vertex(&mut self, v: usize) -> (r: Result<C::VertexWeight, ()>) {
        let ghost g0 = self.0.model();
        proof {
            self.0.lemma_wf();
        }
        let r = self.0.remove_vertex(v);
        proof {
            if r is Ok {
                let g = self.0.model();
                assert forall|x: usize, y: usize| g.has_vertex(x) && g.has_vertex(y) implies #[trigger] g.between(x, y).len() <= 1 by {
                    g0.lemma_between_without_vertex(v, x, y);
                }
            }
        }
        r
    }
}

impl<C: RemoveEdge> RemoveEdge for UniqueGraph<C> {
    fn remove_edge_at(&mut self, source: usize, idx: usize) -> (r: (usize, C::EdgeWeight)) {
        let ghost g0 = self.0.model();
        proof {
            self.0.lemma_wf();
        }
        let r = self.0.remove_edge_at(source, idx);
        proof {
            let g = self.0.model();
            assert forall|x: usize, y: usize| g.has_vertex(x) && g.has_vertex(y) implies #[trigger] g.between(x, y).len() <= 1 by {
                g0.lemma_between_without_edge(source, idx as int, x, y);
            }
        }
        r
    }
}

impl<C: AddEdge> UniqueGraph<C> {
    /// A unique graph takes an edge exactly when its two ends are not joined
    /// by an edge yet and the wrapped graph takes it; so a vertex without a
    /// loop takes a first one.
    pub proof fn lemma_takes_edges_not_yet_present(&self, source: usize, sink: usize, weight: C::EdgeWeight)
        requires
            self.wf(),
        ensures
            self.accepts_edge(source, sink, weight) <==> (self.model().between(source, sink).len() == 0
                && self.constrained().accepts_edge(source, sink, weight)),
            self.model().between(source, source).len() == 0 && self.constrained().accepts_edge(
                source,
                source,
                weight,
            ) ==> self.accepts_edge(source, source, weight),
    {
    }
}

impl<C: AddEdge> AddEdge for UniqueGraph<C> {
    /// An edge is taken when no edge connects its two ends yet and the
    /// wrapped graph takes it.
    open spec fn accepts_edge(&self, source: usize, sink: usize, weight: C::EdgeWeight) -> bool {
        self.model().between(source, sink).len() == 0 && self.constrained().accepts_edge(source, sink, weight)
    }

    /// Adds the edge unless the two vertices are already connected by one.
    fn add_edge_weighted(&mut self, source: usize, sink: usize, weight: C::EdgeWeight) -> (r: Result<(), ()>)
        ensures
            old(self).model().between(source, sink).len() > 0 ==> r is Err,
    {
        let existing = self.0.edges_between(source, sink);
        proof {
            assert(deref_seq(existing@).len() == existing@.len());
        }
        if existing.len() > 0 {
            return Err(());
        }
        let ghost g0 = self.0.model();
        proof {
            self.0.lemma_wf();
        }
        let r = self.0.add_edge_weighted(source, sink, weight);
        proof {
            if r is Ok {
                let g = self.0.model();
                assert forall|x: usize, y: usize| g.has_vertex(x) && g.has_vertex(y) implies #[trigger] g.between(x, y).len() <= 1 by {
                    g0.lemma_between_with_edge(source, sink, weight, x, y);
                    if !g0.directed && x == sink && y == source && source != sink {
                        g0.lemma_adjacent(source, sink);
                        g0.lemma_adjacent(sink, source);
                        assert(g0.between(source, sink).len() == 0);
                        assert(g0.adjacent(sink, source) == g0.adjacent(source, sink));
                    }
                }
            }
        }
        r
    }
}

} // verus!
