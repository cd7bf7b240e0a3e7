//! Graphs without loops.
use crate::constraint::{has_no_loops, Constrainer, NoLoops};
use crate::graph::Graph;
use crate::property::{AddEdge, NewVertex, RemoveEdge, RemoveVertex};
use crate::view::{deref_seq, GraphView};
use vstd::prelude::*;

verus! {

/// Whether some vertex of the graph has an edge to itself.
pub fn has_loop<G: Graph>(g: &G) -> (r: bool)
    requires
        g.wf(),
    ensures
        r == !has_no_loops(g.model()),
{
    proof {
        g.lemma_wf();
    }
    let vs = g.all_vertices();
    let mut i: usize = 0;
    while i < vs.len()
        invariant
            g.wf(),
            g.model().wf(),
            vs@ == g.model().vertices,
            i <= vs@.len(),
            forall|a: int| 0 <= a < i ==> #[trigger] g.model().between(vs@[a], vs@[a]).len() == 0,
        decreases vs.len() - i,
    {
        let es = g.edges_between(vs[i], vs[i]);
        proof {
            assert(deref_seq(es@).len() == es@.len());
        }
        if es.len() > 0 {
            proof {
                g.model().lemma_vertices(vs@[i as int]);
            }
            return true;
        }
        i += 1;
    }
    proof {
        assert forall|v: usize| g.model().has_vertex(v) implies #[trigger] g.model().between(v, v).len() == 0 by {
            g.model().lemma_vertices(v);
            let a = choose|a: int| 0 <= a < vs@.len() && vs@[a] == v;
            assert(g.model().between(vs@[a], vs@[a]).len() == 0);
        }
    }
    false
}

/// A graph without loops: see [`NoLoops`].
pub struct NoLoopsGraph<C: Graph>(C);

impl<C: Graph> Graph for NoLoopsGraph<C> {
    type VertexWeight = C::VertexWeight;

    type EdgeWeight = C::EdgeWeight;

    closed spec fn model(&self) -> GraphView<C::VertexWeight, C::EdgeWeight> {
        self.0.model()
    }

    closed spec fn wf(&self) -> bool {
        self.0.wf() && has_no_loops(self.0.model())
    }

    proof fn lemma_wf(&self) {
        self.0.lemma_wf();
    }

    fn directed(&self) -> (r: bool) {
        self.0.directed()
    }

    fn all_vertices_weighted(&self) -> (r: Vec<(usize, &C::VertexWeight)>) {
        self.0.all_vertices_weighted()
    }

    fn edges_between(&self, source: usize, sink: usize) -> (r: Vec<&C::EdgeWeight>) {
        self.0.edges_between(source, sink)
    }

    fn edges_stored_from(&self, v: usize) -> (r: Vec<(usize, &C::EdgeWeight)>) {
        self.0.edges_stored_from(v)
    }
}

impl<C: Graph> Constrainer for NoLoopsGraph<C> {
    type Constrained = C;

    closed spec fn constrained(&self) -> C {
        self.0
    }

    open spec fn holds(g: &C) -> bool {
        has_no_loops(g.model())
    }

    open spec fn constrained_model(g: &C) -> GraphView<C::VertexWeight, C::EdgeWeight> {
        g.model()
    }

    proof fn lemma_constrained(&self) {
    }

    fn constrain_single(g: C) -> (r: Result<Self, ()>) {
        if has_loop(&g) {
            Err(())
        } else {
            Ok(NoLoopsGraph(g))
        }
    }

    fn unconstrain_single(self) -> (r: C) {
        self.0
    }
}

impl<C: Graph> NoLoops for NoLoopsGraph<C> {
    proof fn lemma_no_loops(&self) {
    }
}

impl<C: NewVertex> NewVertex for NoLoopsGraph<C> {
    /// A new vertex is taken when the wrapped graph takes it.
    open spec fn accepts_new_vertex(&self) -> bool {
        self.constrained().accepts_new_vertex()
    }

    fn new_vertex_weighted(&mut self, w: C::VertexWeight) -> (r: Result<usize, ()>) {
        let ghost g0 = self.0.model();
        proof {
            self.0.lemma_wf();
        }
        let r = self.0.new_vertex_weighted(w);
        proof {
            if let Ok(v) = r {
                let g = self.0.model();
                assert forall|u: usize| g.has_vertex(u) implies #[trigger] g.between(u, u).len() == 0 by {
                    g0.lemma_between_adds_vertex(g, v, w, u, u);
                    assert(g.has_vertex(u) == (g0.has_vertex(u) || u == v));
                }
            }
        }
        r
    }
}

impl<C: RemoveVertex> RemoveVertex for NoLoopsGraph<C> {
    /// A vertex can be removed when the wrapped graph lets it be.
    open spec fn accepts_vertex_removal(&self, v: usize) -> bool {
        self.constrained().accepts_vertex_removal(v)
    }

    fn remove_vertex(&mut self, v: usize) -> (r: Result<C::VertexWeight, ()>) {
        let ghost g0 = self.0.model();
        proof {
            self.0.lemma_wf();
        }
        let r = self.0.remove_vertex(v);
        proof {
            if r is Ok {
                let g = self.0.model();
                assert forall|x: usize| g.has_vertex(x) implies #[trigger] g.between(x, x).len() == 0 by {
                    g0.lemma_between_without_vertex(v, x, x);
                }
            }
        }
        r
    }
}

impl<C: RemoveEdge> RemoveEdge for NoLoopsGraph<C> {
    fn remove_edge_at(&mut self, source: usize, idx: usize) -> (r: (usize, C::EdgeWeight)) {
        let ghost g0 = self.0.model();
        proof {
            self.0.lemma_wf();
        }
        let r = self.0.remove_edge_at(source, idx);
        proof {
            let g = self.0.model();
            assert forall|x: usize| g.has_vertex(x) implies #[trigger] g.between(x, x).len() == 0 by {
                g0.lemma_between_without_edge(source, idx as int, x, x);
            }
        }
        r
    }
}

impl<C: AddEdge> AddEdge for NoLoopsGraph<C> {
    /// An edge is taken when it is not a loop and the wrapped graph takes it.
    open spec fn accepts_edge(&self, source: usize, sink: usize, weight: C::EdgeWeight) -> bool {
        source != sink && self.constrained().accepts_edge(source, sink, weight)
    }

    /// Adds the edge unless it is a loop.
    fn add_edge_weighted(&mut self, source: usize, sink: usize, weight: C::EdgeWeight) -> (r: Result<(), ()>)
        ensures
            source == sink ==> r is Err,
    {
        if source == sink {
            return Err(());
        }
        let ghost g0 = self.0.model();
        proof {
            self.0.lemma_wf();
        }
        let r = self.0.add_edge_weighted(source, sink, weight);
        proof {
            if r is Ok {
                let g = self.0.model();
                assert forall|x: usize| g.has_vertex(x) implies #[trigger] g.between(x, x).len() == 0 by {
                    g0.lemma_between_with_edge(source, sink, weight, x, x);
                }
            }
        }
        r
    }
}

} // verus!
