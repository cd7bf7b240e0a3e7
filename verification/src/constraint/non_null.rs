//! Graphs with at least one vertex.
use crate::constraint::{is_non_null, Constrainer, NonNull};
use crate::graph::Graph;
use crate::property::{AddEdge, NewVertex, RemoveEdge, RemoveVertex};
use crate::view::{remove_shift, GraphView};
use vstd::prelude::*;

verus! {

/// A graph with at least one vertex: see [`NonNull`].
pub struct NonNullGraph<C: Graph>(C);

impl<C: Graph> NonNullGraph<C> {
    /// Constrains the given graph, which must have a vertex.
    pub fn new(c: C) -> (r: Self)
        requires
            c.wf(),
            is_non_null(c.model()),
        ensures
            r.wf(),
            r.constrained() == c,
            r.model() == c.model(),
    {
        NonNullGraph(c)
    }
}

impl<C: Graph> Graph for NonNullGraph<C> {
    type VertexWeight = C::VertexWeight;

    type EdgeWeight = C::EdgeWeight;

    closed spec fn model(&self) -> GraphView<C::VertexWeight, C::EdgeWeight> {
        self.0.model()
    }

    closed spec fn wf(&self) -> bool {
        self.0.wf() && is_non_null(self.0.model())
    }

    proof fn lemma_wf(&self) {
        self.0.lemma_wf();
    }

    fn directed(&self) -> (r: bool) {
        self.0.directed()
    }

    fn all_vertices_weighted(&self) -> (r: Vec<(usize, &C::VertexWeight)>) {
        self.0.all_vertices_weighted()
    }

    fn edges_between(&self, source: usize, sink: usize) -> (r: Vec<&C::EdgeWeight>) {
        self.0.edges_between(source, sink)
    }

    fn edges_stored_from(&self, v: usize) -> (r: Vec<(usize, &C::EdgeWeight)>) {
        self.0.edges_stored_from(v)
    }
}

impl<C: Graph> Constrainer for NonNullGraph<C> {
    type Constrained = C;

    closed spec fn constrained(&self) -> C {
        self.0
    }

    open spec fn holds(g: &C) -> bool {
        is_non_null(g.model())
    }

    open spec fn constrained_model(g: &C) -> GraphView<C::VertexWeight, C::EdgeWeight> {
        g.model()
    }

    proof fn lemma_constrained(&self) {
    }

    fn constrain_single(g: C) -> (r: Result<Self, ()>) {
        let vs = g.all_vertices();
        if vs.len() > 0 {
            Ok(Self::new(g))
        } else {
            Err(())
        }
    }

    fn unconstrain_single(self) -> (r: C) {
        self.0
    }
}

impl<C: Graph> NonNull for NonNullGraph<C> {
    proof fn lemma_non_null(&self) {
    }
}

impl<C: NewVertex> NewVertex for NonNullGraph<C> {
    /// A new vertex is taken when the wrapped graph takes it.
    open spec fn accepts_new_vertex(&self) -> bool {
        self.constrained().accepts_new_vertex()
    }

    fn new_vertex_weighted(&mut self, w: C::VertexWeight) -> (r: Result<usize, ()>) {
        self.0.new_vertex_weighted(w)
    }
}

/// Removing one of at least two vertices leaves a vertex.
proof fn lemma_remove_shift_len(s: Seq<usize>, v: usize)
    requires
        s.no_duplicates(),
    ensures
        remove_shift(s, v).len() >= s.len() - 1,
    decreases s.len(),
{
    if s.len() > 0 {
        lemma_remove_shift_len(s.drop_last(), v);
        if s.last() == v {
            assert forall|i: int| 0 <= i < s.drop_last().len() implies s.drop_last()[i] != v by {
                assert(s[i] != s[s.len() - 1]);
            }
            lemma_remove_shift_absent(s.drop_last(), v);
        }
    }
}

proof fn lemma_remove_shift_absent(s: Seq<usize>, v: usize)
    requires
        forall|i: int| 0 <= i < s.len() ==> s[i] != v,
    ensures
        remove_shift(s, v).len() == s.len(),
    decreases s.len(),
{
    if s.len() > 0 {
        lemma_remove_shift_absent(s.drop_last(), v);
    }
}

impl<C: RemoveVertex> RemoveVertex for NonNullGraph<C> {
    /// A vertex can be removed when the wrapped graph lets it be and it is
    /// not the only one.
    open spec fn accepts_vertex_removal(&self, v: usize) -> bool {
        self.model().vertices.len() >= 2 && self.constrained().accepts_vertex_removal(v)
    }

    /// Removes the vertex unless it is the only one.
    fn remove_vertex(&mut self, v: usize) -> (r: Result<C::VertexWeight, ()>)
        ensures
            old(self).model().vertices.len() < 2 ==> r is Err,
    {
        proof {
            self.0.lemma_wf();
        }
        let vs = self.0.all_vertices();
        if vs.len() >= 2 {
            let ghost g0 = self.0.model();
            let r = self.0.remove_vertex(v);
            proof {
                if r is Ok {
                    lemma_remove_shift_len(g0.vertices, v);
                }
            }
            r
        } else {
            Err(())
        }
    }
}

impl<C: AddEdge> AddEdge for NonNullGraph<C> {
    /// An edge is taken when the wrapped graph takes it.
    open spec fn accepts_edge(&self, source: usize, sink: usize, weight: C::EdgeWeight) -> bool {
        self.constrained().accepts_edge(source, sink, weight)
    }

    fn add_edge_weighted(&mut self, source: usize, sink: usize, weight: C::EdgeWeight) -> (r: Result<(), ()>) {
        self.0.add_edge_weighted(source, sink, weight)
    }
}

impl<C: RemoveEdge> RemoveEdge for NonNullGraph<C> {
    fn remove_edge_at(&mut self, source: usize, idx: usize) -> (r: (usize, C::EdgeWeight)) {
        self.0.remove_edge_at(source, idx)
    }
}

} // verus!
