//! Graphs whose edges are all directed, or all undirected.
use crate::constraint::{Constrainer, DirectedConstraint, UndirectedConstraint};
use crate::graph::Graph;
use crate::property::{AddEdge, NewVertex, RemoveEdge, RemoveVertex};
use crate::view::GraphView;
use vstd::prelude::*;

verus! {

/// A graph whose edges are directed: see [`DirectedConstraint`].
pub struct DirectedGraph<C: Graph>(C);

impl<C: Graph> DirectedGraph<C> {
    /// Constrains the given graph, which must be directed.
    pub fn unchecked(c: C) -> (r: Self)
        requires
            c.wf(),
            c.model().directed,
        ensures
            r.wf(),
            r.constrained() == c,
            r.model() == c.model(),
    {
        DirectedGraph(c)
    }
}

impl<C: Graph> Graph for DirectedGraph<C> {
    type VertexWeight = C::VertexWeight;

    type EdgeWeight = C::EdgeWeight;

    closed spec fn model(&self) -> GraphView<C::VertexWeight, C::EdgeWeight> {
        self.0.model()
    }

    closed spec fn wf(&self) -> bool {
        self.0.wf() && self.0.model().directed
    }

    proof fn lemma_wf(&self) {
        self.0.lemma_wf();
    }

    fn directed(&self) -> (r: bool) {
        self.0.directed()
    }

    fn all_vertices_weighted(&self) -> (r: Vec<(usize, &C::VertexWeight)>) {
        self.0.all_vertices_weighted()
    }

    fn edges_between(&self, source: usize, sink: usize) -> (r: Vec<&C::EdgeWeight>) {
        self.0.edges_between(source, sink)
    }

    fn edges_stored_from(&self, v: usize) -> (r: Vec<(usize, &C::EdgeWeight)>) {
        self.0.edges_stored_from(v)
    }
}

impl<C: Graph> Constrainer for DirectedGraph<C> {
    type Constrained = C;

    closed spec fn constrained(&self) -> C {
        self.0
    }

    open spec fn holds(g: &C) -> bool {
        g.model().directed
    }

    open spec fn constrained_model(g: &C) -> GraphView<C::VertexWeight, C::EdgeWeight> {
        g.model()
    }

    proof fn lemma_constrained(&self) {
    }

    fn constrain_single(g: C) -> (r: Result<Self, ()>) {
        if g.directed() {
            Ok(Self::unchecked(g))
        } else {
            Err(())
        }
    }

    fn unconstrain_single(self) -> (r: C) {
        self.0
    }
}

impl<C: Graph> DirectedConstraint for DirectedGraph<C> {
    proof fn lemma_directed(&self) {
    }
}

impl<C: NewVertex> NewVertex for DirectedGraph<C> {
    /// A new vertex is taken when the wrapped graph takes it.
    open spec fn accepts_new_vertex(&self) -> bool {
        self.constrained().accepts_new_vertex()
    }

    fn new_vertex_weighted(&mut self, w: C::VertexWeight) -> (r: Result<usize, ()>) {
        self.0.new_vertex_weighted(w)
    }
}

impl<C: RemoveVertex> RemoveVertex for DirectedGraph<C> {
    /// A vertex can be removed when the wrapped graph lets it be.
    open spec fn accepts_vertex_removal(&self, v: usize) -> bool {
        self.constrained().accepts_vertex_removal(v)
    }

    fn remove_vertex(&mut self, v: usize) -> (r: Result<C::VertexWeight, ()>) {
        self.0.remove_vertex(v)
    }
}

impl<C: AddEdge> AddEdge for DirectedGraph<C> {
    /// An edge is taken when the wrapped graph takes it.
    open spec fn accepts_edge(&self, source: usize, sink: usize, weight: C::EdgeWeight) -> bool {
        self.constrained().accepts_edge(source, sink, weight)
    }

    fn add_edge_weighted(&mut self, source: usize, sink: usize, weight: C::EdgeWeight) -> (r: Result<(), ()>) {
        self.0.add_edge_weighted(source, sink, weight)
    }
}

impl<C: RemoveEdge> RemoveEdge for DirectedGraph<C> {
    fn remove_edge_at(&mut self, source: usize, idx: usize) -> (r: (usize, C::EdgeWeight)) {
        self.0.remove_edge_at(source, idx)
    }
}

/// A graph whose edges are undirected: see [`UndirectedConstraint`].
pub struct UndirectedGraph<C: Graph>(C);

impl<C: Graph> UndirectedGraph<C> {
    /// Constrains the given graph, which must be undirected.
    pub fn unchecked(c: C) -> (r: Self)
        requires
            c.wf(),
            !c.model().directed,
        ensures
            r.wf(),
            r.constrained() == c,
            r.model() == c.model(),
    {
        UndirectedGraph(c)
    }
}

impl<C: Graph> Graph for UndirectedGraph<C> {
    type VertexWeight = C::VertexWeight;

    type EdgeWeight = C::EdgeWeight;

    closed spec fn model(&self) -> GraphView<C::VertexWeight, C::EdgeWeight> {
        self.0.model()
    }

    closed spec fn wf(&self) -> bool {
        self.0.wf() && !self.0.model().directed
    }

    proof fn lemma_wf(&self) {
        self.0.lemma_wf();
    }

    fn directed(&self) -> (r: bool) {
        self.0.directed()
    }

    fn all_vertices_weighted(&self) -> (r: Vec<(usize, &C::VertexWeight)>) {
        self.0.all_vertices_weighted()
    }

    fn edges_between(&self, source: usize, sink: usize) -> (r: Vec<&C::EdgeWeight>) {
        self.0.edges_between(source, sink)
    }

    fn edges_stored_from(&self, v: usize) -> (r: Vec<(usize, &C::EdgeWeight)>) {
        self.0.edges_stored_from(v)
    }
}

impl<C: Graph> Constrainer for UndirectedGraph<C> {
    type Constrained = C;

    closed spec fn constrained(&self) -> C {
        self.0
    }

    open spec fn holds(g: &C) -> bool {
        !g.model().directed
    }

    open spec fn constrained_model(g: &C) -> GraphView<C::VertexWeight, C::EdgeWeight> {
        g.model()
    }

    proof fn lemma_constrained(&self) {
    }

    /// Wraps the given graph if it is undirected.
    fn constrain_single(g: C) -> (r: Result<Self, ()>) {
        if g.directed() {
            Err(())
        } else {
            Ok(Self::unchecked(g))
        }
    }

    fn unconstrain_single(self) -> (r: C) {
        self.0
    }
}

impl<C: Graph> UndirectedConstraint for UndirectedGraph<C> {
    proof fn lemma_undirected(&self) {
    }
}

impl<C: NewVertex> NewVertex for UndirectedGraph<C> {
    /// A new vertex is taken when the wrapped graph takes it.
    open spec fn accepts_new_vertex(&self) -> bool {
        self.constrained().accepts_new_vertex()
    }

    fn new_vertex_weighted(&mut self, w: C::VertexWeight) -> (r: Result<usize, ()>) {
        self.0.new_vertex_weighted(w)
    }
}

impl<C: RemoveVertex> RemoveVertex for UndirectedGraph<C> {
    /// A vertex can be removed when the wrapped graph lets it be.
    open spec fn accepts_vertex_removal(&self, v: usize) -> bool {
        self.constrained().accepts_vertex_removal(v)
    }

    fn remove_vertex(&mut self, v: usize) -> (r: Result<C::VertexWeight, ()>) {
        self.0.remove_vertex(v)
    }
}

impl<C: AddEdge> AddEdge for UndirectedGraph<C> {
    /// An edge is taken when the wrapped graph takes it.
    open spec fn accepts_edge(&self, source: usize, sink: usize, weight: C::EdgeWeight) -> bool {
        self.constrained().accepts_edge(source, sink, weight)
    }

    fn add_edge_weighted(&mut self, source: usize, sink: usize, weight: C::EdgeWeight) -> (r: Result<(), ()>) {
        self.0.add_edge_weighted(source, sink, weight)
    }
}

impl<C: RemoveEdge> RemoveEdge for UndirectedGraph<C> {
    fn remove_edge_at(&mut self, source: usize, idx: usize) -> (r: (usize, C::EdgeWeight)) {
        self.0.remove_edge_at(source, idx)
    }
}

} // verus!
