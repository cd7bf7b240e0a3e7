//! Graphs together with a vertex known to be in them.
use crate::graph::Graph;
use crate::property::NewVertex;
use vstd::prelude::*;

verus! {

/// A graph together with one of its vertices.
pub struct VertexInGraph<G: Graph> {
    graph: G,
    vertex: usize,
}

impl<G: Graph> VertexInGraph<G> {
    /// The graph.
    pub closed spec fn spec_graph(&self) -> G {
        self.graph
    }

    /// The vertex.
    pub closed spec fn spec_vertex(&self) -> usize {
        self.vertex
    }

    /// The graph is well formed, and the vertex is one of its vertices.
    pub closed spec fn wf(&self) -> bool {
        self.graph.wf() && self.graph.model().has_vertex(self.vertex)
    }

    /// Returns the graph.
    pub fn graph(&self) -> (r: &G)
        ensures
            *r == self.spec_graph(),
    {
        &self.graph
    }

    /// Returns the vertex.
    pub fn vertex(&self) -> (r: usize)
        ensures
            r == self.spec_vertex(),
    {
        self.vertex
    }

    /// Gives back the graph and the vertex.
    pub fn release(self) -> (r: (G, usize))
        ensures
            r == (self.spec_graph(), self.spec_vertex()),
    {
        (self.graph, self.vertex)
    }
}

/// A graph on its way to having one of its vertices designated: see
/// [`contains_vertex`](EnsuredGraph::contains_vertex) and
/// [`new_vertex_weighted`](EnsuredGraph::new_vertex_weighted).
pub struct EnsuredGraph<G: Graph>(pub G);

/// Lets every graph be given a designated vertex.
pub trait Ensured: Graph + Sized {
    /// Prepares to designate a vertex of this graph.
    fn ensured(self) -> (r: EnsuredGraph<Self>)
        ensures
            r.0 == self,
    {
        EnsuredGraph(self)
    }
}

impl<G: Graph> Ensured for G {
}

impl<G: Graph> EnsuredGraph<G> {
    /// Designates `v`, if it is a vertex of the graph; otherwise returns
    /// `None`.
    pub fn contains_vertex(self, v: usize) -> (r: Option<VertexInGraph<G>>)
        requires
            self.0.wf(),
        ensures
            r is Some <==> self.0.model().has_vertex(v),
            r matches Some(x) ==> x.wf() && x.spec_graph() == self.0 && x.spec_vertex() == v,
    {
        if self.0.contains_vertex(v) {
            Some(VertexInGraph { graph: self.0, vertex: v })
        } else {
            None
        }
    }
}

impl<G: NewVertex> EnsuredGraph<G> {
    /// Adds a vertex of weight `w` to the graph and designates it. Fails when
    /// the graph does not [accept](NewVertex::accepts_new_vertex) a new
    /// vertex.
    pub fn new_vertex_weighted(self, w: G::VertexWeight) -> (r: Result<VertexInGraph<G>, ()>)
        requires
            self.0.wf(),
        ensures
            r is Ok <==> self.0.accepts_new_vertex(),
            r matches Ok(x) ==> x.wf() && self.0.model().adds_vertex(x.spec_graph().model(), x.spec_vertex(), w),
    {
        let mut g = self.0;
        match g.new_vertex_weighted(w) {
            Ok(v) => {
                proof {
                    g.lemma_wf();
                }
                Ok(VertexInGraph { graph: g, vertex: v })
            },
            Err(_) => Err(()),
        }
    }

    /// Adds a vertex of the default weight to the graph and designates it.
    /// Fails when the graph does not [accept](NewVertex::accepts_new_vertex)
    /// a new vertex.
    pub fn new_vertex(self) -> (r: Result<VertexInGraph<G>, ()>)
        where G::VertexWeight: Default
        requires
            self.0.wf(),
        ensures
            r is Ok <==> self.0.accepts_new_vertex(),
            r matches Ok(x) ==> x.wf() && self.0.model().adds_vertex(
                x.spec_graph().model(),
                x.spec_vertex(),
                x.spec_graph().model().weights[x.spec_vertex()],
            ),
    {
        self.new_vertex_weighted(Default::default())
    }
}

} // verus!
