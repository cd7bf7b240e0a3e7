//! Types that reference a graph.
use crate::adjacency_list::AdjListGraph;
use crate::constraint::unique::UniqueGraph;
use crate::constraint::no_loops::NoLoopsGraph;
use crate::constraint::non_null::NonNullGraph;
use crate::constraint::directed::DirectedGraph;
use crate::constraint::directed::UndirectedGraph;
use crate::constraint::reflexive::ReflexiveGraph;
use crate::constraint::connected::ConnectedGraph;
use crate::constraint::connected::WeakGraph;
use crate::constraint::connected::UnilaterallyConnectedGraph;
use crate::constraint::connected::UnilateralGraph;
use crate::directedness::Directedness;
use crate::graph::Graph;
use crate::vertex_map::VertexMapGraph;
use vstd::prelude::*;

verus! {

/// Types that reference a graph: a graph itself, or a reference to one.
pub trait GraphDeref {
    /// The type of the graph referenced.
    type Graph: Graph;

    /// The underlying graph.
    spec fn deref_spec(&self) -> &Self::Graph;

    /// Returns a reference to the underlying graph.
    fn graph(&self) -> (r: &Self::Graph)
        ensures
            r == self.deref_spec(),
    ;
}

/// Types that reference a graph mutably.
pub trait GraphDerefMut: GraphDeref {
    /// Returns a mutable reference to the underlying graph.
    fn graph_mut(&mut self) -> &mut Self::Graph;
}

impl<'a, G: Graph> GraphDeref for &'a G {
    type Graph = G;

    open spec fn deref_spec(&self) -> &G {
        *self
    }

    fn graph(&self) -> (r: &G)
        ensures
            r == *self,
    {
        *self
    }
}

impl<Vw, Ew, D: Directedness> GraphDeref for AdjListGraph<Vw, Ew, D> {
    type Graph = Self;

    open spec fn deref_spec(&self) -> &Self {
        self
    }

    fn graph(&self) -> (r: &Self)
        ensures
            r == self,
    {
        self
    }
}

impl<Vw, Ew, D: Directedness> GraphDerefMut for AdjListGraph<Vw, Ew, D> {
    fn graph_mut(&mut self) -> (r: &mut Self)
        ensures
            *r == *old(self),
            *final(r) == *final(self),
    {
        self
    }
}

impl<C: Graph> GraphDeref for UniqueGraph<C> {
    type Graph = Self;

    open spec fn deref_spec(&self) -> &Self {
        self
    }

    fn graph(&self) -> (r: &Self)
        ensures
            r == self,
    {
        self
    }
}

impl<C: Graph> GraphDerefMut for UniqueGraph<C> {
    fn graph_mut(&mut self) -> (r: &mut Self)
        ensures
            *r == *old(self),
            *final(r) == *final(self),
    {
        self
    }
}

impl<C: Graph> GraphDeref for NoLoopsGraph<C> {
    type Graph = Self;

    open spec fn deref_spec(&self) -> &Self {
        self
    }

    fn graph(&self) -> (r: &Self)
        ensures
            r == self,
    {
        self
    }
}

impl<C: Graph> GraphDerefMut for NoLoopsGraph<C> {
    fn graph_mut(&mut self) -> (r: &mut Self)
        ensures
            *r == *old(self),
            *final(r) == *final(self),
    {
        self
    }
}

impl<C: Graph> GraphDeref for NonNullGraph<C> {
    type Graph = Self;

    open spec fn deref_spec(&self) -> &Self {
        self
    }

    fn graph(&self) -> (r: &Self)
        ensures
            r == self,
    {
        self
    }
}

impl<C: Graph> GraphDerefMut for NonNullGraph<C> {
    fn graph_mut(&mut self) -> (r: &mut Self)
        ensures
            *r == *old(self),
            *final(r) == *final(self),
    {
        self
    }
}

impl<C: Graph> GraphDeref for DirectedGraph<C> {
    type Graph = Self;

    open spec fn deref_spec(&self) -> &Self {
        self
    }

    fn graph(&self) -> (r: &Self)
        ensures
            r == self,
    {
        self
    }
}

impl<C: Graph> GraphDerefMut for DirectedGraph<C> {
    fn graph_mut(&mut self) -> (r: &mut Self)
        ensures
            *r == *old(self),
            *final(r) == *final(self),
    {
        self
    }
}

impl<C: Graph> GraphDeref for UndirectedGraph<C> {
    type Graph = Self;

    open spec fn deref_spec(&self) -> &Self {
        self
    }

    fn graph(&self) -> (r: &Self)
        ensures
            r == self,
    {
        self
    }
}

impl<C: Graph> GraphDerefMut for UndirectedGraph<C> {
    fn graph_mut(&mut self) -> (r: &mut Self)
        ensures
            *r == *old(self),
            *final(r) == *final(self),
    {
        self
    }
}

impl<C: Graph> GraphDeref for ReflexiveGraph<C> {
    type Graph = Self;

    open spec fn deref_spec(&self) -> &Self {
        self
    }

    fn graph(&self) -> (r: &Self)
        ensures
            r == self,
    {
        self
    }
}

impl<C: Graph> GraphDerefMut for ReflexiveGraph<C> {
    fn graph_mut(&mut self) -> (r: &mut Self)
        ensures
            *r == *old(self),
            *final(r) == *final(self),
    {
        self
    }
}

impl<C: Graph> GraphDeref for ConnectedGraph<C> {
    type Graph = Self;

    open spec fn deref_spec(&self) -> &Self {
        self
    }

    fn graph(&self) -> (r: &Self)
        ensures
            r == self,
    {
        self
    }
}

impl<C: Graph> GraphDerefMut for ConnectedGraph<C> {
    fn graph_mut(&mut self) -> (r: &mut Self)
        ensures
            *r == *old(self),
            *final(r) == *final(self),
    {
        self
    }
}

impl<C: Graph> GraphDeref for WeakGraph<C> {
    type Graph = Self;

    open spec fn deref_spec(&self) -> &Self {
        self
    }

    fn graph(&self) -> (r: &Self)
        ensures
            r == self,
    {
        self
    }
}

impl<C: Graph> GraphDerefMut for WeakGraph<C> {
    fn graph_mut(&mut self) -> (r: &mut Self)
        ensures
            *r == *old(self),
            *final(r) == *final(self),
    {
        self
    }
}

impl<C: Graph> GraphDeref for UnilaterallyConnectedGraph<C> {
    type Graph = Self;

    open spec fn deref_spec(&self) -> &Self {
        self
    }

    fn graph(&self) -> (r: &Self)
        ensures
            r == self,
    {
        self
    }
}

impl<C: Graph> GraphDerefMut for UnilaterallyConnectedGraph<C> {
    fn graph_mut(&mut self) -> (r: &mut Self)
        ensures
            *r == *old(self),
            *final(r) == *final(self),
    {
        self
    }
}

impl<C: Graph> GraphDeref for UnilateralGraph<C> {
    type Graph = Self;

    open spec fn deref_spec(&self) -> &Self {
        self
    }

    fn graph(&self) -> (r: &Self)
        ensures
            r == self,
    {
        self
    }
}

impl<C: Graph> GraphDerefMut for UnilateralGraph<C> {
    fn graph_mut(&mut self) -> (r: &mut Self)
        ensures
            *r == *old(self),
            *final(r) == *final(self),
    {
        self
    }
}

impl<G: Graph> GraphDeref for VertexMapGraph<G> {
    type Graph = Self;

    open spec fn deref_spec(&self) -> &Self {
        self
    }

    fn graph(&self) -> (r: &Self)
        ensures
            r == self,
    {
        self
    }
}

impl<G: Graph> GraphDerefMut for VertexMapGraph<G> {
    fn graph_mut(&mut self) -> (r: &mut Self)
        ensures
            *r == *old(self),
            *final(r) == *final(self),
    {
        self
    }
}

} // verus!
