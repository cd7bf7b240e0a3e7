//! Edges between the vertices of a graph.
use vstd::prelude::*;

verus! {

/// An edge in a graph: a pair of vertices with a distinguished `source` and
/// `sink`. For undirected graphs, which vertex is which has no meaning. For
/// directed graphs, an edge points from the `source` to the `sink`.
///
/// Implemented for any pair `(usize, usize)` and triple `(usize, usize, W)`,
/// so the easiest way to create an edge is to use a pair, or a triple when the
/// edge carries a weight.
pub trait Edge {
    spec fn spec_source(&self) -> usize;

    spec fn spec_sink(&self) -> usize;

    /// The source vertex of the edge.
    fn source(&self) -> (r: usize)
        ensures
            r == self.spec_source(),
    ;

    /// The sink vertex of the edge.
    fn sink(&self) -> (r: usize)
        ensures
            r == self.spec_sink(),
    ;

    /// Returns `true` if the source and sink are the same vertex.
    fn is_loop(&self) -> (r: bool)
        ensures
            r == (self.spec_source() == self.spec_sink()),
    {
        self.source() == self.sink()
    }

    /// Returns the other vertex than the one given.
    ///
    /// If the one given is not in this edge, the sink is returned.
    fn other(&self, v: usize) -> (r: usize)
        ensures
            r == if self.spec_sink() == v {
                self.spec_source()
            } else {
                self.spec_sink()
            },
    {
        if self.sink() == v {
            self.source()
        } else {
            self.sink()
        }
    }
}

impl Edge for (usize, usize) {
    open spec fn spec_source(&self) -> usize {
        self.0
    }

    open spec fn spec_sink(&self) -> usize {
        self.1
    }

    fn source(&self) -> (r: usize) {
        self.0
    }

    fn sink(&self) -> (r: usize) {
        self.1
    }
}

impl<W> Edge for (usize, usize, W) {
    open spec fn spec_source(&self) -> usize {
        self.0
    }

    open spec fn spec_sink(&self) -> usize {
        self.1
    }

    fn source(&self) -> (r: usize) {
        self.0
    }

    fn sink(&self) -> (r: usize) {
        self.1
    }
}

/// Represents an edge between two vertices in a graph.
///
/// The edge is implicitly directed from the `source` to the `sink` with some
/// weight `weight`.
#[derive(Clone, Copy, Debug, PartialEq, Eq)]
pub struct BaseEdge<V, W> where V: Copy + Eq, W: Copy + Eq {
    /// The vertex the edge starts in.
    pub source: V,
    /// The vertex the edge ends in.
    pub sink: V,
    /// The weight of the edge.
    pub weight: W,
}

impl<V: Copy + Eq, W: Copy + Eq> BaseEdge<V, W> {
    /// Creates a new edge.
    pub fn new(source: V, sink: V, weight: W) -> (r: BaseEdge<V, W>)
        ensures
            r.source == source,
            r.sink == sink,
            r.weight == weight,
    {
        BaseEdge { source, sink, weight }
    }

    /// Returns a copy of the vertex the edge starts in.
    pub fn source(&self) -> (r: V)
        ensures
            r == self.source,
    {
        self.source
    }

    /// Returns a copy of the vertex the edge ends in.
    pub fn sink(&self) -> (r: V)
        ensures
            r == self.sink,
    {
        self.sink
    }

    /// Returns a copy of the weight of the edge.
    pub fn weight(&self) -> (r: W)
        ensures
            r == self.weight,
    {
        self.weight
    }
}

impl<W: Copy + Eq> Edge for BaseEdge<usize, W> {
    open spec fn spec_source(&self) -> usize {
        self.source
    }

    open spec fn spec_sink(&self) -> usize {
        self.sink
    }

    fn source(&self) -> (r: usize) {
        self.source
    }

    fn sink(&self) -> (r: usize) {
        self.sink
    }
}

} // verus!
