//! Graphs that uphold a property, and the checks that establish it.
//!
//! Each constrainer wraps a graph and guarantees that some property holds of
//! it: it can only be made from a graph the property holds of, and it only
//! changes the graph in ways that keep the property.
use crate::graph::Graph;
use crate::view::{flip, lemma_reaches_flip, lemma_reaches_mono, lemma_reaches_trans, reaches, GraphView};
use vstd::prelude::*;

pub mod connected;
pub mod directed;
pub mod no_loops;
pub mod non_null;
pub mod reflexive;
pub mod unique;

verus! {

/// No two edges connect the same two vertices (in the same direction, if the
/// graph is directed), and no vertex has more than one loop.
pub open spec fn is_unique<Vw, Ew>(g: GraphView<Vw, Ew>) -> bool {
    forall|u: usize, w: usize|
        g.has_vertex(u) && g.has_vertex(w) ==> #[trigger] g.between(u, w).len() <= 1
}

/// No edge connects a vertex to itself.
pub open spec fn has_no_loops<Vw, Ew>(g: GraphView<Vw, Ew>) -> bool {
    forall|v: usize| g.has_vertex(v) ==> #[trigger] g.between(v, v).len() == 0
}

/// Every vertex has exactly one loop.
pub open spec fn is_reflexive<Vw, Ew>(g: GraphView<Vw, Ew>) -> bool {
    forall|v: usize| g.has_vertex(v) ==> #[trigger] g.between(v, v).len() == 1
}

/// The graph has at least one vertex.
pub open spec fn is_non_null<Vw, Ew>(g: GraphView<Vw, Ew>) -> bool {
    g.vertices.len() > 0
}

/// There is a path from every vertex to every vertex.
pub open spec fn is_connected<Vw, Ew>(g: GraphView<Vw, Ew>) -> bool {
    forall|u: usize, w: usize| g.has_vertex(u) && g.has_vertex(w) ==> #[trigger] g.reachable(u, w)
}

/// Ignoring the direction of edges, there is a path between every two
/// vertices.
pub open spec fn is_weak<Vw, Ew>(g: GraphView<Vw, Ew>) -> bool {
    forall|u: usize, w: usize|
        g.has_vertex(u) && g.has_vertex(w) ==> #[trigger] reaches(g.adj_undirected(), u, w)
}

/// For every two vertices, there is a path from one of them to the other.
pub open spec fn is_unilateral<Vw, Ew>(g: GraphView<Vw, Ew>) -> bool {
    forall|u: usize, w: usize|
        g.has_vertex(u) && g.has_vertex(w) ==> #[trigger] g.reachable(u, w) || g.reachable(w, u)
}

/// A graph that wraps another one and guarantees that some property holds of
/// it.
pub trait Constrainer: Graph {
    /// The graph being constrained.
    type Constrained: Graph;

    /// The wrapped graph.
    spec fn constrained(&self) -> Self::Constrained;

    /// Whether the property this constrainer guarantees holds of `g`.
    spec fn holds(g: &Self::Constrained) -> bool;

    /// The model of the constrained graph, seen through this constrainer.
    spec fn constrained_model(g: &Self::Constrained) -> GraphView<Self::VertexWeight, Self::EdgeWeight>;

    /// A consistent constrainer wraps a consistent graph, of which its
    /// property holds and whose model it shows.
    proof fn lemma_constrained(&self)
        requires
            self.wf(),
        ensures
            self.constrained().wf(),
            Self::holds(&self.constrained()),
            self.model() == Self::constrained_model(&self.constrained()),
    ;

    /// Constrains `g`, if its property holds of it.
    fn constrain_single(g: Self::Constrained) -> (r: Result<Self, ()>)
        requires
            g.wf(),
        ensures
            r is Ok <==> Self::holds(&g),
            r matches Ok(c) ==> c.wf() && c.constrained() == g && c.model() == Self::constrained_model(&g),
    ;

    /// Removes this constrainer, returning the wrapped graph.
    fn unconstrain_single(self) -> (r: Self::Constrained)
        requires
            self.wf(),
        ensures
            r == self.constrained(),
            r.wf(),
            Self::holds(&r),
            self.model() == Self::constrained_model(&r),
    ;
}

/// A graph whose edges are directed.
pub trait DirectedConstraint: Graph {
    /// The graph is directed.
    proof fn lemma_directed(&self)
        requires
            self.wf(),
        ensures
            self.model().directed,
    ;
}

/// A graph whose edges are undirected.
pub trait UndirectedConstraint: Graph {
    /// The graph is undirected.
    proof fn lemma_undirected(&self)
        requires
            self.wf(),
        ensures
            !self.model().directed,
    ;
}

/// A graph containing only unique edges.
///
/// An edge is unique if it is the only edge in the graph connecting two
/// vertices. If the graph is directed then between two vertices `v1` and `v2`
/// two edges are allowed: `(v1,v2)` and `(v2,v1)`. If the graph is undirected,
/// there may only be one of them. Regardless of directedness, only one loop
/// is allowed for each vertex.
pub trait Unique: Graph {
    /// The graph's edges are unique.
    proof fn lemma_unique(&self)
        requires
            self.wf(),
        ensures
            is_unique(self.model()),
    ;

    /// Returns the weight of the edge between the two vertices, if there is
    /// one.
    fn edge_between(&self, v1: usize, v2: usize) -> (r: Option<&Self::EdgeWeight>)
        requires
            self.wf(),
        ensures
            self.model().between(v1, v2).len() <= 1,
            r is Some <==> self.model().between(v1, v2).len() == 1,
            r matches Some(w) ==> *w == self.model().between(v1, v2)[0],
    {
        proof {
            self.lemma_unique();
        }
        let es = self.edges_between(v1, v2);
        proof {
            assert(crate::view::deref_seq(es@).len() == es@.len());
            if !(self.model().has_vertex(v1) && self.model().has_vertex(v2)) {
                assert(self.model().between(v1, v2).len() == 0);
            }
        }
        if es.len() > 0 {
            proof {
                assert(crate::view::deref_seq(es@)[0] == *es@[0]);
            }
            Some(es[0])
        } else {
            None
        }
    }
}

/// A graph without loops: no edge connects a vertex to itself.
pub trait NoLoops: Graph {
    /// The graph has no loops.
    proof fn lemma_no_loops(&self)
        requires
            self.wf(),
        ensures
            has_no_loops(self.model()),
    ;

    /// Does nothing; marks the graph as having no loops.
    fn no_loops_func(&self) {
    }
}

/// A graph with at least one vertex.
pub trait NonNull: Graph {
    /// The graph has a vertex.
    proof fn lemma_non_null(&self)
        requires
            self.wf(),
        ensures
            is_non_null(self.model()),
    ;

    /// Returns a vertex in the graph: the first one.
    fn get_vertex(&self) -> (r: usize)
        requires
            self.wf(),
        ensures
            r == self.model().vertices[0],
            self.model().has_vertex(r),
    {
        proof {
            self.lemma_non_null();
            self.lemma_wf();
            self.model().lemma_vertices(self.model().vertices[0]);
        }
        let vs = self.all_vertices();
        vs[0]
    }
}

/// A reflexive graph: every vertex has exactly one loop.
pub trait Reflexive: Graph {
    /// The graph is reflexive.
    proof fn lemma_reflexive(&self)
        requires
            self.wf(),
        ensures
            is_reflexive(self.model()),
    ;
}

/// A weakly connected graph: ignoring the direction of edges, there is a
/// path between every two vertices.
pub trait Weak: Graph {
    /// The graph is weakly connected.
    proof fn lemma_weak(&self)
        requires
            self.wf(),
        ensures
            is_weak(self.model()),
    ;
}

/// A unilaterally connected graph: for every two vertices, there is a path
/// from one of them to the other.
pub trait Unilateral: Weak {
    /// The graph is unilaterally connected.
    proof fn lemma_unilateral(&self)
        requires
            self.wf(),
        ensures
            is_unilateral(self.model()),
    ;
}

/// A connected graph: there is a path from any vertex to any other vertex.
/// Graphs with one or zero vertices count as connected.
pub trait Connected: Unilateral {
    /// The graph is connected.
    proof fn lemma_connected(&self)
        requires
            self.wf(),
        ensures
            is_connected(self.model()),
    ;
}

/// A unilaterally connected graph, as checked pair by pair.
pub trait UnilaterallyConnected: Graph {
    /// The graph is unilaterally connected.
    proof fn lemma_unilaterally_connected(&self)
        requires
            self.wf(),
        ensures
            is_unilateral(self.model()),
    ;
}

// ---------------------------------------------------------------------------
// How the connectivity properties relate.
/// A connected graph is unilaterally connected.
pub proof fn lemma_connected_is_unilateral<Vw, Ew>(g: GraphView<Vw, Ew>)
    requires
        is_connected(g),
    ensures
        is_unilateral(g),
{
    assert forall|u: usize, w: usize| g.has_vertex(u) && g.has_vertex(w) implies #[trigger] g.reachable(u, w)
        || g.reachable(w, u) by {
        assert(g.reachable(u, w));
    }
}

/// A unilaterally connected graph is weakly connected.
pub proof fn lemma_unilateral_is_weak<Vw, Ew>(g: GraphView<Vw, Ew>)
    requires
        is_unilateral(g),
    ensures
        is_weak(g),
{
    assert forall|u: usize, w: usize| g.has_vertex(u) && g.has_vertex(w) implies #[trigger] reaches(
        g.adj_undirected(),
        u,
        w,
    ) by {
        assert forall|x: usize, y: usize| #[trigger] g.adj()(x, y) implies g.adj_undirected()(x, y) by {}
        assert forall|x: usize, y: usize| #[trigger] flip(g.adj())(x, y) implies g.adj_undirected()(x, y) by {}
        if g.reachable(u, w) {
            lemma_reaches_mono(g.adj(), g.adj_undirected(), u, w);
        } else {
            assert(g.reachable(w, u));
            lemma_reaches_back(g.adj(), w, u);
            lemma_reaches_mono(flip(g.adj()), g.adj_undirected(), u, w);
        }
    }
}

/// Reaching forwards is reaching backwards along the flipped relation.
pub proof fn lemma_reaches_back(adj: spec_fn(usize, usize) -> bool, u: usize, w: usize)
    requires
        reaches(adj, u, w),
    ensures
        reaches(flip(adj), w, u),
{
    assert forall|x: usize, y: usize| #[trigger] adj(x, y) implies flip(flip(adj))(x, y) by {}
    lemma_reaches_mono(adj, flip(flip(adj)), u, w);
    lemma_reaches_flip(flip(adj), u, w);
}

/// A graph is connected when one of its vertices reaches every vertex and is
/// reached from every vertex.
pub proof fn lemma_connected_through<Vw, Ew>(g: GraphView<Vw, Ew>, v: usize)
    requires
        forall|x: usize| g.has_vertex(x) ==> #[trigger] g.reachable(v, x),
        forall|x: usize| g.has_vertex(x) ==> #[trigger] g.reachable(x, v),
    ensures
        is_connected(g),
{
    assert forall|u: usize, w: usize| g.has_vertex(u) && g.has_vertex(w) implies #[trigger] g.reachable(u, w) by {
        assert(g.reachable(u, v));
        assert(g.reachable(v, w));
        lemma_reaches_trans(g.adj(), u, v, w);
    }
}

} // verus!
