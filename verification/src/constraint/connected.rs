//! Connected graphs, in the strong, weak and unilateral senses.
use crate::algo::reach::{reachable_vertices, relation, Direction};
use crate::algo::search::DFS;
use crate::algo::dfs::reached_from;
use crate::constraint::{
    is_connected, is_unilateral, is_weak, lemma_connected_is_unilateral, lemma_connected_through,
    lemma_reaches_back, lemma_unilateral_is_weak, Connected, Constrainer, Unilateral,
    UnilaterallyConnected, Weak,
};
use crate::graph::Graph;
use crate::property::AddEdge;
use crate::view::{
    flip, lemma_nodup_subseq_full, lemma_nodup_subseq_len, lemma_reaches_flip, lemma_reaches_mono,
    lemma_reaches_trans, reaches, GraphView,
};
use vstd::prelude::*;

verus! {

/// A sequence of distinct vertices that holds exactly those satisfying `p`
/// is as long as the vertex sequence exactly when every vertex satisfies `p`.
proof fn lemma_count_all(found: Seq<usize>, vs: Seq<usize>, p: spec_fn(usize) -> bool)
    requires
        found.no_duplicates(),
        vs.no_duplicates(),
        forall|i: int| 0 <= i < found.len() ==> vs.contains(#[trigger] found[i]),
        forall|x: usize| #[trigger] found.contains(x) <==> p(x),
    ensures
        (found.len() == vs.len()) <==> (forall|x: usize| vs.contains(x) ==> #[trigger] p(x)),
{
    lemma_nodup_subseq_len(found, vs);
    if found.len() == vs.len() {
        lemma_nodup_subseq_full(found, vs);
        assert forall|x: usize| vs.contains(x) implies #[trigger] p(x) by {
            assert(found.contains(x));
        }
    }
    if forall|x: usize| vs.contains(x) ==> #[trigger] p(x) {
        assert forall|i: int| 0 <= i < vs.len() implies found.contains(#[trigger] vs[i]) by {
            assert(vs.contains(vs[i]));
            assert(p(vs[i]));
        }
        lemma_nodup_subseq_len(vs, found);
        assert(found.len() == vs.len());
    }
}

/// Counts the vertices a depth-first traversal from `v` returns, `v`
/// included; the count is the number of vertices exactly when every vertex
/// can be reached from `v`.
fn dfs_count<G: Graph>(g: &G, v: usize) -> (r: usize)
    requires
        g.wf(),
        g.model().has_vertex(v),
    ensures
        (r == g.model().vertices.len()) <==> (forall|x: usize| g.model().has_vertex(x) ==> #[trigger] g.model().reachable(v, x)),
{
    let vs = g.all_vertices();
    let vertex_count: usize = vs.len();
    let mut dfs = DFS::new_simple(g, v);
    let mut count: usize = 0;
    loop
        invariant
            g.wf(),
            vertex_count == g.model().vertices.len(),
            dfs.dfs.wf(),
            dfs.dfs.spec_graph() == g,
            dfs.dfs.roots() == set![v],
            count == dfs.dfs.visited_seq().len(),
        ensures
            g.wf(),
            vertex_count == g.model().vertices.len(),
            dfs.dfs.wf(),
            dfs.dfs.spec_graph() == g,
            dfs.dfs.roots() == set![v],
            count == dfs.dfs.visited_seq().len(),
            forall|x: usize| #[trigger] reached_from(g, set![v], x) ==> dfs.dfs.visited_seq().contains(x),
        decreases g.model().vertices.len() - dfs.dfs.visited_seq().len(),
    {
        proof {
            dfs.dfs.lemma_visited();
        }
        match dfs.next() {
            Some(_) => {
                proof {
                    dfs.dfs.lemma_visited();
                }
                count += 1;
            },
            None => break,
        }
    }
    proof {
        let gm = g.model();
        g.lemma_wf();
        dfs.dfs.lemma_visited();
        let vis = dfs.dfs.visited_seq();
        assert forall|i: int| 0 <= i < vis.len() implies gm.vertices.contains(#[trigger] vis[i]) by {
            gm.lemma_vertices(vis[i]);
        }
        let p = |x: usize| gm.reachable(v, x);
        assert forall|x: usize| #[trigger] vis.contains(x) <==> p(x) by {
            if vis.contains(x) {
                let i = choose|i: int| 0 <= i < vis.len() && vis[i] == x;
                assert(reached_from(g, set![v], vis[i]));
                let rt = choose|rt: usize| set![v].contains(rt) && #[trigger] gm.reachable(rt, x);
                assert(rt == v);
            }
            if p(x) {
                assert(set![v].contains(v));
                assert(reached_from(g, set![v], x));
            }
        }
        lemma_count_all(vis, gm.vertices, p);
        if count == gm.vertices.len() {
            assert forall|x: usize| gm.has_vertex(x) implies #[trigger] gm.reachable(v, x) by {
                gm.lemma_vertices(x);
                assert(p(x));
            }
        }
        if forall|x: usize| gm.has_vertex(x) ==> #[trigger] gm.reachable(v, x) {
            assert forall|x: usize| gm.vertices.contains(x) implies #[trigger] p(x) by {
                gm.lemma_vertices(x);
            }
        }
    }
    count
}

/// Whether a depth-first traversal from `from` returns `to`: whether `to`
/// can be reached from `from`.
fn dfs_finds<G: Graph>(g: &G, from: usize, to: usize) -> (r: bool)
    requires
        g.wf(),
        g.model().has_vertex(from),
    ensures
        r == g.model().reachable(from, to),
{
    let mut dfs = DFS::new_simple(g, from);
    loop
        invariant
            g.wf(),
            dfs.dfs.wf(),
            dfs.dfs.spec_graph() == g,
            dfs.dfs.roots() == set![from],
            !dfs.dfs.visited_seq().contains(to),
        decreases g.model().vertices.len() - dfs.dfs.visited_seq().len(),
    {
        proof {
            dfs.dfs.lemma_visited();
        }
        let ghost before = dfs.dfs.visited_seq();
        match dfs.next() {
            Some(v) => {
                proof {
                    dfs.dfs.lemma_visited();
                }
                if v == to {
                    proof {
                        let rt = choose|rt: usize| set![from].contains(rt) && #[trigger] g.model().reachable(rt, v);
                        assert(rt == from);
                    }
                    return true;
                }
                proof {
                    if dfs.dfs.visited_seq().contains(to) {
                        let k = choose|k: int| 0 <= k < dfs.dfs.visited_seq().len() && dfs.dfs.visited_seq()[k] == to;
                        if k < before.len() {
                            assert(before[k] == to);
                        }
                    }
                }
            },
            None => {
                proof {
                    if g.model().reachable(from, to) {
                        assert(set![from].contains(from));
                        assert(reached_from(g, set![from], to));
                    }
                }
                return false;
            },
        }
    }
}

/// Whether every vertex is reached from `v` following edges in direction `d`:
/// the vertices reached are as many as the vertices of the graph.
fn reaches_all<G: Graph>(g: &G, v: usize, d: Direction) -> (r: bool)
    requires
        g.wf(),
        g.model().has_vertex(v),
    ensures
        r == (forall|x: usize| g.model().has_vertex(x) ==> #[trigger] reaches(relation(g.model(), d), v, x)),
{
    let found = reachable_vertices(g, v, d);
    let vs = g.all_vertices();
    proof {
        let gm = g.model();
        g.lemma_wf();
        assert forall|i: int| 0 <= i < found@.len() implies gm.vertices.contains(#[trigger] found@[i]) by {
            gm.lemma_vertices(found@[i]);
        }
        let p = |x: usize| reaches(relation(gm, d), v, x);
        assert forall|x: usize| #[trigger] found@.contains(x) <==> p(x) by {}
        lemma_count_all(found@, gm.vertices, p);
        assert forall|x: usize| gm.has_vertex(x) <==> #[trigger] gm.vertices.contains(x) by {
            gm.lemma_vertices(x);
        }
    }
    found.len() == vs.len()
}

/// Whether the graph is connected: either it has no vertices, or its first
/// vertex reaches every vertex and, in a directed graph, is reached from
/// every vertex.
pub fn graph_is_connected<G: Graph>(g: &G) -> (r: bool)
    requires
        g.wf(),
    ensures
        r == is_connected(g.model()),
{
    let gm = Ghost(g.model());
    proof {
        g.lemma_wf();
    }
    let vs = g.all_vertices();
    let v_count = vs.len();
    if v_count > 0 {
        let v = vs[0];
        proof {
            gm@.lemma_vertices(v);
        }
        let dfs_count = dfs_count(g, v);
        if dfs_count == v_count {
            if g.directed() {
                if !reaches_all(g, v, Direction::Backward) {
                    proof {
                        if is_connected(gm@) {
                            assert forall|x: usize| gm@.has_vertex(x) implies #[trigger] reaches(relation(gm@, Direction::Backward), v, x) by {
                                assert(gm@.reachable(x, v));
                                lemma_reaches_back(gm@.adj(), x, v);
                            }
                        }
                    }
                    return false;
                }
                proof {
                    assert forall|x: usize| gm@.has_vertex(x) implies #[trigger] gm@.reachable(x, v) by {
                        assert(reaches(relation(gm@, Direction::Backward), v, x));
                        lemma_reaches_flip(gm@.adj(), v, x);
                    }
                    lemma_connected_through(gm@, v);
                }
            } else {
                proof {
                    assert forall|x: usize| gm@.has_vertex(x) implies #[trigger] gm@.reachable(x, v) by {
                        assert(gm@.reachable(v, x));
                        lemma_reaches_back(gm@.adj(), v, x);
                        assert forall|a: usize, b: usize| #[trigger] flip(gm@.adj())(a, b) implies gm@.adj()(a, b) by {
                            gm@.lemma_adjacent_symmetric(b, a);
                        }
                        lemma_reaches_mono(flip(gm@.adj()), gm@.adj(), x, v);
                    }
                    lemma_connected_through(gm@, v);
                }
            }
            return true;
        }
        proof {
            if is_connected(gm@) {
                assert forall|x: usize| gm@.has_vertex(x) implies #[trigger] gm@.reachable(v, x) by {}
            }
        }
        return false;
    }
    proof {
        assert forall|u: usize, w: usize| gm@.has_vertex(u) && gm@.has_vertex(w) implies #[trigger] gm@.reachable(u, w) by {
            gm@.lemma_vertices(u);
        }
    }
    true
}

/// Whether the graph is weakly connected: either it has no vertices, or its
/// first vertex reaches every vertex when the direction of edges is ignored.
pub fn graph_is_weak<G: Graph>(g: &G) -> (r: bool)
    requires
        g.wf(),
    ensures
        r == is_weak(g.model()),
{
    let gm = Ghost(g.model());
    proof {
        g.lemma_wf();
    }
    let vs = g.all_vertices();
    if vs.len() > 0 {
        let v = vs[0];
        proof {
            gm@.lemma_vertices(v);
        }
        let all = reaches_all(g, v, Direction::Either);
        proof {
            let u = gm@.adj_undirected();
            assert(relation(gm@, Direction::Either) == u);
            if all {
                assert forall|a: usize, b: usize| gm@.has_vertex(a) && gm@.has_vertex(b) implies #[trigger] reaches(u, a, b) by {
                    assert(reaches(u, v, a));
                    assert(reaches(u, v, b));
                    lemma_reaches_back(u, v, a);
                    assert forall|x: usize, y: usize| #[trigger] flip(u)(x, y) implies u(x, y) by {}
                    lemma_reaches_mono(flip(u), u, a, v);
                    lemma_reaches_trans(u, a, v, b);
                }
            } else {
                let x = choose|x: usize| gm@.has_vertex(x) && !reaches(u, v, x);
                assert(!(gm@.has_vertex(v) && gm@.has_vertex(x) ==> reaches(u, v, x)));
            }
        }
        all
    } else {
        proof {
            assert forall|a: usize, b: usize| gm@.has_vertex(a) && gm@.has_vertex(b) implies #[trigger] reaches(gm@.adj_undirected(), a, b) by {
                gm@.lemma_vertices(a);
            }
        }
        true
    }
}

/// Whether the graph is unilaterally connected: for every two vertices, a
/// traversal from one of them finds the other.
pub fn graph_is_unilateral<G: Graph>(g: &G) -> (r: bool)
    requires
        g.wf(),
    ensures
        r == is_unilateral(g.model()),
{
    let gm = Ghost(g.model());
    proof {
        g.lemma_wf();
    }
    let verts = g.all_vertices();
    let mut i: usize = 0;
    while i < verts.len()
        invariant
            g.wf(),
            gm@ == g.model(),
            gm@.wf(),
            verts@ == gm@.vertices,
            i <= verts@.len(),
            forall|a: int, b: int|
                0 <= a < i && 0 <= b < verts@.len() ==> #[trigger] gm@.reachable(verts@[a], verts@[b])
                    || gm@.reachable(verts@[b], verts@[a]),
        decreases verts.len() - i,
    {
        let v1 = verts[i];
        proof {
            gm@.lemma_vertices(v1);
            crate::view::lemma_reaches_refl(gm@.adj(), v1);
        }
        let mut j: usize = i + 1;
        while j < verts.len()
            invariant
                g.wf(),
                gm@ == g.model(),
                gm@.wf(),
                verts@ == gm@.vertices,
                i < verts@.len(),
                v1 == verts@[i as int],
                gm@.has_vertex(v1),
                i < j <= verts@.len(),
                forall|a: int, b: int|
                    0 <= a < i && 0 <= b < verts@.len() ==> #[trigger] gm@.reachable(verts@[a], verts@[b])
                        || gm@.reachable(verts@[b], verts@[a]),
                forall|b: int| i < b < j ==> #[trigger] gm@.reachable(v1, verts@[b]) || gm@.reachable(verts@[b], v1),
            decreases verts.len() - j,
        {
            let v2 = verts[j];
            proof {
                gm@.lemma_vertices(v2);
            }
            if !dfs_finds(g, v1, v2) && !dfs_finds(g, v2, v1) {
                return false;
            }
            j += 1;
        }
        proof {
            assert forall|a: int, b: int|
                0 <= a < i + 1 && 0 <= b < verts@.len() implies #[trigger] gm@.reachable(verts@[a], verts@[b])
                    || gm@.reachable(verts@[b], verts@[a]) by {
                if a == i {
                    if b < i {
                        assert(gm@.reachable(verts@[b], verts@[a]) || gm@.reachable(verts@[a], verts@[b]));
                    } else if b == i {
                        crate::view::lemma_reaches_refl(gm@.adj(), v1);
                    }
                }
            }
        }
        i += 1;
    }
    proof {
        assert forall|u: usize, w: usize| gm@.has_vertex(u) && gm@.has_vertex(w) implies #[trigger] gm@.reachable(u, w)
            || gm@.reachable(w, u) by {
            gm@.lemma_vertices(u);
            gm@.lemma_vertices(w);
            let a = choose|a: int| 0 <= a < verts@.len() && verts@[a] == u;
            let b = choose|b: int| 0 <= b < verts@.len() && verts@[b] == w;
            assert(gm@.reachable(verts@[a], verts@[b]) || gm@.reachable(verts@[b], verts@[a]));
        }
    }
    true
}

/// Adding an edge keeps every adjacency, hence every path.
proof fn lemma_with_edge_reaches<Vw, Ew>(g: GraphView<Vw, Ew>, source: usize, sink: usize, weight: Ew)
    requires
        g.wf(),
        g.has_vertex(source),
        g.has_vertex(sink),
    ensures
        forall|u: usize, w: usize| #[trigger] g.reachable(u, w) ==> g.with_edge(source, sink, weight).reachable(u, w),
        forall|u: usize, w: usize| #[trigger] reaches(g.adj_undirected(), u, w) ==> reaches(g.with_edge(source, sink, weight).adj_undirected(), u, w),
{
    let n = g.with_edge(source, sink, weight);
    assert forall|x: usize, y: usize| #[trigger] g.adj()(x, y) implies n.adj()(x, y) by {
        g.lemma_between_with_edge(source, sink, weight, x, y);
    }
    assert forall|x: usize, y: usize| #[trigger] g.adj_undirected()(x, y) implies n.adj_undirected()(x, y) by {
        g.lemma_between_with_edge(source, sink, weight, x, y);
        g.lemma_between_with_edge(source, sink, weight, y, x);
    }
    assert forall|u: usize, w: usize| #[trigger] g.reachable(u, w) implies n.reachable(u, w) by {
        lemma_reaches_mono(g.adj(), n.adj(), u, w);
    }
    assert forall|u: usize, w: usize| #[trigger] reaches(g.adj_undirected(), u, w) implies reaches(n.adj_undirected(), u, w) by {
        lemma_reaches_mono(g.adj_undirected(), n.adj_undirected(), u, w);
    }
}

/// A connected graph: see [`Connected`].
pub struct ConnectedGraph<C: Graph>(C);

impl<C: Graph> ConnectedGraph<C> {
    /// Constrains the given graph, of which the property must hold. This is
    /// not checked.
    pub fn new(c: C) -> (r: Self)
        requires
            c.wf(),
            is_connected(c.model()),
        ensures
            r.wf(),
            r.constrained() == c,
            r.model() == c.model(),
    {
        ConnectedGraph(c)
    }
}

impl<C: Graph> Graph for ConnectedGraph<C> {
    type VertexWeight = C::VertexWeight;

    type EdgeWeight = C::EdgeWeight;

    closed spec fn model(&self) -> GraphView<C::VertexWeight, C::EdgeWeight> {
        self.0.model()
    }

    closed spec fn wf(&self) -> bool {
        self.0.wf() && is_connected(self.0.model())
    }

    proof fn lemma_wf(&self) {
        self.0.lemma_wf();
    }

    fn directed(&self) -> (r: bool) {
        self.0.directed()
    }

    fn all_vertices_weighted(&self) -> (r: Vec<(usize, &C::VertexWeight)>) {
        self.0.all_vertices_weighted()
    }

    fn edges_between(&self, source: usize, sink: usize) -> (r: Vec<&C::EdgeWeight>) {
        self.0.edges_between(source, sink)
    }

    fn edges_stored_from(&self, v: usize) -> (r: Vec<(usize, &C::EdgeWeight)>) {
        self.0.edges_stored_from(v)
    }
}

impl<C: Graph> Constrainer for ConnectedGraph<C> {
    type Constrained = C;

    closed spec fn constrained(&self) -> C {
        self.0
    }

    open spec fn holds(g: &C) -> bool {
        is_connected(g.model())
    }

    open spec fn constrained_model(g: &C) -> GraphView<C::VertexWeight, C::EdgeWeight> {
        g.model()
    }

    proof fn lemma_constrained(&self) {
    }

    fn constrain_single(g: C) -> (r: Result<Self, ()>) {
        if graph_is_connected(&g) {
            Ok(ConnectedGraph(g))
        } else {
            Err(())
        }
    }

    fn unconstrain_single(self) -> (r: C) {
        self.0
    }
}

impl<C: Graph> Weak for ConnectedGraph<C> {
    proof fn lemma_weak(&self) {
        lemma_connected_is_unilateral(self.0.model());
        lemma_unilateral_is_weak(self.0.model());
    }
}

impl<C: Graph> Unilateral for ConnectedGraph<C> {
    proof fn lemma_unilateral(&self) {
        lemma_connected_is_unilateral(self.0.model());
    }
}

impl<C: Graph> Connected for ConnectedGraph<C> {
    proof fn lemma_connected(&self) {
    }
}

impl<C: AddEdge> AddEdge for ConnectedGraph<C> {
    /// An edge is taken when the wrapped graph takes it: adding an edge never
    /// breaks connectivity.
    open spec fn accepts_edge(&self, source: usize, sink: usize, weight: C::EdgeWeight) -> bool {
        self.constrained().accepts_edge(source, sink, weight)
    }

    fn add_edge_weighted(&mut self, source: usize, sink: usize, weight: C::EdgeWeight) -> (r: Result<(), ()>) {
        let ghost g0 = self.0.model();
        proof {
            self.0.lemma_wf();
        }
        let r = self.0.add_edge_weighted(source, sink, weight);
        proof {
            if r is Ok {
                lemma_with_edge_reaches(g0, source, sink, weight);
                let g = self.0.model();
                assert forall|u: usize, w: usize| g.has_vertex(u) && g.has_vertex(w) implies #[trigger] g.reachable(u, w) by {
                    assert(g0.reachable(u, w));
                }
            }
        }
        r
    }
}
/// A weakly connected directed graph: see [`Weak`].
pub struct WeakGraph<C: Graph>(C);

impl<C: Graph> WeakGraph<C> {
    /// Constrains the given graph, of which the property must hold. This is
    /// not checked.
    pub fn new(c: C) -> (r: Self)
        requires
            c.wf(),
            c.model().directed && is_weak(c.model()),
        ensures
            r.wf(),
            r.constrained() == c,
            r.model() == c.model(),
    {
        WeakGraph(c)
    }
}

impl<C: Graph> Graph for WeakGraph<C> {
    type VertexWeight = C::VertexWeight;

    type EdgeWeight = C::EdgeWeight;

    closed spec fn model(&self) -> GraphView<C::VertexWeight, C::EdgeWeight> {
        self.0.model()
    }

    closed spec fn wf(&self) -> bool {
        self.0.wf() && self.0.model().directed && is_weak(self.0.model())
    }

    proof fn lemma_wf(&self) {
        self.0.lemma_wf();
    }

    fn directed(&self) -> (r: bool) {
        self.0.directed()
    }

    fn all_vertices_weighted(&self) -> (r: Vec<(usize, &C::VertexWeight)>) {
        self.0.all_vertices_weighted()
    }

    fn edges_between(&self, source: usize, sink: usize) -> (r: Vec<&C::EdgeWeight>) {
        self.0.edges_between(source, sink)
    }

    fn edges_stored_from(&self, v: usize) -> (r: Vec<(usize, &C::EdgeWeight)>) {
        self.0.edges_stored_from(v)
    }
}

impl<C: Graph> Constrainer for WeakGraph<C> {
    type Constrained = C;

    closed spec fn constrained(&self) -> C {
        self.0
    }

    open spec fn holds(g: &C) -> bool {
        g.model().directed && is_weak(g.model())
    }

    open spec fn constrained_model(g: &C) -> GraphView<C::VertexWeight, C::EdgeWeight> {
        g.model()
    }

    proof fn lemma_constrained(&self) {
    }

    fn constrain_single(g: C) -> (r: Result<Self, ()>) {
        if g.directed() && graph_is_weak(&g) {
            Ok(WeakGraph(g))
        } else {
            Err(())
        }
    }

    fn unconstrain_single(self) -> (r: C) {
        self.0
    }
}

impl<C: Graph> Weak for WeakGraph<C> {
    proof fn lemma_weak(&self) {
    }
}

impl<C: AddEdge> AddEdge for WeakGraph<C> {
    /// An edge is taken when the wrapped graph takes it: adding an edge never
    /// breaks connectivity.
    open spec fn accepts_edge(&self, source: usize, sink: usize, weight: C::EdgeWeight) -> bool {
        self.constrained().accepts_edge(source, sink, weight)
    }

    fn add_edge_weighted(&mut self, source: usize, sink: usize, weight: C::EdgeWeight) -> (r: Result<(), ()>) {
        let ghost g0 = self.0.model();
        proof {
            self.0.lemma_wf();
        }
        let r = self.0.add_edge_weighted(source, sink, weight);
        proof {
            if r is Ok {
                lemma_with_edge_reaches(g0, source, sink, weight);
                let g = self.0.model();
                assert forall|u: usize, w: usize| g.has_vertex(u) && g.has_vertex(w) implies #[trigger] reaches(g.adj_undirected(), u, w) by {
                    assert(reaches(g0.adj_undirected(), u, w));
                }
            }
        }
        r
    }
}
/// A unilaterally connected directed graph, checked pair by pair: see
/// [`UnilaterallyConnected`].
pub struct UnilaterallyConnectedGraph<C: Graph>(C);

impl<C: Graph> UnilaterallyConnectedGraph<C> {
    /// Constrains the given graph, of which the property must hold. This is
    /// not checked.
    pub fn new(c: C) -> (r: Self)
        requires
            c.wf(),
            c.model().directed && is_unilateral(c.model()),
        ensures
            r.wf(),
            r.constrained() == c,
            r.model() == c.model(),
    {
        UnilaterallyConnectedGraph(c)
    }
}

impl<C: Graph> Graph for UnilaterallyConnectedGraph<C> {
    type VertexWeight = C::VertexWeight;

    type EdgeWeight = C::EdgeWeight;

    closed spec fn model(&self) -> GraphView<C::VertexWeight, C::EdgeWeight> {
        self.0.model()
    }

    closed spec fn wf(&self) -> bool {
        self.0.wf() && self.0.model().directed && is_unilateral(self.0.model())
    }

    proof fn lemma_wf(&self) {
        self.0.lemma_wf();
    }

    fn directed(&self) -> (r: bool) {
        self.0.directed()
    }

    fn all_vertices_weighted(&self) -> (r: Vec<(usize, &C::VertexWeight)>) {
        self.0.all_vertices_weighted()
    }

    fn edges_between(&self, source: usize, sink: usize) -> (r: Vec<&C::EdgeWeight>) {
        self.0.edges_between(source, sink)
    }

    fn edges_stored_from(&self, v: usize) -> (r: Vec<(usize, &C::EdgeWeight)>) {
        self.0.edges_stored_from(v)
    }
}

impl<C: Graph> Constrainer for UnilaterallyConnectedGraph<C> {
    type Constrained = C;

    closed spec fn constrained(&self) -> C {
        self.0
    }

    open spec fn holds(g: &C) -> bool {
        g.model().directed && is_unilateral(g.model())
    }

    open spec fn constrained_model(g: &C) -> GraphView<C::VertexWeight, C::EdgeWeight> {
        g.model()
    }

    proof fn lemma_constrained(&self) {
    }

    fn constrain_single(g: C) -> (r: Result<Self, ()>) {
        if g.directed() && graph_is_unilateral(&g) {
            Ok(UnilaterallyConnectedGraph(g))
        } else {
            Err(())
        }
    }

    fn unconstrain_single(self) -> (r: C) {
        self.0
    }
}

impl<C: Graph> UnilaterallyConnected for UnilaterallyConnectedGraph<C> {
    proof fn lemma_unilaterally_connected(&self) {
    }
}

impl<C: AddEdge> AddEdge for UnilaterallyConnectedGraph<C> {
    /// An edge is taken when the wrapped graph takes it: adding an edge never
    /// breaks connectivity.
    open spec fn accepts_edge(&self, source: usize, sink: usize, weight: C::EdgeWeight) -> bool {
        self.constrained().accepts_edge(source, sink, weight)
    }

    fn add_edge_weighted(&mut self, source: usize, sink: usize, weight: C::EdgeWeight) -> (r: Result<(), ()>) {
        let ghost g0 = self.0.model();
        proof {
            self.0.lemma_wf();
        }
        let r = self.0.add_edge_weighted(source, sink, weight);
        proof {
            if r is Ok {
                lemma_with_edge_reaches(g0, source, sink, weight);
                let g = self.0.model();
                assert forall|u: usize, w: usize| g.has_vertex(u) && g.has_vertex(w) implies #[trigger] g.reachable(u, w) || g.reachable(w, u) by {
                    assert(g0.reachable(u, w) || g0.reachable(w, u));
                }
            }
        }
        r
    }
}
/// A unilaterally connected directed graph: see [`Unilateral`].
pub struct UnilateralGraph<C: Graph>(C);

impl<C: Graph> UnilateralGraph<C> {
    /// Constrains the given graph, of which the property must hold. This is
    /// not checked.
    pub fn new(c: C) -> (r: Self)
        requires
            c.wf(),
            c.model().directed && is_unilateral(c.model()),
        ensures
            r.wf(),
            r.constrained() == c,
            r.model() == c.model(),
    {
        UnilateralGraph(c)
    }
}

impl<C: Graph> Graph for UnilateralGraph<C> {
    type VertexWeight = C::VertexWeight;

    type EdgeWeight = C::EdgeWeight;

    closed spec fn model(&self) -> GraphView<C::VertexWeight, C::EdgeWeight> {
        self.0.model()
    }

    closed spec fn wf(&self) -> bool {
        self.0.wf() && self.0.model().directed && is_unilateral(self.0.model())
    }

    proof fn lemma_wf(&self) {
        self.0.lemma_wf();
    }

    fn directed(&self) -> (r: bool) {
        self.0.directed()
    }

    fn all_vertices_weighted(&self) -> (r: Vec<(usize, &C::VertexWeight)>) {
        self.0.all_vertices_weighted()
    }

    fn edges_between(&self, source: usize, sink: usize) -> (r: Vec<&C::EdgeWeight>) {
        self.0.edges_between(source, sink)
    }

    fn edges_stored_from(&self, v: usize) -> (r: Vec<(usize, &C::EdgeWeight)>) {
        self.0.edges_stored_from(v)
    }
}

impl<C: Graph> Constrainer for UnilateralGraph<C> {
    type Constrained = C;

    closed spec fn constrained(&self) -> C {
        self.0
    }

    open spec fn holds(g: &C) -> bool {
        g.model().directed && is_unilateral(g.model())
    }

    open spec fn constrained_model(g: &C) -> GraphView<C::VertexWeight, C::EdgeWeight> {
        g.model()
    }

    proof fn lemma_constrained(&self) {
    }

    fn constrain_single(g: C) -> (r: Result<Self, ()>) {
        if g.directed() && graph_is_unilateral(&g) {
            Ok(UnilateralGraph(g))
        } else {
            Err(())
        }
    }

    fn unconstrain_single(self) -> (r: C) {
        self.0
    }
}

impl<C: Graph> Weak for UnilateralGraph<C> {
    proof fn lemma_weak(&self) {
        lemma_unilateral_is_weak(self.0.model());
    }
}

impl<C: Graph> Unilateral for UnilateralGraph<C> {
    proof fn lemma_unilateral(&self) {
    }
}

impl<C: AddEdge> AddEdge for UnilateralGraph<C> {
    /// An edge is taken when the wrapped graph takes it: adding an edge never
    /// breaks connectivity.
    open spec fn accepts_edge(&self, source: usize, sink: usize, weight: C::EdgeWeight) -> bool {
        self.constrained().accepts_edge(source, sink, weight)
    }

    fn add_edge_weighted(&mut self, source: usize, sink: usize, weight: C::EdgeWeight) -> (r: Result<(), ()>) {
        let ghost g0 = self.0.model();
        proof {
            self.0.lemma_wf();
        }
        let r = self.0.add_edge_weighted(source, sink, weight);
        proof {
            if r is Ok {
                lemma_with_edge_reaches(g0, source, sink, weight);
                let g = self.0.model();
                assert forall|u: usize, w: usize| g.has_vertex(u) && g.has_vertex(w) implies #[trigger] g.reachable(u, w) || g.reachable(w, u) by {
                    assert(g0.reachable(u, w) || g0.reachable(w, u));
                }
            }
        }
        r
    }
}

} // verus!
