//! A graph using the adjacency list representation.
use crate::directedness::{Directed, Directedness};
use crate::graph::Graph;
use crate::property::{GraphMut, AddEdge, EdgeCount, NewVertex, RemoveEdge, RemoveVertex, VertexCount};
use crate::view::{
    deref_pairs, deref_seq, drop_shift, lemma_deref_pairs_push, lemma_remove_shift_range, range,
    shift, unshift, weights_to, GraphView,
};
use std::marker::PhantomData;
use vstd::prelude::*;

verus! {

/// A graph using the adjacency list representation.
///
/// Each vertex is identified by its index: the vertices of a graph with `n`
/// vertices are `0..n`. Every vertex stores its weight and the list of edges
/// leaving it: the index of each edge's sink and the edge's weight.
///
/// `D` says whether the graph is [`Directed`] (the default) or
/// [`Undirected`](crate::directedness::Undirected).
#[derive(Debug)]
pub struct AdjListGraph<Vw, Ew, D: Directedness = Directed> {
    vertices: Vec<(Vw, Vec<(usize, Ew)>)>,
    phantom: PhantomData<D>,
}

impl<Vw, Ew, D: Directedness> AdjListGraph<Vw, Ew, D> {
    /// Constructs a new, empty graph.
    pub fn new() -> (r: Self)
        ensures
            r.wf(),
            r.model().vertices.len() == 0,
            r.model().directed == D::is_directed(),
    {
        AdjListGraph { vertices: Vec::new(), phantom: PhantomData }
    }

    /// The vertices of a graph with `n` vertices are `0..n`, in order.
    pub proof fn lemma_vertices_are_indices(&self)
        requires
            self.wf(),
        ensures
            self.model().vertices == range(self.model().vertices.len()),
            forall|v: usize| #[trigger] self.model().has_vertex(v) <==> v < self.model().vertices.len(),
    {
        let g = self.model();
        assert forall|v: usize| #[trigger] g.has_vertex(v) <==> v < g.vertices.len() by {
            if v < g.vertices.len() {
                assert(g.vertices[v as int] == v);
            }
        }
    }
}

/// Copies the edges stored from one vertex, cloning their weights.
fn clone_edges<Ew: Clone>(es: &Vec<(usize, Ew)>) -> (r: Vec<(usize, Ew)>)
    ensures
        r@.len() == es@.len(),
        forall|j: int|
            0 <= j < es@.len() ==> (#[trigger] r@[j]).0 == es@[j].0 && cloned(es@[j].1, r@[j].1),
{
    let mut r: Vec<(usize, Ew)> = Vec::new();
    let mut j: usize = 0;
    while j < es.len()
        invariant
            j <= es@.len(),
            r@.len() == j,
            forall|k: int| 0 <= k < j ==> (#[trigger] r@[k]).0 == es@[k].0 && cloned(es@[k].1, r@[k].1),
        decreases es.len() - j,
    {
        let w = es[j].1.clone();
        r.push((es[j].0, w));
        j += 1;
    }
    r
}

impl<Vw: Clone, Ew: Clone, D: Directedness> Clone for AdjListGraph<Vw, Ew, D> {
    /// Copies the graph: the same vertices, each with its edges to the same
    /// sinks in the same order, and every weight cloned.
    fn clone(&self) -> (r: Self)
        ensures
            self.wf() ==> r.wf(),
            r.model().vertices == self.model().vertices,
            r.model().directed == self.model().directed,
            forall|v: usize|
                #[trigger] self.model().has_vertex(v) ==> cloned(self.model().weights[v], r.model().weights[v])
                    && r.model().out_edges[v].len() == self.model().out_edges[v].len(),
            forall|v: usize, j: int|
                #[trigger] self.model().has_vertex(v) && 0 <= j < self.model().out_edges[v].len() ==> (
                #[trigger] r.model().out_edges[v][j]).0 == self.model().out_edges[v][j].0 && cloned(
                    self.model().out_edges[v][j].1,
                    r.model().out_edges[v][j].1,
                ),
    {
        let mut vs: Vec<(Vw, Vec<(usize, Ew)>)> = Vec::new();
        let mut i: usize = 0;
        while i < self.vertices.len()
            invariant
                i <= self.vertices@.len(),
                vs@.len() == i,
                forall|k: int|
                    0 <= k < i ==> cloned(self.vertices@[k].0, (#[trigger] vs@[k]).0) && vs@[k].1@.len()
                        == self.vertices@[k].1@.len() && forall|j: int|
                        0 <= j < self.vertices@[k].1@.len() ==> (#[trigger] vs@[k].1@[j]).0
                            == self.vertices@[k].1@[j].0 && cloned(self.vertices@[k].1@[j].1, vs@[k].1@[j].1),
            decreases self.vertices.len() - i,
        {
            let w = self.vertices[i].0.clone();
            let es = clone_edges(&self.vertices[i].1);
            vs.push((w, es));
            i += 1;
        }
        let r = AdjListGraph { vertices: vs, phantom: PhantomData };
        proof {
            assert forall|v: usize, j: int|
                #[trigger] self.model().has_vertex(v) && 0 <= j < self.model().out_edges[v].len() implies (
                #[trigger] r.model().out_edges[v][j]).0 == self.model().out_edges[v][j].0 && cloned(
                    self.model().out_edges[v][j].1,
                    r.model().out_edges[v][j].1,
                ) by {
                assert(r.vertices@[v as int].1@[j].0 == self.vertices@[v as int].1@[j].0);
            }
            if self.wf() {
                assert forall|v: int, j: int|
                    0 <= v < r.vertices@.len() && 0 <= j < r.vertices@[v].1@.len() implies (
                    #[trigger] r.vertices@[v].1@[j]).0 < r.vertices@.len() by {
                    assert(r.vertices@[v].1@[j].0 == self.vertices@[v].1@[j].0);
                }
            }
        }
        r
    }
}

impl<Vw, Ew, D: Directedness> Graph for AdjListGraph<Vw, Ew, D> {
    type VertexWeight = Vw;

    type EdgeWeight = Ew;

    closed spec fn model(&self) -> GraphView<Vw, Ew> {
        GraphView {
            vertices: range(self.vertices@.len()),
            weights: Map::new(
                |v: usize| v < self.vertices@.len(),
                |v: usize| self.vertices@[v as int].0,
            ),
            out_edges: Map::new(
                |v: usize| v < self.vertices@.len(),
                |v: usize| self.vertices@[v as int].1@,
            ),
            directed: D::is_directed(),
        }
    }

    closed spec fn wf(&self) -> bool {
        &&& self.vertices@.len() <= usize::MAX
        &&& forall|v: int, j: int|
            0 <= v < self.vertices@.len() && 0 <= j < self.vertices@[v].1@.len() ==> (
            #[trigger] self.vertices@[v].1@[j]).0 < self.vertices@.len()
    }

    proof fn lemma_wf(&self) {
        let g = self.model();
        assert forall|i: int, j: int| 0 <= i < g.vertices.len() && 0 <= j < g.vertices.len() && i != j implies g.vertices[i] != g.vertices[j] by {}
        assert forall|v: usize| #[trigger] g.out_edges.dom().contains(v) <==> g.vertices.contains(v) by {
            if v < self.vertices@.len() {
                assert(g.vertices[v as int] == v);
            }
        }
        assert forall|v: usize| #[trigger] g.weights.dom().contains(v) <==> g.vertices.contains(v) by {
            if v < self.vertices@.len() {
                assert(g.vertices[v as int] == v);
            }
        }
        assert forall|v: usize, j: int|
            g.has_vertex(v) && 0 <= j < g.out_edges[v].len() implies g.has_vertex(
            #[trigger] g.out_edges[v][j].0,
        ) by {
            assert(self.vertices@[v as int].1@[j].0 < self.vertices@.len());
        }
    }

    fn directed(&self) -> (r: bool) {
        D::directed()
    }

    fn all_vertices_weighted(&self) -> (r: Vec<(usize, &Vw)>) {
        let mut r: Vec<(usize, &Vw)> = Vec::new();
        let mut i: usize = 0;
        while i < self.vertices.len()
            invariant
                i <= self.vertices@.len(),
                r@.len() == i,
                forall|j: int|
                    0 <= j < i ==> (#[trigger] r@[j]).0 == j && *r@[j].1 == self.vertices@[j].0,
            decreases self.vertices.len() - i,
        {
            r.push((i, &self.vertices[i].0));
            i += 1;
        }
        r
    }

    fn edges_between(&self, source: usize, sink: usize) -> (r: Vec<&Ew>) {
        let mut r: Vec<&Ew> = Vec::new();
        let n = self.vertices.len();
        if source < n && sink < n {
            let out = &self.vertices[source].1;
            let mut i: usize = 0;
            while i < out.len()
                invariant
                    i <= out@.len(),
                    deref_seq(r@) == weights_to(out@.take(i as int), sink),
                decreases out.len() - i,
            {
                let ghost prev = r@;
                proof {
                    assert(out@.take(i + 1).drop_last() =~= out@.take(i as int));
                    assert(out@.take(i + 1).last() == out@[i as int]);
                }
                if out[i].0 == sink {
                    r.push(&out[i].1);
                    proof {
                        assert(deref_seq(r@) =~= deref_seq(prev).push(out@[i as int].1));
                    }
                }
                i += 1;
            }
            proof {
                assert(out@.take(i as int) =~= out@);
            }
            if !D::directed() && source != sink {
                let back = &self.vertices[sink].1;
                let ghost first = deref_seq(r@);
                let mut i: usize = 0;
                while i < back.len()
                    invariant
                        source != sink,
                        i <= back@.len(),
                        deref_seq(r@) == first + weights_to(back@.take(i as int), source),
                    decreases back.len() - i,
                {
                    let ghost prev = r@;
                    proof {
                        assert(back@.take(i + 1).drop_last() =~= back@.take(i as int));
                        assert(back@.take(i + 1).last() == back@[i as int]);
                    }
                    if back[i].0 != sink && back[i].0 == source {
                        r.push(&back[i].1);
                        proof {
                            assert(deref_seq(r@) =~= deref_seq(prev).push(back@[i as int].1));
                        }
                    }
                    i += 1;
                }
                proof {
                    assert(back@.take(i as int) =~= back@);
                }
            } else {
                proof {
                    assert(deref_seq(r@) =~= deref_seq(r@) + Seq::<Ew>::empty());
                }
            }
        } else {
            proof {
                assert(deref_seq(r@) =~= Seq::<Ew>::empty());
            }
        }
        r
    }

    fn edges_stored_from(&self, v: usize) -> (r: Vec<(usize, &Ew)>) {
        let mut r: Vec<(usize, &Ew)> = Vec::new();
        if v < self.vertices.len() {
            let out = &self.vertices[v].1;
            let mut i: usize = 0;
            while i < out.len()
                invariant
                    i <= out@.len(),
                    deref_pairs(r@) == out@.take(i as int),
                decreases out.len() - i,
            {
                let ghost prev = r@;
                r.push((out[i].0, &out[i].1));
                proof {
                    lemma_deref_pairs_push(prev, (out@[i as int].0, &out@[i as int].1));
                    assert(deref_pairs(r@) =~= out@.take(i + 1));
                }
                i += 1;
            }
            proof {
                assert(out@.take(i as int) =~= out@);
            }
        } else {
            proof {
                assert(deref_pairs(r@) =~= Seq::<(usize, Ew)>::empty());
            }
        }
        r
    }
}

impl<Vw, Ew, D: Directedness> GraphMut for AdjListGraph<Vw, Ew, D> {
    fn vertex_weight_mut(&mut self, v: usize) -> (r: &mut Vw) {
        &mut self.vertices[v].0
    }

    fn edge_weight_mut(&mut self, source: usize, idx: usize) -> (r: &mut Ew) {
        &mut self.vertices[source].1[idx].1
    }
}

impl<Vw, Ew, D: Directedness> NewVertex for AdjListGraph<Vw, Ew, D> {
    /// An adjacency list always takes a new vertex.
    open spec fn accepts_new_vertex(&self) -> bool {
        true
    }

    fn new_vertex_weighted(&mut self, w: Vw) -> (r: Result<usize, ()>)
        ensures
            r == Ok::<usize, ()>(old(self).model().vertices.len() as usize),
    {
        let new_v = self.vertices.len();
        let ghost g0 = self.model();
        self.vertices.push((w, Vec::new()));
        let _ = self.vertices.len();
        proof {
            let g = self.model();
            assert(g.vertices =~= g0.vertices.push(new_v));
            assert(g.weights =~= g0.weights.insert(new_v, w));
            assert(g.out_edges =~= g0.out_edges.insert(new_v, g.out_edges[new_v]));
            assert(g.out_edges[new_v].len() == 0);
        }
        Ok(new_v)
    }
}

/// Takes the edges of `list` that do not lead to `v`, with their sinks
/// renumbered for the removal of `v`.
fn drop_and_shift<Ew>(list: Vec<(usize, Ew)>, v: usize) -> (r: Vec<(usize, Ew)>)
    ensures
        r@ == drop_shift(list@, v),
{
    let mut list = list;
    let ghost orig = list@;
    // Reverse the list so its edges can be taken from the back in order.
    let mut rev: Vec<(usize, Ew)> = Vec::new();
    while list.len() > 0
        invariant
            list@ + rev@.reverse() == orig,
        decreases list.len(),
    {
        let e = list.pop().unwrap();
        proof {
            assert(rev@.push(e).reverse() =~= seq![e] + rev@.reverse());
        }
        let ghost prev_list = list@;
        rev.push(e);
        proof {
            assert(list@ + rev@.reverse() =~= orig);
        }
    }
    proof {
        assert(rev@.reverse() =~= orig);
    }
    let mut r: Vec<(usize, Ew)> = Vec::new();
    while rev.len() > 0
        invariant
            rev@.reverse() == orig.skip(orig.len() - rev@.len()),
            rev@.len() <= orig.len(),
            r@ == drop_shift(orig.take(orig.len() - rev@.len()), v),
        decreases rev.len(),
    {
        let ghost k = orig.len() - rev@.len();
        let ghost old_rev = rev@;
        let e = rev.pop().unwrap();
        proof {
            assert(old_rev.reverse()[0] == e);
            assert(orig.skip(k)[0] == e);
            assert(orig[k] == e);
            assert forall|i: int| 0 <= i < rev@.len() implies #[trigger] rev@.reverse()[i] == orig.skip(k + 1)[i] by {
                assert(rev@.reverse()[i] == old_rev.reverse()[i + 1]);
                assert(old_rev.reverse()[i + 1] == orig.skip(k)[i + 1]);
            }
            assert(rev@.reverse() =~= orig.skip(k + 1));
            assert(orig.take(k + 1).drop_last() =~= orig.take(k));
            assert(orig.take(k + 1).last() == e);
        }
        if e.0 != v {
            let s = if e.0 > v {
                e.0 - 1
            } else {
                e.0
            };
            r.push((s, e.1));
        }
    }
    proof {
        assert(orig.take(orig.len() as int) =~= orig);
    }
    r
}

impl<Vw, Ew, D: Directedness> RemoveVertex for AdjListGraph<Vw, Ew, D> {
    /// Any vertex of the graph can be removed.
    open spec fn accepts_vertex_removal(&self, v: usize) -> bool {
        self.model().has_vertex(v)
    }

    fn remove_vertex(&mut self, v: usize) -> (r: Result<Vw, ()>)
        ensures
            r is Ok <==> old(self).model().has_vertex(v),
    {
        if v < self.vertices.len() {
            let ghost g0 = self.model();
            let ghost old_vs = self.vertices@;
            let (w, _) = self.vertices.remove(v);
            let mut i: usize = 0;
            while i < self.vertices.len()
                invariant
                    v < old_vs.len(),
                    self.vertices@.len() == old_vs.len() - 1,
                    i <= self.vertices@.len(),
                    forall|x: int|
                        0 <= x < self.vertices@.len() ==> (#[trigger] self.vertices@[x]).0 == old_vs[if x
                            < v {
                            x
                        } else {
                            x + 1
                        }].0,
                    forall|x: int|
                        0 <= x < i ==> (#[trigger] self.vertices@[x]).1@ == drop_shift(
                            old_vs[if x < v {
                                x
                            } else {
                                x + 1
                            }].1@,
                            v,
                        ),
                    forall|x: int|
                        i <= x < self.vertices@.len() ==> (#[trigger] self.vertices@[x]).1@ == old_vs[if x
                            < v {
                            x
                        } else {
                            x + 1
                        }].1@,
                decreases self.vertices.len() - i,
            {
                let mut list: Vec<(usize, Ew)> = Vec::new();
                std::mem::swap(&mut list, &mut self.vertices[i].1);
                let shifted = drop_and_shift(list, v);
                self.vertices[i].1 = shifted;
                i += 1;
            }
            proof {
                let g = self.model();
                let h = g0.without_vertex(v);
                let n = old_vs.len();
                lemma_remove_shift_range(n as nat, v);
                assert(g.vertices =~= h.vertices);
                assert forall|x: usize| g.weights.dom().contains(x) <==> h.weights.dom().contains(x) by {}
                assert(g.weights =~= h.weights);
                assert(g.out_edges =~= h.out_edges);
                assert forall|x: int, j: int|
                    0 <= x < self.vertices@.len() && 0 <= j < self.vertices@[x].1@.len() implies (
                    #[trigger] self.vertices@[x].1@[j]).0 < self.vertices@.len() by {
                    let ox = if x < v {
                        x
                    } else {
                        x + 1
                    };
                    lemma_drop_shift_bound(old_vs[ox].1@, v, n as nat, j);
                    assert forall|k: int| 0 <= k < old_vs[ox].1@.len() implies (#[trigger] old_vs[ox].1@[k]).0 < n by {
                        assert(old_vs[ox].1@[k].0 < old_vs.len());
                    }
                }
            }
            Ok(w)
        } else {
            Err(())
        }
    }
}

/// The sinks of a renumbered list stay below the new vertex count.
proof fn lemma_drop_shift_bound<Ew>(s: Seq<(usize, Ew)>, v: usize, n: nat, j: int)
    requires
        v < n,
        forall|k: int| 0 <= k < s.len() ==> (#[trigger] s[k]).0 < n,
        0 <= j < drop_shift(s, v).len(),
    ensures
        drop_shift(s, v)[j].0 < n - 1,
    decreases s.len(),
{
    if s.len() > 0 {
        let r0 = drop_shift(s.drop_last(), v);
        assert forall|k: int| 0 <= k < s.drop_last().len() implies (#[trigger] s.drop_last()[k]).0 < n by {
            assert(s[k].0 < n);
        }
        if j < r0.len() {
            lemma_drop_shift_bound(s.drop_last(), v, n, j);
        } else {
            assert(s[s.len() - 1].0 < n);
        }
    }
}

impl<Vw, Ew, D: Directedness> AddEdge for AdjListGraph<Vw, Ew, D> {
    /// Any edge between two vertices of the graph is taken.
    open spec fn accepts_edge(&self, source: usize, sink: usize, weight: Ew) -> bool {
        self.model().has_vertex(source) && self.model().has_vertex(sink)
    }

    fn add_edge_weighted(&mut self, source: usize, sink: usize, weight: Ew) -> (r: Result<(), ()>)
        ensures
            r is Ok <==> (old(self).model().has_vertex(source) && old(self).model().has_vertex(sink)),
    {
        let len = self.vertices.len();
        if source < len && sink < len {
            let ghost g0 = self.model();
            self.vertices[source].1.push((sink, weight));
            proof {
                let g = self.model();
                assert(g.weights =~= g0.weights);
                assert(g.out_edges =~= g0.with_edge(source, sink, weight).out_edges);
            }
            Ok(())
        } else {
            Err(())
        }
    }
}

impl<Vw, Ew, D: Directedness> RemoveEdge for AdjListGraph<Vw, Ew, D> {
    fn remove_edge_at(&mut self, source: usize, idx: usize) -> (r: (usize, Ew)) {
        let ghost g0 = self.model();
        let e = self.vertices[source].1.remove(idx);
        proof {
            let g = self.model();
            assert(g.weights =~= g0.weights);
            assert(g.out_edges =~= g0.without_edge(source, idx as int).out_edges);
            assert forall|x: int, j: int|
                0 <= x < self.vertices@.len() && 0 <= j < self.vertices@[x].1@.len() implies (
                #[trigger] self.vertices@[x].1@[j]).0 < self.vertices@.len() by {
                if x == source as int && j >= idx {
                    assert(self.vertices@[x].1@[j] == g0.out_edges[source][j + 1]);
                }
            }
        }
        e
    }
}

impl<Vw, Ew, D: Directedness> VertexCount for AdjListGraph<Vw, Ew, D> {
    fn vertex_count(&self) -> (r: usize) {
        self.vertices.len()
    }
}

impl<Vw, Ew, D: Directedness> EdgeCount for AdjListGraph<Vw, Ew, D> {
    fn edge_count(&self) -> (r: usize) {
        let mut count: usize = 0;
        let mut i: usize = 0;
        proof {
            lemma_edge_count_mono(self.model(), i as nat, self.vertices@.len());
        }
        while i < self.vertices.len()
            invariant
                i <= self.vertices@.len(),
                self.model().vertices.len() == self.vertices@.len(),
                count == self.model().edge_count_upto(i as nat),
                self.model().edge_count() <= usize::MAX,
            decreases self.vertices.len() - i,
        {
            proof {
                lemma_edge_count_mono(self.model(), (i + 1) as nat, self.vertices@.len());
                assert(self.model().vertices[i as int] == i);
            }
            count = count + self.vertices[i].1.len();
            i += 1;
        }
        count
    }
}

/// Counting the edges of fewer vertices gives no more edges.
proof fn lemma_edge_count_mono<Vw, Ew>(g: GraphView<Vw, Ew>, k: nat, n: nat)
    requires
        k <= n,
    ensures
        g.edge_count_upto(k) <= g.edge_count_upto(n),
    decreases n,
{
    if k < n {
        lemma_edge_count_mono(g, k, (n - 1) as nat);
    }
}

} // verus!
