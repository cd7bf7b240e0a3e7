//! The basic graph trait, providing vertex and edge inspection.
use crate::view::{lemma_deref_pairs_push, lemma_deref_triples_push, deref_pairs, deref_seq, deref_triples, positions_to, tag, without_vertex, GraphView};
use vstd::prelude::*;

verus! {

/// The basic graph trait, providing vertex and edge inspection.
///
/// A graph's vertices are identified by unique `usize` values. In addition to
/// its identifier, each vertex has a weight of type `VertexWeight`. Edges are
/// identified by the two vertices they connect and carry a weight of type
/// `EdgeWeight`. A graph is either directed, where an edge `(v1,v2)` points
/// from `v1` to `v2` only, or undirected, where it connects the two either
/// way.
///
/// Every method is specified over [`model`](Graph::model), the graph's
/// abstract value.
pub trait Graph: Sized {
    /// The weight associated with each vertex.
    type VertexWeight;

    /// The weight associated with each edge.
    type EdgeWeight;

    /// The abstract value of the graph.
    spec fn model(&self) -> GraphView<Self::VertexWeight, Self::EdgeWeight>;

    /// The internal consistency of the graph.
    spec fn wf(&self) -> bool;

    /// A consistent graph has a consistent model.
    proof fn lemma_wf(&self)
        requires
            self.wf(),
        ensures
            self.model().wf(),
    ;

    /// Returns whether the graph is directed.
    fn directed(&self) -> (r: bool)
        requires
            self.wf(),
        ensures
            r == self.model().directed,
    ;

    /// Returns all vertices of the graph with their weights.
    fn all_vertices_weighted(&self) -> (r: Vec<(usize, &Self::VertexWeight)>)
        requires
            self.wf(),
        ensures
            r@.len() == self.model().vertices.len(),
            forall|i: int|
                0 <= i < r@.len() ==> (#[trigger] r@[i]).0 == self.model().vertices[i] && *r@[i].1
                    == self.model().weights[self.model().vertices[i]],
    ;

    /// Returns the weights of all edges that are sourced in `source` and
    /// sinked in `sink`. If the graph is undirected, returns all edges
    /// connecting the two vertices.
    fn edges_between(&self, source: usize, sink: usize) -> (r: Vec<&Self::EdgeWeight>)
        requires
            self.wf(),
        ensures
            deref_seq(r@) == self.model().between(source, sink),
    ;

    /// Returns the edges stored as leaving `v`: the sink and weight of each,
    /// in storage order. Nothing is returned for a vertex not in the graph.
    fn edges_stored_from(&self, v: usize) -> (r: Vec<(usize, &Self::EdgeWeight)>)
        requires
            self.wf(),
        ensures
            deref_pairs(r@) == if self.model().has_vertex(v) {
                self.model().out_edges[v]
            } else {
                Seq::empty()
            },
    ;

    // Provided methods
    /// Returns all vertices of the graph, in order.
    fn all_vertices(&self) -> (r: Vec<usize>)
        requires
            self.wf(),
        ensures
            r@ == self.model().vertices,
    {
        let all = self.all_vertices_weighted();
        let mut r: Vec<usize> = Vec::new();
        let mut i: usize = 0;
        while i < all.len()
            invariant
                all@.len() == self.model().vertices.len(),
                forall|j: int|
                    0 <= j < all@.len() ==> (#[trigger] all@[j]).0 == self.model().vertices[j],
                i <= all@.len(),
                r@ == self.model().vertices.take(i as int),
            decreases all.len() - i,
        {
            r.push(all[i].0);
            i += 1;
            proof {
                assert(r@ =~= self.model().vertices.take(i as int));
            }
        }
        proof {
            assert(r@ =~= self.model().vertices);
        }
        r
    }

    /// Returns the weight of the given vertex, if it is in the graph.
    fn vertex_weight(&self, v: usize) -> (r: Option<&Self::VertexWeight>)
        requires
            self.wf(),
        ensures
            r is Some <==> self.model().has_vertex(v),
            r matches Some(w) ==> *w == self.model().weights[v],
    {
        proof {
            self.lemma_wf();
            self.model().lemma_vertices(v);
        }
        let all = self.all_vertices_weighted();
        let mut i: usize = 0;
        while i < all.len()
            invariant
                all@.len() == self.model().vertices.len(),
                forall|j: int|
                    0 <= j < all@.len() ==> (#[trigger] all@[j]).0 == self.model().vertices[j]
                        && *all@[j].1 == self.model().weights[self.model().vertices[j]],
                i <= all@.len(),
                forall|j: int| 0 <= j < i ==> self.model().vertices[j] != v,
                self.model().has_vertex(v) <==> self.model().vertices.contains(v),
            decreases all.len() - i,
        {
            if all[i].0 == v {
                proof {
                    assert(self.model().vertices.contains(v));
                }
                return Some(all[i].1);
            }
            i += 1;
        }
        proof {
            if self.model().vertices.contains(v) {
                let j = choose|j: int| 0 <= j < self.model().vertices.len() && self.model().vertices[j] == v;
            }
        }
        None
    }

    /// Returns whether the given vertex is in the graph.
    fn contains_vertex(&self, v: usize) -> (r: bool)
        requires
            self.wf(),
        ensures
            r == self.model().has_vertex(v),
    {
        self.vertex_weight(v).is_some()
    }

    /// Returns whether all the given vertices are in the graph.
    fn contains_vertices(&self, vs: &Vec<usize>) -> (r: bool)
        requires
            self.wf(),
        ensures
            r == forall|i: int| 0 <= i < vs@.len() ==> self.model().has_vertex(#[trigger] vs@[i]),
    {
        let mut i: usize = 0;
        while i < vs.len()
            invariant
                self.wf(),
                i <= vs@.len(),
                forall|j: int| 0 <= j < i ==> self.model().has_vertex(#[trigger] vs@[j]),
            decreases vs.len() - i,
        {
            if !self.contains_vertex(vs[i]) {
                return false;
            }
            i += 1;
        }
        true
    }

    /// Returns the weights of all vertices, in vertex order.
    fn all_vertex_weights(&self) -> (r: Vec<&Self::VertexWeight>)
        requires
            self.wf(),
        ensures
            r@.len() == self.model().vertices.len(),
            forall|i: int|
                0 <= i < r@.len() ==> *(#[trigger] r@[i]) == self.model().weights[self.model().vertices[i]],
    {
        let all = self.all_vertices_weighted();
        let mut r: Vec<&Self::VertexWeight> = Vec::new();
        let mut i: usize = 0;
        while i < all.len()
            invariant
                all@.len() == self.model().vertices.len(),
                forall|j: int|
                    0 <= j < all@.len() ==> (#[trigger] all@[j]).0 == self.model().vertices[j]
                        && *all@[j].1 == self.model().weights[self.model().vertices[j]],
                i <= all@.len(),
                r@.len() == i,
                forall|j: int| 0 <= j < i ==> *(#[trigger] r@[j]) == self.model().weights[self.model().vertices[j]],
            decreases all.len() - i,
        {
            r.push(all[i].1);
            i += 1;
        }
        r
    }

    /// Returns the sink and weight of every edge sourced in the given vertex,
    /// grouped by sink in vertex order. If the graph is undirected, this is
    /// every edge incident on it.
    fn edges_sourced_in(&self, v: usize) -> (r: Vec<(usize, &Self::EdgeWeight)>)
        requires
            self.wf(),
        ensures
            deref_pairs(r@) == self.model().sourced(v),
    {
        let vs = self.all_vertices();
        let mut r: Vec<(usize, &Self::EdgeWeight)> = Vec::new();
        let mut k: usize = 0;
        while k < vs.len()
            invariant
                self.wf(),
                vs@ == self.model().vertices,
                k <= vs@.len(),
                deref_pairs(r@) == self.model().sourced_upto(v, k as nat),
            decreases vs.len() - k,
        {
            let w = vs[k];
            let es = self.edges_between(v, w);
            let ghost base = deref_pairs(r@);
            let mut j: usize = 0;
            while j < es.len()
                invariant
                    deref_seq(es@) == self.model().between(v, w),
                    j <= es@.len(),
                    deref_pairs(r@) == base + tag(w, self.model().between(v, w)).take(j as int),
                decreases es.len() - j,
            {
                let ghost prev = r@;
                r.push((w, es[j]));
                proof {
                    let t = tag(w, self.model().between(v, w));
                    assert(t[j as int] == (w, deref_seq(es@)[j as int]));
                    assert(deref_pairs(prev) == base + t.take(j as int));
                    lemma_deref_pairs_push(prev, (w, es@[j as int]));
                    assert(t.take(j + 1) =~= t.take(j as int).push(t[j as int]));
                    assert(deref_pairs(r@) =~= base + t.take(j + 1));
                }
                j += 1;
            }
            k += 1;
            proof {
                assert(tag(w, self.model().between(v, w)).take(j as int) =~= tag(w, self.model().between(v, w)));
                assert(deref_pairs(r@) == self.model().sourced_upto(v, k as nat));
            }
        }
        r
    }

    /// Returns the source and weight of every edge sinked in the given vertex,
    /// grouped by source in vertex order. If the graph is undirected, this is
    /// every edge incident on it.
    fn edges_sinked_in(&self, v: usize) -> (r: Vec<(usize, &Self::EdgeWeight)>)
        requires
            self.wf(),
        ensures
            deref_pairs(r@) == self.model().sinked(v),
    {
        let vs = self.all_vertices();
        let mut r: Vec<(usize, &Self::EdgeWeight)> = Vec::new();
        let mut k: usize = 0;
        while k < vs.len()
            invariant
                self.wf(),
                vs@ == self.model().vertices,
                k <= vs@.len(),
                deref_pairs(r@) == self.model().sinked_upto(v, k as nat),
            decreases vs.len() - k,
        {
            let w = vs[k];
            let es = self.edges_between(w, v);
            let ghost base = deref_pairs(r@);
            let mut j: usize = 0;
            while j < es.len()
                invariant
                    deref_seq(es@) == self.model().between(w, v),
                    j <= es@.len(),
                    deref_pairs(r@) == base + tag(w, self.model().between(w, v)).take(j as int),
                decreases es.len() - j,
            {
                let ghost prev = r@;
                r.push((w, es[j]));
                proof {
                    let t = tag(w, self.model().between(w, v));
                    assert(t[j as int] == (w, deref_seq(es@)[j as int]));
                    assert(deref_pairs(prev) == base + t.take(j as int));
                    lemma_deref_pairs_push(prev, (w, es@[j as int]));
                    assert(t.take(j + 1) =~= t.take(j as int).push(t[j as int]));
                    assert(deref_pairs(r@) =~= base + t.take(j + 1));
                }
                j += 1;
            }
            k += 1;
            proof {
                assert(tag(w, self.model().between(w, v)).take(j as int) =~= tag(w, self.model().between(w, v)));
                assert(deref_pairs(r@) == self.model().sinked_upto(v, k as nat));
            }
        }
        r
    }

    /// Returns the neighbouring vertex and the weight of every edge incident on
    /// the given vertex. If the graph is directed, edge directions are ignored.
    fn edges_incident_on(&self, v: usize) -> (r: Vec<(usize, &Self::EdgeWeight)>)
        requires
            self.wf(),
        ensures
            deref_pairs(r@) == self.model().incident(v),
    {
        let mut r = self.edges_sourced_in(v);
        let sinked = self.edges_sinked_in(v);
        let directed = self.directed();
        let ghost base = deref_pairs(r@);
        let mut i: usize = 0;
        while i < sinked.len()
            invariant
                deref_pairs(sinked@) == self.model().sinked(v),
                directed == self.model().directed,
                i <= sinked@.len(),
                deref_pairs(r@) == base + if directed {
                    without_vertex(deref_pairs(sinked@).take(i as int), v)
                } else {
                    Seq::empty()
                },
            decreases sinked.len() - i,
        {
            let ghost s = deref_pairs(sinked@);
            proof {
                assert(s.take(i + 1).drop_last() =~= s.take(i as int));
                assert(s.take(i + 1).last() == s[i as int]);
            }
            proof {
                assert(s[i as int].0 == sinked@[i as int].0);
            }
            if directed && sinked[i].0 != v {
                let ghost prev = r@;
                r.push(sinked[i]);
                proof {
                    assert(without_vertex(s.take(i + 1), v) == without_vertex(s.take(i as int), v).push(s[i as int]));
                    assert(deref_pairs(prev) == base + without_vertex(s.take(i as int), v));
                    lemma_deref_pairs_push(prev, sinked@[i as int]);
                    assert(deref_pairs(r@) =~= base + without_vertex(s.take(i + 1), v));
                }
            } else if directed {
                proof {
                    assert(without_vertex(s.take(i + 1), v) == without_vertex(s.take(i as int), v));
                }
            }
            i += 1;
        }
        proof {
            assert(deref_pairs(sinked@).take(i as int) =~= deref_pairs(sinked@));
        }
        r
    }

    /// Returns where the edges from `source` to `sink` are stored (in an
    /// undirected graph, also those from `sink` to `source`), in the order of
    /// [`edges_between`](Graph::edges_between): the vertex each is stored from
    /// and its position among the edges stored from it.
    fn edges_between_positions(&self, source: usize, sink: usize) -> (r: Vec<(usize, usize)>)
        requires
            self.wf(),
        ensures
            r@ == self.model().between_positions(source, sink),
            self.model().has_vertex(source) && self.model().has_vertex(sink) ==> self.model().out_edges[source].len()
                <= usize::MAX,
            self.model().has_vertex(source) && self.model().has_vertex(sink) && !self.model().directed && source
                != sink ==> self.model().out_edges[sink].len() <= usize::MAX,
    {
        let mut r: Vec<(usize, usize)> = Vec::new();
        if self.contains_vertex(source) && self.contains_vertex(sink) {
            let out = self.edges_stored_from(source);
            let mut i: usize = 0;
            while i < out.len()
                invariant
                    self.model().has_vertex(source),
                    deref_pairs(out@) == self.model().out_edges[source],
                    i <= out@.len(),
                    r@ == tag(source, positions_to(deref_pairs(out@).take(i as int), sink)),
                decreases out.len() - i,
            {
                let ghost s = deref_pairs(out@);
                proof {
                    assert(s.take(i + 1).drop_last() =~= s.take(i as int));
                    assert(s.take(i + 1).last() == s[i as int]);
                    assert(s[i as int].0 == out@[i as int].0);
                }
                if out[i].0 == sink {
                    r.push((source, i));
                    proof {
                        assert(r@ =~= tag(source, positions_to(s.take(i + 1), sink)));
                    }
                }
                i += 1;
            }
            proof {
                assert(deref_pairs(out@).take(i as int) =~= deref_pairs(out@));
            }
            if !self.directed() && source != sink {
                let back = self.edges_stored_from(sink);
                let ghost first = r@;
                let mut i: usize = 0;
                while i < back.len()
                    invariant
                        self.model().has_vertex(sink),
                        deref_pairs(back@) == self.model().out_edges[sink],
                        i <= back@.len(),
                        r@ == first + tag(sink, positions_to(deref_pairs(back@).take(i as int), source)),
                    decreases back.len() - i,
                {
                    let ghost s = deref_pairs(back@);
                    proof {
                        assert(s.take(i + 1).drop_last() =~= s.take(i as int));
                        assert(s.take(i + 1).last() == s[i as int]);
                        assert(s[i as int].0 == back@[i as int].0);
                    }
                    if back[i].0 == source {
                        r.push((sink, i));
                        proof {
                            assert(r@ =~= first + tag(sink, positions_to(s.take(i + 1), source)));
                        }
                    }
                    i += 1;
                }
                proof {
                    assert(deref_pairs(back@).take(i as int) =~= deref_pairs(back@));
                }
            } else {
                proof {
                    assert(r@ =~= r@ + Seq::<(usize, usize)>::empty());
                }
            }
        } else {
            proof {
                assert(r@ =~= Seq::<(usize, usize)>::empty());
            }
        }
        r
    }

    /// Returns whether the two vertices are connected by an edge in any
    /// direction.
    fn neighbors(&self, v1: usize, v2: usize) -> (r: bool)
        requires
            self.wf(),
        ensures
            r == self.model().neighbors(v1, v2),
    {
        let forward = self.edges_between(v1, v2);
        if forward.len() > 0 {
            proof {
                assert(deref_seq(forward@).len() > 0);
            }
            return true;
        }
        proof {
            assert(deref_seq(forward@).len() == 0);
        }
        if self.directed() {
            let backward = self.edges_between(v2, v1);
            proof {
                assert(deref_seq(backward@).len() == backward@.len());
            }
            backward.len() > 0
        } else {
            false
        }
    }

    /// Returns every vertex connected to the given one with an edge regardless
    /// of direction, in vertex order.
    fn vertex_neighbors(&self, v: usize) -> (r: Vec<usize>)
        requires
            self.wf(),
        ensures
            r@ == self.model().neighbors_upto(v, self.model().vertices.len()),
    {
        let vs = self.all_vertices();
        let mut r: Vec<usize> = Vec::new();
        let mut k: usize = 0;
        while k < vs.len()
            invariant
                self.wf(),
                vs@ == self.model().vertices,
                k <= vs@.len(),
                r@ == self.model().neighbors_upto(v, k as nat),
            decreases vs.len() - k,
        {
            if self.neighbors(v, vs[k]) {
                r.push(vs[k]);
            }
            k += 1;
        }
        r
    }

    /// Returns every edge of the graph once: its source, sink and weight.
    ///
    /// Edges are listed by source in vertex order. In an undirected graph,
    /// each edge is listed from whichever of its two ends comes first.
    fn all_edges(&self) -> (r: Vec<(usize, usize, &Self::EdgeWeight)>)
        requires
            self.wf(),
        ensures
            deref_triples(r@) == self.model().all_edges(),
    {
        let vs = self.all_vertices();
        let directed = self.directed();
        let mut r: Vec<(usize, usize, &Self::EdgeWeight)> = Vec::new();
        // The vertices, in order, whose edges have been listed.
        let mut finished: Vec<usize> = Vec::new();
        let mut k: usize = 0;
        while k < vs.len()
            invariant
                self.wf(),
                vs@ == self.model().vertices,
                directed == self.model().directed,
                k <= vs@.len(),
                deref_triples(r@) == self.model().all_edges_upto(k as nat),
                forall|w: usize| #[trigger] finished@.contains(w) <==> self.model().finished_before(w, k as int),
            decreases vs.len() - k,
        {
            let v = vs[k];
            let es = self.edges_sourced_in(v);
            let ghost base = deref_triples(r@);
            let ghost finished0 = finished@;
            let mut j: usize = 0;
            while j < es.len()
                invariant
                    self.wf(),
                    vs@ == self.model().vertices,
                    directed == self.model().directed,
                    k < vs@.len(),
                    v == vs@[k as int],
                    deref_pairs(es@) == self.model().sourced(v),
                    j <= es@.len(),
                    deref_triples(r@) == base + self.model().kept_from_upto(k as int, j as nat),
                    forall|w: usize| #[trigger] finished0.contains(w) <==> self.model().finished_before(w, k as int),
                    j == 0 ==> finished@ == finished0,
                    j > 0 ==> finished@ == finished0.push(v),
                decreases es.len() - j,
            {
                if j == 0 {
                    finished.push(v);
                }
                let si = es[j].0;
                let ghost e = self.model().sourced(v)[j as int];
                proof {
                    assert(e.0 == si);
                }
                proof {
                    assert(finished@ == finished0.push(v));
                    assert(e.1 == *es@[j as int].1);
                    if finished0.contains(si) {
                        let idx = choose|idx: int| 0 <= idx < finished0.len() && finished0[idx] == si;
                        assert(finished@[idx] == si);
                    }
                    if si != v && finished@.contains(si) {
                        let idx = choose|idx: int| 0 <= idx < finished@.len() && finished@[idx] == si;
                        assert(finished0[idx] == si);
                    }
                }
                if directed || si == v || !vec_contains(&finished, si) {
                    let ghost prev = r@;
                    r.push((v, si, es[j].1));
                    proof {
                        assert(self.model().kept_from_upto(k as int, (j + 1) as nat) == self.model().kept_from_upto(k as int, j as nat).push((v, e.0, e.1)));
                        assert(deref_triples(prev) == base + self.model().kept_from_upto(k as int, j as nat));
                        lemma_deref_triples_push(prev, (v, si, es@[j as int].1));
                        assert(deref_triples(r@) =~= base + self.model().kept_from_upto(k as int, (j + 1) as nat));
                    }
                } else {
                    proof {
                        assert(self.model().kept_from_upto(k as int, (j + 1) as nat) == self.model().kept_from_upto(k as int, j as nat));
                    }
                }
                j += 1;
            }
            proof {
                assert(self.model().kept_from(k as int) == self.model().kept_from_upto(k as int, j as nat));
                assert(deref_triples(r@) == self.model().all_edges_upto((k + 1) as nat));
                assert(es@.len() == self.model().sourced(v).len());
                assert forall|w: usize| #[trigger] finished@.contains(w) <==> self.model().finished_before(w, k + 1) by {
                    if finished@.contains(w) {
                        if finished0.contains(w) {
                            let m = choose|m: int| 0 <= m < k && self.model().vertices[m] == w && self.model().sourced(w).len() > 0;
                            assert(0 <= m < k + 1 && self.model().vertices[m] == w && self.model().sourced(w).len() > 0);
                        } else {
                            assert(j > 0);
                            let idx = choose|idx: int| 0 <= idx < finished@.len() && finished@[idx] == w;
                            if idx < finished0.len() {
                                assert(finished0[idx] == w);
                            }
                            assert(w == v);
                            assert(self.model().vertices[k as int] == w);
                            assert(self.model().sourced(w).len() > 0);
                        }
                    }
                    if self.model().finished_before(w, k + 1) {
                        if self.model().finished_before(w, k as int) {
                            assert(finished0.contains(w));
                            let idx = choose|idx: int| 0 <= idx < finished0.len() && finished0[idx] == w;
                            if j > 0 {
                                assert(finished@[idx] == w);
                            }
                        } else {
                            let m = choose|m: int| 0 <= m < k + 1 && self.model().vertices[m] == w && self.model().sourced(w).len() > 0;
                            assert(m == k);
                            assert(j > 0);
                            assert(finished@[finished0.len() as int] == v);
                        }
                    }
                }
            }
            k += 1;
        }
        r
    }
}

/// Whether the vector contains the value.
pub fn vec_contains(v: &Vec<usize>, x: usize) -> (r: bool)
    ensures
        r == v@.contains(x),
{
    let mut i: usize = 0;
    while i < v.len()
        invariant
            i <= v@.len(),
            forall|j: int| 0 <= j < i ==> v@[j] != x,
        decreases v.len() - i,
    {
        if v[i] == x {
            return true;
        }
        i += 1;
    }
    false
}

} // verus!
