//! Counting the edges that the graph queries list, and the laws saying that
//! each edge is listed as often as it is stored.
use crate::view::{tag, without_vertex, GraphView};
use vstd::prelude::*;

verus! {

/// How many entries of `s` name the vertex `x`.
pub open spec fn count_to<Ew>(s: Seq<(usize, Ew)>, x: usize) -> nat
    decreases s.len(),
{
    if s.len() == 0 {
        0
    } else {
        count_to(s.drop_last(), x) + if s.last().0 == x {
            1nat
        } else {
            0nat
        }
    }
}

/// How many entries of `s` go from `a` to `b`.
pub open spec fn count_from_to<Ew>(s: Seq<(usize, usize, Ew)>, a: usize, b: usize) -> nat
    decreases s.len(),
{
    if s.len() == 0 {
        0
    } else {
        count_from_to(s.drop_last(), a, b) + if s.last().0 == a && s.last().1 == b {
            1nat
        } else {
            0nat
        }
    }
}

/// Counting over two sequences one after the other adds up.
pub proof fn lemma_count_to_concat<Ew>(s: Seq<(usize, Ew)>, t: Seq<(usize, Ew)>, x: usize)
    ensures
        count_to(s + t, x) == count_to(s, x) + count_to(t, x),
    decreases t.len(),
{
    if t.len() == 0 {
        assert(s + t =~= s);
    } else {
        lemma_count_to_concat(s, t.drop_last(), x);
        assert((s + t).drop_last() =~= s + t.drop_last());
    }
}

/// Counting over two sequences one after the other adds up.
pub proof fn lemma_count_from_to_concat<Ew>(s: Seq<(usize, usize, Ew)>, t: Seq<(usize, usize, Ew)>, a: usize, b: usize)
    ensures
        count_from_to(s + t, a, b) == count_from_to(s, a, b) + count_from_to(t, a, b),
    decreases t.len(),
{
    if t.len() == 0 {
        assert(s + t =~= s);
    } else {
        lemma_count_from_to_concat(s, t.drop_last(), a, b);
        assert((s + t).drop_last() =~= s + t.drop_last());
    }
}

/// Entries that all name `w` are counted for `w` and for nothing else.
pub proof fn lemma_count_to_tag<Ew>(w: usize, s: Seq<Ew>, x: usize)
    ensures
        count_to(tag(w, s), x) == if w == x {
            s.len()
        } else {
            0
        },
    decreases s.len(),
{
    if s.len() > 0 {
        lemma_count_to_tag(w, s.drop_last(), x);
        assert(tag(w, s).drop_last() =~= tag(w, s.drop_last()));
    }
}

/// Leaving out the entries naming `v` leaves the counts of the others.
pub proof fn lemma_count_to_without<Ew>(s: Seq<(usize, Ew)>, v: usize, x: usize)
    ensures
        count_to(without_vertex(s, v), x) == if x == v {
            0
        } else {
            count_to(s, x)
        },
    decreases s.len(),
{
    if s.len() > 0 {
        lemma_count_to_without(s.drop_last(), v, x);
        if s.last().0 != v {
            assert(without_vertex(s, v).drop_last() =~= without_vertex(s.drop_last(), v));
        }
    }
}


impl<Vw, Ew> GraphView<Vw, Ew> {
    /// Among the edges sourced in `v` seen from the first `k` vertices, those
    /// leading to `x` are the edges between `v` and `x` when `x` is one of
    /// those vertices.
    proof fn lemma_count_sourced_upto(self, v: usize, k: nat, x: usize)
        requires
            self.wf(),
            k <= self.vertices.len(),
        ensures
            count_to(self.sourced_upto(v, k), x) == if exists|m: int| 0 <= m < k && self.vertices[m] == x {
                self.between(v, x).len()
            } else {
                0
            },
        decreases k,
    {
        if k > 0 {
            let w = self.vertices[k - 1];
            self.lemma_count_sourced_upto(v, (k - 1) as nat, x);
            lemma_count_to_concat(self.sourced_upto(v, (k - 1) as nat), tag(w, self.between(v, w)), x);
            lemma_count_to_tag(w, self.between(v, w), x);
            if w == x {
                assert forall|m: int| 0 <= m < k - 1 implies self.vertices[m] != x by {
                    assert(self.vertices[m] != self.vertices[k - 1]);
                }
            } else if exists|m: int| 0 <= m < k && self.vertices[m] == x {
                let m = choose|m: int| 0 <= m < k && self.vertices[m] == x;
                assert(m < k - 1);
            }
        }
    }

    /// Among the edges sinked in `v` seen from the first `k` vertices, those
    /// coming from `x` are the edges between `x` and `v` when `x` is one of
    /// those vertices.
    proof fn lemma_count_sinked_upto(self, v: usize, k: nat, x: usize)
        requires
            self.wf(),
            k <= self.vertices.len(),
        ensures
            count_to(self.sinked_upto(v, k), x) == if exists|m: int| 0 <= m < k && self.vertices[m] == x {
                self.between(x, v).len()
            } else {
                0
            },
        decreases k,
    {
        if k > 0 {
            let w = self.vertices[k - 1];
            self.lemma_count_sinked_upto(v, (k - 1) as nat, x);
            lemma_count_to_concat(self.sinked_upto(v, (k - 1) as nat), tag(w, self.between(w, v)), x);
            lemma_count_to_tag(w, self.between(w, v), x);
            if w == x {
                assert forall|m: int| 0 <= m < k - 1 implies self.vertices[m] != x by {
                    assert(self.vertices[m] != self.vertices[k - 1]);
                }
            } else if exists|m: int| 0 <= m < k && self.vertices[m] == x {
                let m = choose|m: int| 0 <= m < k && self.vertices[m] == x;
                assert(m < k - 1);
            }
        }
    }

    /// The edges sourced in `v` name each vertex `x` once per edge between
    /// `v` and `x`.
    pub proof fn lemma_count_sourced(self, v: usize, x: usize)
        requires
            self.wf(),
        ensures
            count_to(self.sourced(v), x) == self.between(v, x).len(),
    {
        self.lemma_count_sourced_upto(v, self.vertices.len(), x);
        self.lemma_vertices(x);
        if self.has_vertex(x) {
            let m = choose|m: int| 0 <= m < self.vertices.len() && self.vertices[m] == x;
        }
    }

    /// The edges sinked in `v` name each vertex `x` once per edge between
    /// `x` and `v`.
    pub proof fn lemma_count_sinked(self, v: usize, x: usize)
        requires
            self.wf(),
        ensures
            count_to(self.sinked(v), x) == self.between(x, v).len(),
    {
        self.lemma_count_sinked_upto(v, self.vertices.len(), x);
        self.lemma_vertices(x);
        if self.has_vertex(x) {
            let m = choose|m: int| 0 <= m < self.vertices.len() && self.vertices[m] == x;
        }
    }

    /// [`edges_incident_on`](crate::graph::Graph::edges_incident_on) lists
    /// every edge incident on `v` once: in an undirected graph it names `w`
    /// once per edge joining `v` and `w` (a loop once); in a directed graph,
    /// once per edge from `v` to `w` and, unless `w` is `v`, once per edge
    /// from `w` to `v`.
    pub proof fn lemma_incident_each_once(self, v: usize, w: usize)
        requires
            self.wf(),
        ensures
            count_to(self.incident(v), w) == if self.directed {
                self.between(v, w).len() + if w == v {
                    0
                } else {
                    self.between(w, v).len()
                }
            } else {
                self.between(v, w).len()
            },
    {
        self.lemma_count_sourced(v, w);
        if self.directed {
            self.lemma_count_sinked(v, w);
            lemma_count_to_without(self.sinked(v), v, w);
            lemma_count_to_concat(self.sourced(v), without_vertex(self.sinked(v), v), w);
        } else {
            lemma_count_to_concat(self.sourced(v), Seq::<(usize, Ew)>::empty(), w);
        }
    }
}


impl<Vw, Ew> GraphView<Vw, Ew> {
    /// Among the first `k` vertices, those joined to `v` by an edge, each
    /// once, in vertex order.
    proof fn lemma_neighbors_upto(self, v: usize, k: nat)
        requires
            self.wf(),
            k <= self.vertices.len(),
        ensures
            forall|i: int|
                0 <= i < self.neighbors_upto(v, k).len() ==> exists|m: int|
                    0 <= m < k && self.vertices[m] == #[trigger] self.neighbors_upto(v, k)[i],
            forall|i: int, j: int|
                0 <= i < j < self.neighbors_upto(v, k).len() ==> self.vertices.index_of(
                    #[trigger] self.neighbors_upto(v, k)[i],
                ) < self.vertices.index_of(#[trigger] self.neighbors_upto(v, k)[j]),
            forall|w: usize|
                #[trigger] self.neighbors_upto(v, k).contains(w) <==> exists|m: int|
                    0 <= m < k && self.vertices[m] == w && (self.between(v, w).len() > 0 || self.between(w, v).len()
                        > 0),
        decreases k,
    {
        if k > 0 {
            self.lemma_neighbors_upto(v, (k - 1) as nat);
            let w = self.vertices[k - 1];
            let rest = self.neighbors_upto(v, (k - 1) as nat);
            let r = self.neighbors_upto(v, k);
            assert(self.vertices.index_of(w) == k - 1) by {
                assert(self.vertices.contains(w));
                let j = self.vertices.index_of(w);
                assert(self.vertices[j] == self.vertices[k - 1]);
            }
            assert(self.neighbors(v, w) <==> (self.between(v, w).len() > 0 || self.between(w, v).len() > 0)) by {
                if !self.directed && self.between(w, v).len() > 0 {
                    self.lemma_adjacent_symmetric(w, v);
                }
            }
            assert forall|i: int| 0 <= i < r.len() implies exists|m: int|
                0 <= m < k && self.vertices[m] == #[trigger] r[i] by {
                if i < rest.len() {
                    assert(r[i] == rest[i]);
                    let m = choose|m: int| 0 <= m < k - 1 && self.vertices[m] == rest[i];
                } else {
                    assert(r[i] == w);
                }
            }
            assert forall|i: int, j: int| 0 <= i < j < r.len() implies self.vertices.index_of(#[trigger] r[i])
                < self.vertices.index_of(#[trigger] r[j]) by {
                assert(r[i] == rest[i]);
                let m = choose|m: int| 0 <= m < k - 1 && self.vertices[m] == rest[i];
                assert(self.vertices.index_of(rest[i]) == m) by {
                    assert(self.vertices.contains(rest[i]));
                    let jj = self.vertices.index_of(rest[i]);
                    assert(self.vertices[jj] == self.vertices[m]);
                }
                if j < rest.len() {
                    assert(r[j] == rest[j]);
                } else {
                    assert(r[j] == w);
                }
            }
            assert forall|x: usize| #[trigger] r.contains(x) <==> exists|m: int|
                0 <= m < k && self.vertices[m] == x && (self.between(v, x).len() > 0 || self.between(x, v).len()
                    > 0) by {
                if r.contains(x) {
                    let i = choose|i: int| 0 <= i < r.len() && r[i] == x;
                    if i < rest.len() {
                        assert(rest[i] == x);
                        assert(rest.contains(x));
                        let m = choose|m: int|
                            0 <= m < k - 1 && self.vertices[m] == x && (self.between(v, x).len() > 0
                                || self.between(x, v).len() > 0);
                        assert(0 <= m < k && self.vertices[m] == x);
                    } else {
                        assert(x == w);
                        assert(self.neighbors(v, w));
                        assert(0 <= k - 1 < k && self.vertices[k - 1] == x);
                    }
                }
                if exists|m: int|
                    0 <= m < k && self.vertices[m] == x && (self.between(v, x).len() > 0 || self.between(x, v).len()
                        > 0) {
                    let m = choose|m: int|
                        0 <= m < k && self.vertices[m] == x && (self.between(v, x).len() > 0 || self.between(
                            x,
                            v,
                        ).len() > 0);
                    if m < k - 1 {
                        assert(0 <= m < k - 1 && self.vertices[m] == x);
                        assert(rest.contains(x));
                        let i = choose|i: int| 0 <= i < rest.len() && rest[i] == x;
                        assert(r[i] == x);
                    } else {
                        assert(x == w);
                        assert(r[r.len() - 1] == x);
                    }
                }
            }
        }
    }

    /// [`vertex_neighbors`](crate::graph::Graph::vertex_neighbors) lists each
    /// vertex joined to `v` by an edge, in either direction, exactly once,
    /// and no other, in vertex order.
    pub proof fn lemma_vertex_neighbors_each_once(self, v: usize)
        requires
            self.wf(),
        ensures
            self.neighbors_upto(v, self.vertices.len()).no_duplicates(),
            forall|w: usize|
                #[trigger] self.neighbors_upto(v, self.vertices.len()).contains(w) <==> self.has_vertex(w) && (
                self.between(v, w).len() > 0 || self.between(w, v).len() > 0),
            forall|i: int, j: int|
                0 <= i < j < self.neighbors_upto(v, self.vertices.len()).len() ==> self.vertex_before(
                    #[trigger] self.neighbors_upto(v, self.vertices.len())[i],
                    #[trigger] self.neighbors_upto(v, self.vertices.len())[j],
                ),
    {
        let n = self.vertices.len();
        let r = self.neighbors_upto(v, n);
        self.lemma_neighbors_upto(v, n);
        assert forall|w: usize| #[trigger] r.contains(w) <==> self.has_vertex(w) && (self.between(v, w).len() > 0
            || self.between(w, v).len() > 0) by {
            self.lemma_vertices(w);
            if self.has_vertex(w) && (self.between(v, w).len() > 0 || self.between(w, v).len() > 0) {
                let m = choose|m: int| 0 <= m < n && self.vertices[m] == w;
            }
        }
        assert forall|i: int, j: int| 0 <= i < j < r.len() implies r[i] != r[j] by {
            assert(self.vertices.index_of(r[i]) < self.vertices.index_of(r[j]));
        }
    }
}


impl<Vw, Ew> GraphView<Vw, Ew> {
    /// The edges listed from the `k`th vertex, among its first `n` sourced
    /// edges, that go from `a` to `b`: those sourced edges leading to `b`,
    /// when that vertex is `a` and edges to `b` are kept from it.
    proof fn lemma_count_kept_upto(self, k: int, n: nat, a: usize, b: usize)
        requires
            self.wf(),
            0 <= k < self.vertices.len(),
            n <= self.sourced(self.vertices[k]).len(),
        ensures
            count_from_to(self.kept_from_upto(k, n), a, b) == if self.vertices[k] == a && (self.directed || b == a
                || !self.finished_before(b, k)) {
                count_to(self.sourced(self.vertices[k]).take(n as int), b)
            } else {
                0
            },
        decreases n,
    {
        let v = self.vertices[k];
        if n == 0 {
            assert(self.sourced(v).take(0) =~= Seq::<(usize, Ew)>::empty());
        } else {
            self.lemma_count_kept_upto(k, (n - 1) as nat, a, b);
            let src = self.sourced(v);
            assert(src.take(n as int).drop_last() =~= src.take(n - 1));
            assert(src.take(n as int).last() == src[n - 1]);
            let e = src[n - 1];
            let rest = self.kept_from_upto(k, (n - 1) as nat);
            if self.directed || e.0 == v || !self.finished_before(e.0, k) {
                let x = (v, e.0, e.1);
                assert(self.kept_from_upto(k, n) == rest.push(x));
                assert(rest.push(x).drop_last() =~= rest);
                assert(count_from_to(rest.push(x), a, b) == count_from_to(rest, a, b) + if v == a && e.0 == b {
                    1nat
                } else {
                    0nat
                });
            } else {
                assert(self.kept_from_upto(k, n) == rest);
            }
        }
    }

    /// Every entry listed from the `k`th vertex, among its first `n` sourced
    /// edges, is an edge of the graph with its weight.
    proof fn lemma_kept_upto_edges(self, k: int, n: nat)
        requires
            self.wf(),
            0 <= k < self.vertices.len(),
            n <= self.sourced(self.vertices[k]).len(),
        ensures
            forall|i: int|
                0 <= i < self.kept_from_upto(k, n).len() ==> {
                    let e = #[trigger] self.kept_from_upto(k, n)[i];
                    self.between(e.0, e.1).contains(e.2)
                },
        decreases n,
    {
        if n > 0 {
            self.lemma_kept_upto_edges(k, (n - 1) as nat);
            let v = self.vertices[k];
            let e = self.sourced(v)[n - 1];
            let rest = self.kept_from_upto(k, (n - 1) as nat);
            let r = self.kept_from_upto(k, n);
            assert(self.sourced(v).contains(e));
            self.lemma_sourced_edge(v, e.0, e.1);
            assert forall|i: int| 0 <= i < r.len() implies {
                let f = #[trigger] r[i];
                self.between(f.0, f.1).contains(f.2)
            } by {
                if i < rest.len() {
                    assert(r[i] == rest[i]);
                }
            }
        }
    }

    /// The entries listed from the first `k` vertices that go from `a` to
    /// `b` are those listed from `a`, if `a` is one of them.
    proof fn lemma_count_all_upto(self, k: nat, a: usize, b: usize)
        requires
            self.wf(),
            k <= self.vertices.len(),
        ensures
            count_from_to(self.all_edges_upto(k), a, b) == if exists|m: int| 0 <= m < k && self.vertices[m] == a {
                count_from_to(self.kept_from(self.vertices.index_of(a)), a, b)
            } else {
                0
            },
            forall|i: int|
                0 <= i < self.all_edges_upto(k).len() ==> {
                    let e = #[trigger] self.all_edges_upto(k)[i];
                    self.between(e.0, e.1).contains(e.2)
                },
        decreases k,
    {
        if k > 0 {
            let j = k - 1;
            let v = self.vertices[j];
            self.lemma_count_all_upto((k - 1) as nat, a, b);
            let prev = self.all_edges_upto((k - 1) as nat);
            let kept = self.kept_from(j);
            lemma_count_from_to_concat(prev, kept, a, b);
            self.lemma_count_kept_upto(j, self.sourced(v).len(), a, b);
            self.lemma_kept_upto_edges(j, self.sourced(v).len());
            if v == a {
                assert(self.vertices.index_of(a) == j) by {
                    assert(self.vertices.contains(a));
                    let t = self.vertices.index_of(a);
                    assert(self.vertices[t] == self.vertices[j]);
                }
                assert forall|m: int| 0 <= m < k - 1 implies self.vertices[m] != a by {
                    assert(self.vertices[m] != self.vertices[j]);
                }
            } else if exists|m: int| 0 <= m < k && self.vertices[m] == a {
                let m = choose|m: int| 0 <= m < k && self.vertices[m] == a;
                assert(m < k - 1);
            }
            let r = self.all_edges_upto(k);
            assert forall|i: int| 0 <= i < r.len() implies {
                let e = #[trigger] r[i];
                self.between(e.0, e.1).contains(e.2)
            } by {
                if i < prev.len() {
                    assert(r[i] == prev[i]);
                } else {
                    assert(r[i] == kept[i - prev.len()]);
                }
            }
        }
    }

    /// [`all_edges`](crate::graph::Graph::all_edges) lists every edge once,
    /// with its weight. In a directed graph it lists each edge from `a` to
    /// `b` once, from `a` to `b`. In an undirected graph it lists each edge
    /// joining `a` and `b` once, from whichever of the two comes first among
    /// the vertices (a loop once), and never the other way round.
    pub proof fn lemma_all_edges_each_once(self, a: usize, b: usize)
        requires
            self.wf(),
        ensures
            count_from_to(self.all_edges(), a, b) == if self.directed || a == b || self.vertex_before(a, b) {
                self.between(a, b).len()
            } else {
                0
            },
            forall|i: int|
                0 <= i < self.all_edges().len() ==> {
                    let e = #[trigger] self.all_edges()[i];
                    self.between(e.0, e.1).contains(e.2)
                },
    {
        let n = self.vertices.len();
        self.lemma_count_all_upto(n, a, b);
        self.lemma_vertices(a);
        self.lemma_vertices(b);
        if self.has_vertex(a) {
            let ia = self.vertices.index_of(a);
            assert(self.vertices[ia] == a);
            assert(exists|m: int| 0 <= m < n && self.vertices[m] == a);
            self.lemma_count_kept_upto(ia, self.sourced(a).len(), a, b);
            assert(self.sourced(a).take(self.sourced(a).len() as int) =~= self.sourced(a));
            self.lemma_count_sourced(a, b);
            if !self.directed && a != b && self.has_vertex(b) {
                let ib = self.vertices.index_of(b);
                assert(self.vertices[ib] == b);
                assert(ia != ib);
                if ia < ib {
                    if self.finished_before(b, ia) {
                        let m = choose|m: int| 0 <= m < ia && self.vertices[m] == b && self.sourced(b).len() > 0;
                        assert(self.vertices[m] == self.vertices[ib]);
                    }
                } else if self.between(a, b).len() > 0 {
                    self.lemma_adjacent_symmetric(a, b);
                    self.lemma_sourced(b, a);
                    let i = choose|i: int| 0 <= i < self.sourced(b).len() && self.sourced(b)[i].0 == a;
                    assert(self.finished_before(b, ia));
                }
            }
        }
    }
}

} // verus!
