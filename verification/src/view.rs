//! The mathematical model of a graph that every contract of the library is
//! stated over, with the definitions of adjacency, paths and reachability and
//! the lemmas that relate them.
use vstd::prelude::*;

verus! {

/// The abstract value of a graph.
///
/// `vertices` lists the vertices in the order the graph enumerates them,
/// `weights` gives each vertex its weight and `out_edges` lists, for each
/// vertex, the edges stored as leaving it: pairs of the sink and the edge's
/// weight, in storage order. `directed` tells whether the graph is directed.
#[verifier::ext_equal]
pub struct GraphView<Vw, Ew> {
    pub vertices: Seq<usize>,
    pub weights: Map<usize, Vw>,
    pub out_edges: Map<usize, Seq<(usize, Ew)>>,
    pub directed: bool,
}

/// The weights of the entries of `s` whose sink is `t`, in order.
pub open spec fn weights_to<Ew>(s: Seq<(usize, Ew)>, t: usize) -> Seq<Ew>
    decreases s.len(),
{
    if s.len() == 0 {
        Seq::empty()
    } else if s.last().0 == t {
        weights_to(s.drop_last(), t).push(s.last().1)
    } else {
        weights_to(s.drop_last(), t)
    }
}

/// The positions in `s` of the entries whose sink is `t`, in order.
pub open spec fn positions_to<Ew>(s: Seq<(usize, Ew)>, t: usize) -> Seq<usize>
    decreases s.len(),
{
    if s.len() == 0 {
        Seq::empty()
    } else if s.last().0 == t {
        positions_to(s.drop_last(), t).push((s.len() - 1) as usize)
    } else {
        positions_to(s.drop_last(), t)
    }
}

/// Pairs every element of `s` with the vertex `v`.
pub open spec fn tag<Ew>(v: usize, s: Seq<Ew>) -> Seq<(usize, Ew)> {
    Seq::new(s.len(), |i: int| (v, s[i]))
}

/// The entries of `s` whose vertex is not `v`, in order.
pub open spec fn without_vertex<Ew>(s: Seq<(usize, Ew)>, v: usize) -> Seq<(usize, Ew)>
    decreases s.len(),
{
    if s.len() == 0 {
        Seq::empty()
    } else if s.last().0 != v {
        without_vertex(s.drop_last(), v).push(s.last())
    } else {
        without_vertex(s.drop_last(), v)
    }
}

/// Whether the vertex `v` occurs in the pairs of `s`.
pub open spec fn occurs<Ew>(s: Seq<(usize, Ew)>, v: usize) -> bool {
    exists|i: int| 0 <= i < s.len() && s[i].0 == v
}

/// The pairs of `s` with their references followed.
pub open spec fn deref_pairs<'a, Ew>(s: Seq<(usize, &'a Ew)>) -> Seq<(usize, Ew)> {
    Seq::new(s.len(), |i: int| (s[i].0, *s[i].1))
}

/// The elements of `s` with their references followed.
pub open spec fn deref_seq<'a, Ew>(s: Seq<&'a Ew>) -> Seq<Ew> {
    Seq::new(s.len(), |i: int| *s[i])
}

/// The triples of `s` with their references followed.
pub open spec fn deref_triples<'a, Ew>(s: Seq<(usize, usize, &'a Ew)>) -> Seq<(usize, usize, Ew)> {
    Seq::new(s.len(), |i: int| (s[i].0, s[i].1, *s[i].2))
}

pub proof fn lemma_deref_pairs_push<'a, Ew>(s: Seq<(usize, &'a Ew)>, x: (usize, &'a Ew))
    ensures
        deref_pairs(s.push(x)) == deref_pairs(s).push((x.0, *x.1)),
{
    assert(deref_pairs(s.push(x)) =~= deref_pairs(s).push((x.0, *x.1)));
}

pub proof fn lemma_deref_triples_push<'a, Ew>(s: Seq<(usize, usize, &'a Ew)>, x: (usize, usize, &'a Ew))
    ensures
        deref_triples(s.push(x)) == deref_triples(s).push((x.0, x.1, *x.2)),
{
    assert(deref_triples(s.push(x)) =~= deref_triples(s).push((x.0, x.1, *x.2)));
}

/// Whether `p` is a walk of the relation `adj`: every step goes from one
/// element to the next along `adj`.
pub open spec fn is_walk(adj: spec_fn(usize, usize) -> bool, p: Seq<usize>) -> bool {
    &&& p.len() > 0
    &&& forall|i: int| 0 <= i < p.len() - 1 ==> #[trigger] adj(p[i], p[i + 1])
}

/// Whether `w` can be reached from `u` by following `adj` zero or more times.
pub open spec fn reaches(adj: spec_fn(usize, usize) -> bool, u: usize, w: usize) -> bool {
    exists|p: Seq<usize>| #[trigger] is_walk(adj, p) && p[0] == u && p.last() == w
}

/// The relation `adj` with its direction turned around.
pub open spec fn flip(adj: spec_fn(usize, usize) -> bool) -> spec_fn(usize, usize) -> bool {
    |u: usize, w: usize| adj(w, u)
}

impl<Vw, Ew> GraphView<Vw, Ew> {
    pub open spec fn has_vertex(self, v: usize) -> bool {
        self.weights.dom().contains(v)
    }

    /// The internal consistency every graph's model has.
    pub open spec fn wf(self) -> bool {
        &&& self.vertices.no_duplicates()
        &&& forall|v: usize| #[trigger] self.weights.dom().contains(v) <==> self.vertices.contains(v)
        &&& forall|v: usize| #[trigger] self.out_edges.dom().contains(v) <==> self.vertices.contains(v)
        &&& forall|v: usize, j: int|
            self.has_vertex(v) && 0 <= j < self.out_edges[v].len() ==> self.has_vertex(
                #[trigger] self.out_edges[v][j].0,
            )
    }

    /// The weights of the edges from `source` to `sink`. In an undirected
    /// graph these are followed by the weights of the edges stored from `sink`
    /// to `source`, unless the two are the same vertex.
    pub open spec fn between(self, source: usize, sink: usize) -> Seq<Ew> {
        if self.has_vertex(source) && self.has_vertex(sink) {
            weights_to(self.out_edges[source], sink) + if !self.directed && source != sink {
                weights_to(self.out_edges[sink], source)
            } else {
                Seq::empty()
            }
        } else {
            Seq::empty()
        }
    }

    /// Where the edges of [`between`](GraphView::between) are stored: the
    /// vertex each is stored from and its position among that vertex's edges.
    pub open spec fn between_positions(self, source: usize, sink: usize) -> Seq<(usize, usize)> {
        if self.has_vertex(source) && self.has_vertex(sink) {
            tag(source, positions_to(self.out_edges[source], sink)) + if !self.directed && source
                != sink {
                tag(sink, positions_to(self.out_edges[sink], source))
            } else {
                Seq::empty()
            }
        } else {
            Seq::empty()
        }
    }

    /// Whether `a` comes before `b` among the vertices of the graph.
    pub open spec fn vertex_before(self, a: usize, b: usize) -> bool {
        self.vertices.index_of(a) < self.vertices.index_of(b)
    }

    /// Where the edges between `source` and `sink` are stored, as
    /// [`between_positions`](GraphView::between_positions) gives them but
    /// taking the two vertices in vertex order: in an undirected graph whose
    /// `sink` comes before `source`, the places among the edges stored from
    /// `sink` come first.
    pub open spec fn between_positions_by_vertex(self, source: usize, sink: usize) -> Seq<(usize, usize)> {
        if self.has_vertex(source) && self.has_vertex(sink) && !self.directed && source != sink
            && self.vertex_before(sink, source) {
            tag(sink, positions_to(self.out_edges[sink], source)) + tag(
                source,
                positions_to(self.out_edges[source], sink),
            )
        } else {
            self.between_positions(source, sink)
        }
    }

    /// Whether some edge leads from `u` to `w` (in either direction when the
    /// graph is undirected).
    pub open spec fn adjacent(self, u: usize, w: usize) -> bool {
        self.between(u, w).len() > 0
    }

    /// The adjacency relation of the graph.
    pub open spec fn adj(self) -> spec_fn(usize, usize) -> bool {
        |u: usize, w: usize| self.adjacent(u, w)
    }

    /// Adjacency ignoring the direction of edges.
    pub open spec fn adj_undirected(self) -> spec_fn(usize, usize) -> bool {
        |u: usize, w: usize| self.adjacent(u, w) || self.adjacent(w, u)
    }

    /// Whether there is a path from `u` to `w`.
    pub open spec fn reachable(self, u: usize, w: usize) -> bool {
        reaches(self.adj(), u, w)
    }

    /// The edges sourced in `v` as seen when looking at the first `k` vertices
    /// as sinks: the neighbouring vertex and the edge's weight.
    pub open spec fn sourced_upto(self, v: usize, k: nat) -> Seq<(usize, Ew)>
        decreases k,
    {
        if k == 0 {
            Seq::empty()
        } else {
            let w = self.vertices[k - 1];
            self.sourced_upto(v, (k - 1) as nat) + tag(w, self.between(v, w))
        }
    }

    /// Every edge sourced in `v`: its sink and weight, grouped by sink in
    /// vertex order.
    pub open spec fn sourced(self, v: usize) -> Seq<(usize, Ew)> {
        self.sourced_upto(v, self.vertices.len())
    }

    /// The edges sinked in `v` as seen when looking at the first `k` vertices
    /// as sources.
    pub open spec fn sinked_upto(self, v: usize, k: nat) -> Seq<(usize, Ew)>
        decreases k,
    {
        if k == 0 {
            Seq::empty()
        } else {
            let w = self.vertices[k - 1];
            self.sinked_upto(v, (k - 1) as nat) + tag(w, self.between(w, v))
        }
    }

    /// Every edge sinked in `v`: its source and weight, grouped by source in
    /// vertex order.
    pub open spec fn sinked(self, v: usize) -> Seq<(usize, Ew)> {
        self.sinked_upto(v, self.vertices.len())
    }

    /// Every edge incident on `v`, regardless of direction: the sourced edges,
    /// followed (in a directed graph) by the sinked ones that are not loops.
    pub open spec fn incident(self, v: usize) -> Seq<(usize, Ew)> {
        self.sourced(v) + if self.directed {
            without_vertex(self.sinked(v), v)
        } else {
            Seq::empty()
        }
    }

    /// Whether `v1` and `v2` are joined by an edge in either direction.
    pub open spec fn neighbors(self, v1: usize, v2: usize) -> bool {
        self.between(v1, v2).len() > 0 || (self.directed && self.between(v2, v1).len() > 0)
    }

    /// The vertices among the first `k` that are neighbours of `v`, in order.
    pub open spec fn neighbors_upto(self, v: usize, k: nat) -> Seq<usize>
        decreases k,
    {
        if k == 0 {
            Seq::empty()
        } else {
            let w = self.vertices[k - 1];
            let rest = self.neighbors_upto(v, (k - 1) as nat);
            if self.neighbors(v, w) {
                rest.push(w)
            } else {
                rest
            }
        }
    }

    /// Whether the `k`th vertex has been passed as a source when enumerating
    /// all edges, i.e. comes before position `k` and has a sourced edge.
    pub open spec fn finished_before(self, w: usize, k: int) -> bool {
        exists|m: int| 0 <= m < k && self.vertices[m] == w && self.sourced(w).len() > 0
    }

    /// The edges listed from the `k`th vertex when enumerating all edges. In an
    /// undirected graph, an edge whose other end was enumerated before is left
    /// out, so that every edge is listed once.
    pub open spec fn kept_from(self, k: int) -> Seq<(usize, usize, Ew)> {
        let v = self.vertices[k];
        self.kept_from_upto(k, self.sourced(v).len())
    }

    pub open spec fn kept_from_upto(self, k: int, n: nat) -> Seq<(usize, usize, Ew)>
        decreases n,
    {
        if n == 0 {
            Seq::empty()
        } else {
            let v = self.vertices[k];
            let e = self.sourced(v)[n - 1];
            let rest = self.kept_from_upto(k, (n - 1) as nat);
            if self.directed || e.0 == v || !self.finished_before(e.0, k) {
                rest.push((v, e.0, e.1))
            } else {
                rest
            }
        }
    }

    /// All edges as listed from the first `k` vertices.
    pub open spec fn all_edges_upto(self, k: nat) -> Seq<(usize, usize, Ew)>
        decreases k,
    {
        if k == 0 {
            Seq::empty()
        } else {
            self.all_edges_upto((k - 1) as nat) + self.kept_from(k - 1)
        }
    }

    /// Every edge of the graph once: source, sink and weight.
    pub open spec fn all_edges(self) -> Seq<(usize, usize, Ew)> {
        self.all_edges_upto(self.vertices.len())
    }

    /// The number of stored edges.
    pub open spec fn edge_count_upto(self, k: nat) -> nat
        decreases k,
    {
        if k == 0 {
            0
        } else {
            self.edge_count_upto((k - 1) as nat) + self.out_edges[self.vertices[k - 1]].len()
        }
    }

    pub open spec fn edge_count(self) -> nat {
        self.edge_count_upto(self.vertices.len())
    }
}

/// The new identifier of vertex `x` once vertex `v` is removed and the ones
/// after it move down by one.
pub open spec fn shift(x: usize, v: usize) -> usize {
    if x > v {
        (x - 1) as usize
    } else {
        x
    }
}

/// The old identifier of the vertex that is `x` once vertex `v` is removed.
pub open spec fn unshift(x: usize, v: usize) -> usize {
    if x >= v {
        (x + 1) as usize
    } else {
        x
    }
}

/// The entries of `s` that do not lead to `v`, with their sinks renumbered
/// for the removal of `v`.
pub open spec fn drop_shift<Ew>(s: Seq<(usize, Ew)>, v: usize) -> Seq<(usize, Ew)>
    decreases s.len(),
{
    if s.len() == 0 {
        Seq::empty()
    } else if s.last().0 != v {
        drop_shift(s.drop_last(), v).push((shift(s.last().0, v), s.last().1))
    } else {
        drop_shift(s.drop_last(), v)
    }
}

/// The elements of `s` other than `v`, renumbered for the removal of `v`.
pub open spec fn remove_shift(s: Seq<usize>, v: usize) -> Seq<usize>
    decreases s.len(),
{
    if s.len() == 0 {
        Seq::empty()
    } else if s.last() != v {
        remove_shift(s.drop_last(), v).push(shift(s.last(), v))
    } else {
        remove_shift(s.drop_last(), v)
    }
}

/// The identifiers `0..n`, in order.
pub open spec fn range(n: nat) -> Seq<usize> {
    Seq::new(n, |i: int| i as usize)
}

impl<Vw, Ew> GraphView<Vw, Ew> {
    /// The graph with an edge from `source` to `sink` added after the edges
    /// already stored from `source`.
    pub open spec fn with_edge(self, source: usize, sink: usize, weight: Ew) -> GraphView<Vw, Ew> {
        GraphView {
            out_edges: self.out_edges.insert(source, self.out_edges[source].push((sink, weight))),
            ..self
        }
    }

    /// The graph with the `idx`th edge stored from `source` removed.
    pub open spec fn without_edge(self, source: usize, idx: int) -> GraphView<Vw, Ew> {
        GraphView {
            out_edges: self.out_edges.insert(source, self.out_edges[source].remove(idx)),
            ..self
        }
    }

    /// The graph with vertex `v` and every edge incident on it removed, and
    /// the vertices after `v` renumbered down by one.
    pub open spec fn without_vertex(self, v: usize) -> GraphView<Vw, Ew> {
        GraphView {
            vertices: remove_shift(self.vertices, v),
            weights: Map::new(
                |x: usize| (x < v || x < usize::MAX) && self.has_vertex(unshift(x, v)),
                |x: usize| self.weights[unshift(x, v)],
            ),
            out_edges: Map::new(
                |x: usize| (x < v || x < usize::MAX) && self.has_vertex(unshift(x, v)),
                |x: usize| drop_shift(self.out_edges[unshift(x, v)], v),
            ),
            directed: self.directed,
        }
    }
}

impl<Vw, Ew> GraphView<Vw, Ew> {
    /// Whether `new` is this graph with vertex `v` of weight `w` added last,
    /// without edges.
    pub open spec fn adds_vertex(self, new: GraphView<Vw, Ew>, v: usize, w: Vw) -> bool {
        &&& !self.has_vertex(v)
        &&& new.vertices == self.vertices.push(v)
        &&& new.weights == self.weights.insert(v, w)
        &&& new.out_edges == self.out_edges.insert(v, new.out_edges[v])
        &&& new.directed == self.directed
        &&& new.out_edges[v].len() == 0
    }

    /// Whether the `j`th edge stored from the `m`th vertex comes before the
    /// `j2`th edge stored from the `m2`th vertex, in vertex then storage order.
    pub open spec fn edge_before(self, m: int, j: int, m2: int, j2: int) -> bool {
        &&& 0 <= m < self.vertices.len()
        &&& 0 <= j < self.out_edges[self.vertices[m]].len()
        &&& (m < m2 || (m == m2 && j < j2))
    }
}

pub proof fn lemma_remove_shift_range(n: nat, v: usize)
    requires
        n <= usize::MAX,
    ensures
        remove_shift(range(n), v) == if v < n {
            range((n - 1) as nat)
        } else {
            range(n)
        },
    decreases n,
{
    if n > 0 {
        let k = (n - 1) as nat;
        lemma_remove_shift_range(k, v);
        assert(range(n).drop_last() =~= range(k));
        assert(range(n).last() == k as usize);
        if k == v {
            assert(remove_shift(range(n), v) == remove_shift(range(k), v));
        } else if k > v {
            assert(remove_shift(range(n), v) == remove_shift(range(k), v).push(shift(k as usize, v)));
            assert(range((k - 1) as nat).push((k - 1) as usize) =~= range(k));
        } else {
            assert(range(k).push(k as usize) =~= range(n));
        }
    } else {
        assert(remove_shift(range(n), v) =~= range(n));
    }
}

// ---------------------------------------------------------------------------
// Lemmas on the sequence helpers.
pub proof fn lemma_weights_to_len<Ew>(s: Seq<(usize, Ew)>, t: usize)
    ensures
        weights_to(s, t).len() > 0 <==> occurs(s, t),
        weights_to(s, t).len() <= s.len(),
    decreases s.len(),
{
    if s.len() > 0 {
        lemma_weights_to_len(s.drop_last(), t);
        if occurs(s.drop_last(), t) {
            let i = choose|i: int| 0 <= i < s.drop_last().len() && s.drop_last()[i].0 == t;
            assert(s[i].0 == t);
        }
        if occurs(s, t) && s.last().0 != t {
            let i = choose|i: int| 0 <= i < s.len() && s[i].0 == t;
            assert(s.drop_last()[i].0 == t);
        }
    }
}

pub proof fn lemma_without_vertex<Ew>(s: Seq<(usize, Ew)>, v: usize, w: usize)
    ensures
        occurs(without_vertex(s, v), w) <==> (w != v && occurs(s, w)),
        forall|i: int|
            0 <= i < without_vertex(s, v).len() ==> #[trigger] without_vertex(s, v)[i].0 != v,
    decreases s.len(),
{
    if s.len() > 0 {
        lemma_without_vertex(s.drop_last(), v, w);
        let r = without_vertex(s, v);
        let r0 = without_vertex(s.drop_last(), v);
        if occurs(r, w) {
            let i = choose|i: int| 0 <= i < r.len() && r[i].0 == w;
            if i < r0.len() {
                assert(r0[i].0 == w);
                let j = choose|j: int| 0 <= j < s.drop_last().len() && s.drop_last()[j].0 == w;
                assert(s[j].0 == w);
            } else {
                assert(s.last().0 == w);
                assert(s[s.len() - 1].0 == w);
            }
        }
        if w != v && occurs(s, w) {
            let j = choose|j: int| 0 <= j < s.len() && s[j].0 == w;
            if j < s.len() - 1 {
                assert(s.drop_last()[j].0 == w);
                let i = choose|i: int| 0 <= i < r0.len() && r0[i].0 == w;
                assert(r[i].0 == w);
            } else {
                assert(r[r.len() - 1].0 == w);
            }
        }
        assert forall|i: int| 0 <= i < r.len() implies #[trigger] r[i].0 != v by {
            if i < r0.len() {
                assert(r[i] == r0[i]);
            }
        }
    }
}

/// A sequence without duplicates drawn from another such sequence is no
/// longer than it.
pub proof fn lemma_nodup_subseq_len(a: Seq<usize>, b: Seq<usize>)
    requires
        a.no_duplicates(),
        b.no_duplicates(),
        forall|i: int| 0 <= i < a.len() ==> b.contains(#[trigger] a[i]),
    ensures
        a.len() <= b.len(),
{
    a.unique_seq_to_set();
    b.unique_seq_to_set();
    vstd::seq_lib::seq_to_set_is_finite(b);
    assert forall|x: usize| a.to_set().contains(x) implies b.to_set().contains(x) by {
        let i = choose|i: int| 0 <= i < a.len() && a[i] == x;
    }
    vstd::set_lib::lemma_len_subset(a.to_set(), b.to_set());
}

/// A sequence without duplicates drawn from another such sequence of the
/// same length holds all of its elements.
pub proof fn lemma_nodup_subseq_full(a: Seq<usize>, b: Seq<usize>)
    requires
        a.no_duplicates(),
        b.no_duplicates(),
        forall|i: int| 0 <= i < a.len() ==> b.contains(#[trigger] a[i]),
        a.len() == b.len(),
    ensures
        forall|x: usize| b.contains(x) ==> #[trigger] a.contains(x),
{
    a.unique_seq_to_set();
    b.unique_seq_to_set();
    vstd::seq_lib::seq_to_set_is_finite(a);
    vstd::seq_lib::seq_to_set_is_finite(b);
    assert forall|x: usize| a.to_set().contains(x) implies b.to_set().contains(x) by {
        let i = choose|i: int| 0 <= i < a.len() && a[i] == x;
    }
    vstd::set_lib::lemma_subset_equality(a.to_set(), b.to_set());
    assert forall|x: usize| b.contains(x) implies #[trigger] a.contains(x) by {
        assert(b.to_set().contains(x));
        assert(a.to_set().contains(x));
    }
}

// ---------------------------------------------------------------------------
// Lemmas on walks and reachability.
pub proof fn lemma_reaches_refl(adj: spec_fn(usize, usize) -> bool, u: usize)
    ensures
        reaches(adj, u, u),
{
    let p = seq![u];
    assert(is_walk(adj, p));
}

pub proof fn lemma_reaches_step(adj: spec_fn(usize, usize) -> bool, u: usize, x: usize, y: usize)
    requires
        reaches(adj, u, x),
        adj(x, y),
    ensures
        reaches(adj, u, y),
{
    let p = choose|p: Seq<usize>| #[trigger] is_walk(adj, p) && p[0] == u && p.last() == x;
    let q = p.push(y);
    assert forall|i: int| 0 <= i < q.len() - 1 implies #[trigger] adj(q[i], q[i + 1]) by {
        if i < p.len() - 1 {
            assert(q[i] == p[i] && q[i + 1] == p[i + 1]);
        } else {
            assert(q[i] == x);
        }
    }
    assert(is_walk(adj, q));
}

pub proof fn lemma_reaches_trans(adj: spec_fn(usize, usize) -> bool, u: usize, x: usize, w: usize)
    requires
        reaches(adj, u, x),
        reaches(adj, x, w),
    ensures
        reaches(adj, u, w),
{
    let p = choose|p: Seq<usize>| #[trigger] is_walk(adj, p) && p[0] == u && p.last() == x;
    let q = choose|q: Seq<usize>| #[trigger] is_walk(adj, q) && q[0] == x && q.last() == w;
    let r = p + q.drop_first();
    assert forall|i: int| 0 <= i < r.len() - 1 implies #[trigger] adj(r[i], r[i + 1]) by {
        if i < p.len() - 1 {
            assert(r[i] == p[i] && r[i + 1] == p[i + 1]);
        } else if i == p.len() - 1 {
            assert(r[i] == x && q[0] == x);
            assert(r[i + 1] == q[1]);
            assert(adj(q[0], q[1]));
        } else {
            let k = i - p.len() + 1;
            assert(r[i] == q[k] && r[i + 1] == q[k + 1]);
        }
    }
    if q.len() == 1 {
        assert(r =~= p);
    } else {
        assert(r.last() == q.last());
    }
    assert(is_walk(adj, r));
}

/// A set that contains `u` and is closed under `adj` contains everything
/// reachable from `u`.
pub proof fn lemma_reaches_closed(
    adj: spec_fn(usize, usize) -> bool,
    s: Set<usize>,
    u: usize,
    w: usize,
)
    requires
        s.contains(u),
        forall|x: usize, y: usize| s.contains(x) && #[trigger] adj(x, y) ==> s.contains(y),
        reaches(adj, u, w),
    ensures
        s.contains(w),
{
    let p = choose|p: Seq<usize>| #[trigger] is_walk(adj, p) && p[0] == u && p.last() == w;
    lemma_walk_closed(adj, s, p, p.len() - 1);
}

proof fn lemma_walk_closed(adj: spec_fn(usize, usize) -> bool, s: Set<usize>, p: Seq<usize>, k: int)
    requires
        is_walk(adj, p),
        s.contains(p[0]),
        0 <= k < p.len(),
        forall|x: usize, y: usize| s.contains(x) && #[trigger] adj(x, y) ==> s.contains(y),
    ensures
        s.contains(p[k]),
    decreases k,
{
    if k > 0 {
        lemma_walk_closed(adj, s, p, k - 1);
        assert(adj(p[k - 1], p[k - 1 + 1]));
    }
}

/// Reaching along the flipped relation is reaching backwards.
pub proof fn lemma_reaches_flip(adj: spec_fn(usize, usize) -> bool, u: usize, w: usize)
    requires
        reaches(flip(adj), u, w),
    ensures
        reaches(adj, w, u),
{
    let p = choose|p: Seq<usize>| #[trigger] is_walk(flip(adj), p) && p[0] == u && p.last() == w;
    let q = p.reverse();
    assert forall|i: int| 0 <= i < q.len() - 1 implies #[trigger] adj(q[i], q[i + 1]) by {
        let j = p.len() - 2 - i;
        assert(flip(adj)(p[j], p[j + 1]));
        assert(q[i] == p[j + 1] && q[i + 1] == p[j]);
    }
    assert(is_walk(adj, q));
    assert(q[0] == w && q.last() == u);
}

/// Reaching along a relation implies reaching along any larger one.
pub proof fn lemma_reaches_mono(
    a: spec_fn(usize, usize) -> bool,
    b: spec_fn(usize, usize) -> bool,
    u: usize,
    w: usize,
)
    requires
        reaches(a, u, w),
        forall|x: usize, y: usize| #[trigger] a(x, y) ==> b(x, y),
    ensures
        reaches(b, u, w),
{
    let p = choose|p: Seq<usize>| #[trigger] is_walk(a, p) && p[0] == u && p.last() == w;
    assert forall|i: int| 0 <= i < p.len() - 1 implies #[trigger] b(p[i], p[i + 1]) by {
        assert(a(p[i], p[i + 1]));
    }
    assert(is_walk(b, p));
}

proof fn lemma_walk_leaves(adj: spec_fn(usize, usize) -> bool, s: Set<usize>, p: Seq<usize>, k: int) -> (r: (usize, usize))
    requires
        is_walk(adj, p),
        0 <= k < p.len(),
        s.contains(p[k]),
        !s.contains(p.last()),
        reaches(adj, p[0], p[k]),
    ensures
        s.contains(r.0),
        !s.contains(r.1),
        adj(r.0, r.1),
        reaches(adj, p[0], r.0),
    decreases p.len() - k,
{
    if k == p.len() - 1 {
        assert(false);
        (p[k], p[k])
    } else {
        assert(adj(p[k], p[k + 1]));
        if s.contains(p[k + 1]) {
            lemma_reaches_step(adj, p[0], p[k], p[k + 1]);
            lemma_walk_leaves(adj, s, p, k + 1)
        } else {
            (p[k], p[k + 1])
        }
    }
}

// ---------------------------------------------------------------------------
// Lemmas on the graph model.
impl<Vw, Ew> GraphView<Vw, Ew> {
    pub proof fn lemma_vertices(self, v: usize)
        requires
            self.wf(),
        ensures
            self.has_vertex(v) <==> self.vertices.contains(v),
            self.out_edges.dom().contains(v) <==> self.vertices.contains(v),
    {
        assert(self.weights.dom().contains(v) <==> self.vertices.contains(v));
        assert(self.out_edges.dom().contains(v) <==> self.vertices.contains(v));
    }

    /// Adjacency means an edge stored in one of the two directions.
    pub proof fn lemma_adjacent(self, u: usize, w: usize)
        requires
            self.wf(),
        ensures
            self.adjacent(u, w) <==> (self.has_vertex(u) && self.has_vertex(w) && (occurs(
                self.out_edges[u],
                w,
            ) || (!self.directed && occurs(self.out_edges[w], u)))),
    {
        if self.has_vertex(u) && self.has_vertex(w) {
            lemma_weights_to_len(self.out_edges[u], w);
            lemma_weights_to_len(self.out_edges[w], u);
            if !self.directed && u == w {
                assert(occurs(self.out_edges[w], u) ==> occurs(self.out_edges[u], w));
            }
        }
    }

    /// In an undirected graph adjacency is symmetric.
    pub proof fn lemma_adjacent_symmetric(self, u: usize, w: usize)
        requires
            self.wf(),
            !self.directed,
            self.adjacent(u, w),
        ensures
            self.adjacent(w, u),
    {
        self.lemma_adjacent(u, w);
        self.lemma_adjacent(w, u);
    }

    pub proof fn lemma_sourced_upto(self, v: usize, k: nat, w: usize)
        requires
            self.wf(),
            k <= self.vertices.len(),
        ensures
            occurs(self.sourced_upto(v, k), w) <==> (exists|m: int|
                0 <= m < k && self.vertices[m] == w && self.adjacent(v, w)),
            forall|i: int|
                0 <= i < self.sourced_upto(v, k).len() ==> self.adjacent(
                    v,
                    #[trigger] self.sourced_upto(v, k)[i].0,
                ),
        decreases k,
    {
        if k > 0 {
            let k1 = (k - 1) as nat;
            self.lemma_sourced_upto(v, k1, w);
            let x = self.vertices[k - 1];
            let s0 = self.sourced_upto(v, k1);
            let t = tag(x, self.between(v, x));
            let s = self.sourced_upto(v, k);
            assert(s == s0 + t);
            if occurs(s, w) {
                let i = choose|i: int| 0 <= i < s.len() && s[i].0 == w;
                if i < s0.len() {
                    assert(s0[i].0 == w);
                } else {
                    assert(t[i - s0.len()].0 == x);
                    assert(self.vertices[k - 1] == w);
                }
            }
            if exists|m: int| 0 <= m < k && self.vertices[m] == w && self.adjacent(v, w) {
                let m = choose|m: int| 0 <= m < k && self.vertices[m] == w && self.adjacent(v, w);
                if m < k - 1 {
                    let i = choose|i: int| 0 <= i < s0.len() && s0[i].0 == w;
                    assert(s[i].0 == w);
                } else {
                    assert(s[s0.len() as int].0 == w);
                }
            }
            assert forall|i: int| 0 <= i < s.len() implies self.adjacent(v, #[trigger] s[i].0) by {
                if i < s0.len() {
                    assert(s[i] == s0[i]);
                } else {
                    assert(s[i].0 == x);
                }
            }
        }
    }

    /// The edges sourced in `v` seen from the first `k` vertices hold an edge
    /// to `w` of weight `y` exactly when `w` is one of those vertices and
    /// such an edge lies between them.
    pub proof fn lemma_sourced_upto_edge(self, v: usize, k: nat, w: usize, y: Ew)
        requires
            self.wf(),
            k <= self.vertices.len(),
        ensures
            self.sourced_upto(v, k).contains((w, y)) <==> (exists|m: int|
                0 <= m < k && self.vertices[m] == w && self.between(v, w).contains(y)),
        decreases k,
    {
        if k > 0 {
            let k1 = (k - 1) as nat;
            self.lemma_sourced_upto_edge(v, k1, w, y);
            let x = self.vertices[k - 1];
            let s0 = self.sourced_upto(v, k1);
            let t = tag(x, self.between(v, x));
            let s = self.sourced_upto(v, k);
            assert(s == s0 + t);
            if s.contains((w, y)) {
                let i = choose|i: int| 0 <= i < s.len() && s[i] == (w, y);
                if i < s0.len() {
                    assert(s0[i] == (w, y));
                } else {
                    assert(t[i - s0.len()] == (w, y));
                    assert(self.between(v, x)[i - s0.len()] == y);
                    assert(self.vertices[k - 1] == w);
                }
            }
            if exists|m: int| 0 <= m < k && self.vertices[m] == w && self.between(v, w).contains(y) {
                let m = choose|m: int| 0 <= m < k && self.vertices[m] == w && self.between(v, w).contains(y);
                if m < k - 1 {
                    let i = choose|i: int| 0 <= i < s0.len() && s0[i] == (w, y);
                    assert(s[i] == (w, y));
                } else {
                    let j = choose|j: int| 0 <= j < self.between(v, w).len() && self.between(v, w)[j] == y;
                    assert(s[s0.len() + j] == (w, y));
                }
            }
        }
    }

    /// The edges sourced in `v` hold an edge to `w` of weight `y` exactly
    /// when such an edge lies between them.
    pub proof fn lemma_sourced_edge(self, v: usize, w: usize, y: Ew)
        requires
            self.wf(),
        ensures
            self.sourced(v).contains((w, y)) <==> self.between(v, w).contains(y),
    {
        self.lemma_sourced_upto_edge(v, self.vertices.len(), w, y);
        self.lemma_vertices(w);
        if self.between(v, w).contains(y) {
            assert(self.has_vertex(w));
            let m = choose|m: int| 0 <= m < self.vertices.len() && self.vertices[m] == w;
        }
    }

    /// `w` appears among the edges sourced in `v` exactly when it is a vertex
    /// adjacent to `v`.
    pub proof fn lemma_sourced(self, v: usize, w: usize)
        requires
            self.wf(),
        ensures
            occurs(self.sourced(v), w) <==> self.adjacent(v, w),
            forall|i: int|
                0 <= i < self.sourced(v).len() ==> self.adjacent(v, #[trigger] self.sourced(v)[i].0),
    {
        self.lemma_sourced_upto(v, self.vertices.len(), w);
        if self.adjacent(v, w) {
            assert(self.has_vertex(w));
            self.lemma_vertices(w);
            let m = choose|m: int| 0 <= m < self.vertices.len() && self.vertices[m] == w;
        }
    }

    pub proof fn lemma_sinked_upto(self, v: usize, k: nat, w: usize)
        requires
            self.wf(),
            k <= self.vertices.len(),
        ensures
            occurs(self.sinked_upto(v, k), w) <==> (exists|m: int|
                0 <= m < k && self.vertices[m] == w && self.adjacent(w, v)),
            forall|i: int|
                0 <= i < self.sinked_upto(v, k).len() ==> self.adjacent(
                    #[trigger] self.sinked_upto(v, k)[i].0,
                    v,
                ),
        decreases k,
    {
        if k > 0 {
            let k1 = (k - 1) as nat;
            self.lemma_sinked_upto(v, k1, w);
            let x = self.vertices[k - 1];
            let s0 = self.sinked_upto(v, k1);
            let t = tag(x, self.between(x, v));
            let s = self.sinked_upto(v, k);
            assert(s == s0 + t);
            if occurs(s, w) {
                let i = choose|i: int| 0 <= i < s.len() && s[i].0 == w;
                if i < s0.len() {
                    assert(s0[i].0 == w);
                } else {
                    assert(t[i - s0.len()].0 == x);
                }
            }
            if exists|m: int| 0 <= m < k && self.vertices[m] == w && self.adjacent(w, v) {
                let m = choose|m: int| 0 <= m < k && self.vertices[m] == w && self.adjacent(w, v);
                if m < k - 1 {
                    let i = choose|i: int| 0 <= i < s0.len() && s0[i].0 == w;
                    assert(s[i].0 == w);
                } else {
                    assert(s[s0.len() as int].0 == w);
                }
            }
            assert forall|i: int| 0 <= i < s.len() implies self.adjacent(#[trigger] s[i].0, v) by {
                if i < s0.len() {
                    assert(s[i] == s0[i]);
                } else {
                    assert(s[i].0 == x);
                }
            }
        }
    }

    /// `w` appears among the edges sinked in `v` exactly when it is a vertex
    /// from which `v` is adjacent.
    pub proof fn lemma_sinked(self, v: usize, w: usize)
        requires
            self.wf(),
        ensures
            occurs(self.sinked(v), w) <==> self.adjacent(w, v),
            forall|i: int|
                0 <= i < self.sinked(v).len() ==> self.adjacent(#[trigger] self.sinked(v)[i].0, v),
    {
        self.lemma_sinked_upto(v, self.vertices.len(), w);
        if self.adjacent(w, v) {
            assert(self.has_vertex(w));
            self.lemma_vertices(w);
            let m = choose|m: int| 0 <= m < self.vertices.len() && self.vertices[m] == w;
        }
    }

    /// `w` appears among the edges incident on `v` exactly when the two are
    /// adjacent in either direction.
    pub proof fn lemma_incident(self, v: usize, w: usize)
        requires
            self.wf(),
        ensures
            occurs(self.incident(v), w) <==> (self.adjacent(v, w) || self.adjacent(w, v)),
    {
        self.lemma_sourced(v, w);
        self.lemma_sinked(v, w);
        lemma_without_vertex(self.sinked(v), v, w);
        let a = self.sourced(v);
        let b = if self.directed {
            without_vertex(self.sinked(v), v)
        } else {
            Seq::empty()
        };
        let s = self.incident(v);
        assert(s == a + b);
        if occurs(s, w) {
            let i = choose|i: int| 0 <= i < s.len() && s[i].0 == w;
            if i < a.len() {
                assert(a[i].0 == w);
            } else {
                assert(b[i - a.len()].0 == w);
            }
        }
        if self.adjacent(v, w) {
            let i = choose|i: int| 0 <= i < a.len() && a[i].0 == w;
            assert(s[i].0 == w);
        } else if self.adjacent(w, v) {
            if self.directed {
                if w == v {
                    assert(self.adjacent(v, w));
                }
                let i = choose|i: int| 0 <= i < b.len() && b[i].0 == w;
                assert(s[a.len() + i].0 == w);
            } else {
                self.lemma_adjacent_symmetric(w, v);
            }
        }
    }
}

} // verus!

verus! {

// ---------------------------------------------------------------------------
// How the edges between two vertices change when the graph changes.
pub proof fn lemma_weights_to_push<Ew>(s: Seq<(usize, Ew)>, e: (usize, Ew), t: usize)
    ensures
        weights_to(s.push(e), t) == if e.0 == t {
            weights_to(s, t).push(e.1)
        } else {
            weights_to(s, t)
        },
{
    assert(s.push(e).drop_last() =~= s);
}

pub proof fn lemma_weights_to_remove<Ew>(s: Seq<(usize, Ew)>, idx: int, t: usize)
    requires
        0 <= idx < s.len(),
    ensures
        weights_to(s.remove(idx), t).len() == weights_to(s, t).len() - if s[idx].0 == t {
            1int
        } else {
            0int
        },
    decreases s.len(),
{
    if idx == s.len() - 1 {
        assert(s.remove(idx) =~= s.drop_last());
    } else {
        lemma_weights_to_remove(s.drop_last(), idx, t);
        assert(s.remove(idx) =~= s.drop_last().remove(idx).push(s.last()));
        lemma_weights_to_push(s.drop_last().remove(idx), s.last(), t);
        assert(s.drop_last()[idx] == s[idx]);
    }
}

pub proof fn lemma_weights_to_drop_shift<Ew>(s: Seq<(usize, Ew)>, v: usize, y: usize)
    requires
        y < v || y < usize::MAX,
    ensures
        weights_to(drop_shift(s, v), y) == weights_to(s, unshift(y, v)),
    decreases s.len(),
{
    if s.len() > 0 {
        lemma_weights_to_drop_shift(s.drop_last(), v, y);
        let e = s.last();
        if e.0 != v {
            lemma_weights_to_push(drop_shift(s.drop_last(), v), (shift(e.0, v), e.1), y);
            assert((shift(e.0, v) == y) == (e.0 == unshift(y, v)));
        }
    }
}

impl<Vw, Ew> GraphView<Vw, Ew> {
    /// Adding an edge adds one to the count of edges between its two ends.
    pub proof fn lemma_between_with_edge(self, source: usize, sink: usize, weight: Ew, u: usize, w: usize)
        requires
            self.wf(),
            self.has_vertex(source),
            self.has_vertex(sink),
        ensures
            self.with_edge(source, sink, weight).between(u, w).len() == self.between(u, w).len() + if (
            u == source && w == sink) || (!self.directed && u == sink && w == source && source
                != sink) {
                1int
            } else {
                0int
            },
    {
        let n = self.with_edge(source, sink, weight);
        assert(n.has_vertex(u) == self.has_vertex(u));
        assert(n.has_vertex(w) == self.has_vertex(w));
        lemma_weights_to_push(self.out_edges[source], (sink, weight), w);
        lemma_weights_to_push(self.out_edges[source], (sink, weight), u);
    }

    /// Removing an edge takes one from the count of edges between its two
    /// ends.
    pub proof fn lemma_between_without_edge(self, source: usize, idx: int, u: usize, w: usize)
        requires
            self.wf(),
            self.has_vertex(source),
            0 <= idx < self.out_edges[source].len(),
        ensures
            ({
                let t = self.out_edges[source][idx].0;
                self.without_edge(source, idx).between(u, w).len() == self.between(u, w).len()
                    - if (u == source && w == t) || (!self.directed && u == t && w == source
                    && source != t) {
                    1int
                } else {
                    0int
                }
            }),
    {
        let n = self.without_edge(source, idx);
        assert(n.has_vertex(u) == self.has_vertex(u));
        assert(n.has_vertex(w) == self.has_vertex(w));
        let t = self.out_edges[source][idx].0;
        assert(self.has_vertex(t));
        lemma_weights_to_remove(self.out_edges[source], idx, w);
        lemma_weights_to_remove(self.out_edges[source], idx, u);
    }

    /// Adding a vertex without edges changes nothing between the old vertices
    /// and puts no edge next to the new one.
    pub proof fn lemma_between_adds_vertex(self, n: GraphView<Vw, Ew>, v: usize, wt: Vw, u: usize, w: usize)
        requires
            self.wf(),
            self.adds_vertex(n, v, wt),
        ensures
            self.has_vertex(u) && self.has_vertex(w) ==> n.between(u, w) == self.between(u, w),
            u == v || w == v ==> n.between(u, w).len() == 0,
    {
        assert(n.has_vertex(u) == (self.has_vertex(u) || u == v));
        assert(n.has_vertex(w) == (self.has_vertex(w) || w == v));
        if self.has_vertex(u) && self.has_vertex(w) {
            assert(n.out_edges[u] == self.out_edges[u]);
            assert(n.out_edges[w] == self.out_edges[w]);
        }
        if u == v && n.has_vertex(w) {
            lemma_weights_to_len(n.out_edges[v], w);
            if w != v {
                assert(n.out_edges[w] == self.out_edges[w]);
                if occurs(self.out_edges[w], v) {
                    let j = choose|j: int| 0 <= j < self.out_edges[w].len() && self.out_edges[w][j].0 == v;
                    assert(self.has_vertex(self.out_edges[w][j].0));
                }
                lemma_weights_to_len(self.out_edges[w], v);
            }
        }
        if w == v && n.has_vertex(u) {
            lemma_weights_to_len(n.out_edges[v], u);
            if u != v {
                assert(n.out_edges[u] == self.out_edges[u]);
                if occurs(self.out_edges[u], v) {
                    let j = choose|j: int| 0 <= j < self.out_edges[u].len() && self.out_edges[u][j].0 == v;
                    assert(self.has_vertex(self.out_edges[u][j].0));
                }
                lemma_weights_to_len(self.out_edges[u], v);
            }
        }
    }

    /// Removing a vertex keeps the edges between the others, under their new
    /// numbers.
    pub proof fn lemma_between_without_vertex(self, v: usize, x: usize, y: usize)
        requires
            self.wf(),
            self.has_vertex(v),
            self.without_vertex(v).has_vertex(x),
            self.without_vertex(v).has_vertex(y),
        ensures
            self.without_vertex(v).between(x, y) == self.between(unshift(x, v), unshift(y, v)),
            unshift(x, v) != v,
            unshift(y, v) != v,
            self.has_vertex(unshift(x, v)),
            self.has_vertex(unshift(y, v)),
            (x == y) == (unshift(x, v) == unshift(y, v)),
    {
        let n = self.without_vertex(v);
        let ux = unshift(x, v);
        let uy = unshift(y, v);
        lemma_weights_to_drop_shift(self.out_edges[ux], v, y);
        lemma_weights_to_drop_shift(self.out_edges[uy], v, x);
    }

    /// Each edge between `source` and `sink` is stored where
    /// [`between_positions`](GraphView::between_positions) says, with the
    /// weight [`between`](GraphView::between) gives it.
    pub proof fn lemma_between_positions(self, source: usize, sink: usize)
        requires
            self.wf(),
            self.has_vertex(source) && self.has_vertex(sink) ==> self.out_edges[source].len() <= usize::MAX,
            self.has_vertex(source) && self.has_vertex(sink) && !self.directed && source != sink
                ==> self.out_edges[sink].len() <= usize::MAX,
        ensures
            self.between_positions(source, sink).len() == self.between(source, sink).len(),
            forall|k: int|
                0 <= k < self.between_positions(source, sink).len() ==> {
                    let p = #[trigger] self.between_positions(source, sink)[k];
                    &&& self.has_vertex(p.0)
                    &&& p.1 < self.out_edges[p.0].len()
                    &&& self.out_edges[p.0][p.1 as int].1 == self.between(source, sink)[k]
                },
    {
        if self.has_vertex(source) && self.has_vertex(sink) {
            lemma_positions_to(self.out_edges[source], sink);
            if !self.directed && source != sink {
                lemma_positions_to(self.out_edges[sink], source);
            }
            let a = tag(source, positions_to(self.out_edges[source], sink));
            let n = a.len();
            assert forall|k: int| 0 <= k < self.between_positions(source, sink).len() implies {
                let p = #[trigger] self.between_positions(source, sink)[k];
                &&& self.has_vertex(p.0)
                &&& p.1 < self.out_edges[p.0].len()
                &&& self.out_edges[p.0][p.1 as int].1 == self.between(source, sink)[k]
            } by {
                if k >= n {
                    assert(self.between_positions(source, sink)[k] == tag(sink, positions_to(self.out_edges[sink], source))[k - n]);
                    assert(self.between(source, sink)[k] == weights_to(self.out_edges[sink], source)[k - n]);
                }
            }
        }
    }

    /// Every edge between `source` and `sink` is stored at exactly one of the
    /// places [`between_positions`](GraphView::between_positions) lists, so
    /// that a reference taken at each place refers to each such edge once:
    /// the places are distinct, and every edge stored from `source` to `sink`
    /// (and, in an undirected graph, from `sink` to `source`) is listed.
    pub proof fn lemma_between_positions_each_once(self, source: usize, sink: usize)
        requires
            self.wf(),
            self.has_vertex(source) && self.has_vertex(sink) ==> self.out_edges[source].len() <= usize::MAX,
            self.has_vertex(source) && self.has_vertex(sink) && !self.directed && source != sink
                ==> self.out_edges[sink].len() <= usize::MAX,
        ensures
            self.between_positions(source, sink).no_duplicates(),
            self.has_vertex(source) && self.has_vertex(sink) ==> forall|j: int|
                0 <= j < self.out_edges[source].len() && #[trigger] self.out_edges[source][j].0 == sink
                    ==> self.between_positions(source, sink).contains((source, j as usize)),
            self.has_vertex(source) && self.has_vertex(sink) && !self.directed ==> forall|j: int|
                0 <= j < self.out_edges[sink].len() && #[trigger] self.out_edges[sink][j].0 == source
                    ==> self.between_positions(source, sink).contains((sink, j as usize)),
    {
        if self.has_vertex(source) && self.has_vertex(sink) {
            let ps = self.between_positions(source, sink);
            let a = tag(source, positions_to(self.out_edges[source], sink));
            let n = a.len() as int;
            lemma_positions_to(self.out_edges[source], sink);
            if !self.directed && source != sink {
                lemma_positions_to(self.out_edges[sink], source);
            }
            let b = if !self.directed && source != sink {
                tag(sink, positions_to(self.out_edges[sink], source))
            } else {
                Seq::empty()
            };
            assert(ps == a + b);
            assert forall|i: int, k: int| 0 <= i < ps.len() && 0 <= k < ps.len() && i != k implies ps[i] != ps[k] by {
                if i < n && k < n {
                    assert(ps[i] == a[i] && ps[k] == a[k]);
                } else if i >= n && k >= n {
                    assert(ps[i] == b[i - n] && ps[k] == b[k - n]);
                } else if i < n {
                    assert(ps[i].0 == source && ps[k].0 == sink);
                } else {
                    assert(ps[k].0 == source && ps[i].0 == sink);
                }
            }
            assert forall|j: int|
                0 <= j < self.out_edges[source].len() && #[trigger] self.out_edges[source][j].0 == sink implies ps.contains(
                (source, j as usize),
            ) by {
                let i = choose|i: int|
                    0 <= i < positions_to(self.out_edges[source], sink).len() && positions_to(
                        self.out_edges[source],
                        sink,
                    )[i] == j as usize;
                assert(ps[i] == a[i]);
            }
            if !self.directed {
                assert forall|j: int|
                    0 <= j < self.out_edges[sink].len() && #[trigger] self.out_edges[sink][j].0 == source implies ps.contains(
                    (sink, j as usize),
                ) by {
                    if source == sink {
                        let i = choose|i: int|
                            0 <= i < positions_to(self.out_edges[source], sink).len() && positions_to(
                                self.out_edges[source],
                                sink,
                            )[i] == j as usize;
                        assert(ps[i] == a[i]);
                    } else {
                        let i = choose|i: int|
                            0 <= i < positions_to(self.out_edges[sink], source).len() && positions_to(
                                self.out_edges[sink],
                                source,
                            )[i] == j as usize;
                        assert(ps[n + i] == b[i]);
                    }
                }
            }
        }
    }

    /// [`between_positions_by_vertex`](GraphView::between_positions_by_vertex),
    /// which [`edges_between_mut`](crate::property::GraphMut::edges_between_mut)
    /// gives, lists each edge between `source` and `sink` exactly once: every
    /// place it lists holds an edge from one of the two to the other (from
    /// `source` to `sink`, or in an undirected graph from `sink` to
    /// `source`), the places are distinct, and every such edge is listed.
    pub proof fn lemma_between_positions_by_vertex_each_once(self, source: usize, sink: usize)
        requires
            self.wf(),
            self.has_vertex(source) && self.has_vertex(sink) ==> self.out_edges[source].len() <= usize::MAX,
            self.has_vertex(source) && self.has_vertex(sink) && !self.directed && source != sink
                ==> self.out_edges[sink].len() <= usize::MAX,
        ensures
            self.between_positions_by_vertex(source, sink).no_duplicates(),
            forall|k: int|
                0 <= k < self.between_positions_by_vertex(source, sink).len() ==> {
                    let p = #[trigger] self.between_positions_by_vertex(source, sink)[k];
                    &&& self.has_vertex(p.0)
                    &&& p.1 < self.out_edges[p.0].len()
                    &&& (p.0 == source && self.out_edges[source][p.1 as int].0 == sink) || (!self.directed
                        && p.0 == sink && self.out_edges[sink][p.1 as int].0 == source)
                },
            self.has_vertex(source) && self.has_vertex(sink) ==> forall|j: int|
                0 <= j < self.out_edges[source].len() && #[trigger] self.out_edges[source][j].0 == sink
                    ==> self.between_positions_by_vertex(source, sink).contains((source, j as usize)),
            self.has_vertex(source) && self.has_vertex(sink) && !self.directed ==> forall|j: int|
                0 <= j < self.out_edges[sink].len() && #[trigger] self.out_edges[sink][j].0 == source
                    ==> self.between_positions_by_vertex(source, sink).contains((sink, j as usize)),
    {
        self.lemma_between_positions_each_once(source, sink);
        if self.has_vertex(source) && self.has_vertex(sink) {
            let ps = self.between_positions(source, sink);
            let qs = self.between_positions_by_vertex(source, sink);
            let a = tag(source, positions_to(self.out_edges[source], sink));
            let n = a.len() as int;
            lemma_positions_to(self.out_edges[source], sink);
            if !self.directed && source != sink {
                lemma_positions_to(self.out_edges[sink], source);
            }
            let b = if !self.directed && source != sink {
                tag(sink, positions_to(self.out_edges[sink], source))
            } else {
                Seq::empty()
            };
            let m = b.len() as int;
            assert(ps == a + b);
            let rotated = !self.directed && source != sink && self.vertex_before(sink, source);
            if rotated {
                assert(qs == b + a);
            } else {
                assert(qs == ps);
            }
            assert forall|k: int| 0 <= k < qs.len() implies {
                let p = #[trigger] qs[k];
                &&& self.has_vertex(p.0)
                &&& p.1 < self.out_edges[p.0].len()
                &&& (p.0 == source && self.out_edges[source][p.1 as int].0 == sink) || (!self.directed && p.0
                    == sink && self.out_edges[sink][p.1 as int].0 == source)
            } by {
                let in_a = if rotated { k >= m } else { k < n };
                if in_a {
                    let i = if rotated { k - m } else { k };
                    assert(qs[k] == a[i]);
                    assert(positions_to(self.out_edges[source], sink)[i] < self.out_edges[source].len());
                } else {
                    let i = if rotated { k } else { k - n };
                    assert(qs[k] == b[i]);
                    assert(positions_to(self.out_edges[sink], source)[i] < self.out_edges[sink].len());
                }
            }
            if rotated {
                assert forall|i: int, k: int| 0 <= i < qs.len() && 0 <= k < qs.len() && i != k implies qs[i] != qs[k] by {
                    let i2 = if i < m { i + n } else { i - m };
                    let k2 = if k < m { k + n } else { k - m };
                    assert(qs[i] == ps[i2]);
                    assert(qs[k] == ps[k2]);
                }
                assert forall|x: (usize, usize)| ps.contains(x) implies qs.contains(x) by {
                    let i = choose|i: int| 0 <= i < ps.len() && ps[i] == x;
                    let i2 = if i < n { i + m } else { i - n };
                    assert(qs[i2] == ps[i]);
                }
            }
        }
    }

    /// Removing the edge just added, the last one stored from its source,
    /// gives back the graph.
    pub proof fn lemma_remove_added_edge(self, source: usize, sink: usize, weight: Ew)
        requires
            self.wf(),
            self.has_vertex(source),
        ensures
            self.with_edge(source, sink, weight).without_edge(source, self.out_edges[source].len() as int) == self,
    {
        let n = self.with_edge(source, sink, weight);
        let r = n.without_edge(source, self.out_edges[source].len() as int);
        assert(n.out_edges[source].remove(self.out_edges[source].len() as int) =~= self.out_edges[source]);
        assert(r.out_edges =~= self.out_edges);
        assert(r =~= self);
    }

    /// Removing the vertex just added, numbered above every other vertex,
    /// gives back the graph.
    pub proof fn lemma_remove_added_vertex(self, n: GraphView<Vw, Ew>, v: usize, w: Vw)
        requires
            self.wf(),
            self.adds_vertex(n, v, w),
            forall|x: usize| #[trigger] self.has_vertex(x) ==> x < v,
        ensures
            n.without_vertex(v) == self,
    {
        let r = n.without_vertex(v);
        assert forall|i: int| 0 <= i < self.vertices.len() implies #[trigger] self.vertices[i] < v by {
            assert(self.vertices.contains(self.vertices[i]));
            assert(self.has_vertex(self.vertices[i]));
        }
        lemma_remove_shift_below(self.vertices, v);
        assert(n.vertices.drop_last() =~= self.vertices);
        assert(r.vertices =~= self.vertices);
        assert(r.weights =~= self.weights);
        assert forall|x: usize| #[trigger] r.out_edges.dom().contains(x) implies r.out_edges[x] == self.out_edges[x] by {
            assert(self.has_vertex(x));
            assert(self.vertices.contains(x));
            assert forall|j: int| 0 <= j < self.out_edges[x].len() implies (#[trigger] self.out_edges[x][j]).0 < v by {
                assert(self.has_vertex(self.out_edges[x][j].0));
            }
            lemma_drop_shift_below(self.out_edges[x], v);
        }
        assert forall|x: usize| #[trigger] r.out_edges.dom().contains(x) <==> self.out_edges.dom().contains(x) by {
            assert(self.out_edges.dom().contains(x) <==> self.vertices.contains(x));
            assert(self.weights.dom().contains(x) <==> self.vertices.contains(x));
        }
        assert(r.out_edges =~= self.out_edges);
        assert(r =~= self);
    }
}


/// Removing a vertex above every element renumbers none of them.
proof fn lemma_remove_shift_below(s: Seq<usize>, v: usize)
    requires
        forall|i: int| 0 <= i < s.len() ==> #[trigger] s[i] < v,
    ensures
        remove_shift(s, v) == s,
    decreases s.len(),
{
    if s.len() > 0 {
        assert forall|i: int| 0 <= i < s.drop_last().len() implies #[trigger] s.drop_last()[i] < v by {
            assert(s.drop_last()[i] == s[i]);
        }
        lemma_remove_shift_below(s.drop_last(), v);
        assert(s[s.len() - 1] < v);
        assert(s.drop_last().push(s.last()) =~= s);
    }
}

/// Removing a vertex above every sink drops and renumbers no stored edge.
proof fn lemma_drop_shift_below<Ew>(s: Seq<(usize, Ew)>, v: usize)
    requires
        forall|i: int| 0 <= i < s.len() ==> (#[trigger] s[i]).0 < v,
    ensures
        drop_shift(s, v) == s,
    decreases s.len(),
{
    if s.len() > 0 {
        assert forall|i: int| 0 <= i < s.drop_last().len() implies (#[trigger] s.drop_last()[i]).0 < v by {
            assert(s.drop_last()[i] == s[i]);
        }
        lemma_drop_shift_below(s.drop_last(), v);
        assert(s[s.len() - 1].0 < v);
        assert(s.drop_last().push(s.last()) =~= s);
    }
}


/// The positions of the entries of `s` leading to `t` are positions of `s`,
/// in step with the weights of those entries.
pub proof fn lemma_positions_to<Ew>(s: Seq<(usize, Ew)>, t: usize)
    requires
        s.len() <= usize::MAX,
    ensures
        positions_to(s, t).len() == weights_to(s, t).len(),
        forall|i: int|
            0 <= i < positions_to(s, t).len() ==> {
                let p = #[trigger] positions_to(s, t)[i];
                &&& p < s.len()
                &&& s[p as int].0 == t
                &&& s[p as int].1 == weights_to(s, t)[i]
            },
        forall|i: int, k: int|
            0 <= i < k < positions_to(s, t).len() ==> #[trigger] positions_to(s, t)[i] < #[trigger] positions_to(
                s,
                t,
            )[k],
        forall|j: int| 0 <= j < s.len() && #[trigger] s[j].0 == t ==> positions_to(s, t).contains(j as usize),
    decreases s.len(),
{
    if s.len() > 0 {
        lemma_positions_to(s.drop_last(), t);
        let d = s.drop_last();
        let prev = positions_to(d, t);
        let pw = weights_to(d, t);
        assert forall|i: int| 0 <= i < positions_to(s, t).len() implies {
            let p = #[trigger] positions_to(s, t)[i];
            &&& p < s.len()
            &&& s[p as int].0 == t
            &&& s[p as int].1 == weights_to(s, t)[i]
        } by {
            if i < prev.len() {
                assert(positions_to(s, t)[i] == prev[i]);
                assert(weights_to(s, t)[i] == pw[i]);
                assert(d[prev[i] as int] == s[prev[i] as int]);
            } else {
                assert(s.last().0 == t);
                assert(positions_to(s, t)[i] == (s.len() - 1) as usize);
                assert(weights_to(s, t)[i] == s.last().1);
            }
        }
        assert forall|i: int, k: int|
            0 <= i < k < positions_to(s, t).len() implies #[trigger] positions_to(s, t)[i] < #[trigger] positions_to(
            s,
            t,
        )[k] by {
            assert(positions_to(s, t)[i] == prev[i]);
            if k < prev.len() {
                assert(positions_to(s, t)[k] == prev[k]);
            } else {
                assert(prev[i] < d.len());
            }
        }
        assert forall|j: int| 0 <= j < s.len() && #[trigger] s[j].0 == t implies positions_to(s, t).contains(
            j as usize,
        ) by {
            if j < d.len() {
                assert(d[j].0 == t);
                let i = choose|i: int| 0 <= i < prev.len() && prev[i] == j as usize;
                assert(positions_to(s, t)[i] == prev[i]);
            } else {
                assert(positions_to(s, t)[prev.len() as int] == j as usize);
            }
        }
    }
}

} // verus!
