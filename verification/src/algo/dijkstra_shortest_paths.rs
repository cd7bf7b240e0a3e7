//! Dijkstra's shortest paths algorithm.
use crate::algo::retain::UnretainedIterator;
use crate::graph::{vec_contains, Graph};
use crate::view::{deref_pairs, deref_seq, GraphView};
use std::marker::PhantomData;
use vstd::prelude::*;

verus! {

/// The lowest of the given weights, or zero if there are none.
pub open spec fn min_weight(s: Seq<u64>) -> u64
    decreases s.len(),
{
    if s.len() == 0 {
        0
    } else if s.len() == 1 {
        s[0]
    } else {
        let m = min_weight(s.drop_last());
        if m < s.last() {
            m
        } else {
            s.last()
        }
    }
}

/// The lowest of a nonempty sequence of weights is one of them, and no
/// higher than any of them.
pub proof fn lemma_min_weight(s: Seq<u64>)
    requires
        s.len() > 0,
    ensures
        s.contains(min_weight(s)),
        forall|i: int| 0 <= i < s.len() ==> min_weight(s) <= #[trigger] s[i],
    decreases s.len(),
{
    if s.len() > 1 {
        let t = s.drop_last();
        lemma_min_weight(t);
        assert forall|i: int| 0 <= i < s.len() implies min_weight(s) <= #[trigger] s[i] by {
            if i < s.len() - 1 {
                assert(s[i] == t[i]);
            }
        }
        if min_weight(t) < s.last() {
            let j = choose|j: int| 0 <= j < t.len() && t[j] == min_weight(t);
            assert(s[j] == t[j]);
        } else {
            assert(s[s.len() - 1] == s.last());
        }
    } else {
        assert(s[0] == min_weight(s));
    }
}

/// A weight of a nonempty sequence that is no higher than any of them is its
/// lowest.
pub proof fn lemma_min_weight_unique(s: Seq<u64>, y: u64)
    requires
        s.contains(y),
        forall|i: int| 0 <= i < s.len() ==> y <= #[trigger] s[i],
    ensures
        min_weight(s) == y,
{
    lemma_min_weight(s);
    let j = choose|j: int| 0 <= j < s.len() && s[j] == min_weight(s);
    let k = choose|k: int| 0 <= k < s.len() && s[k] == y;
    assert(y <= s[j]);
    assert(min_weight(s) <= s[k]);
}

/// Whether `p`, with the edge weights `ws`, is a lightest walk in `g` from
/// `start` to `u`, whose weight plus that of any edge leaving `u` fits in a
/// `u64` unless the edge's sink is reached by a lighter walk.
pub open spec fn fitting_lightest_walk<Vw>(
    g: GraphView<Vw, u64>,
    start: usize,
    u: usize,
    p: Seq<usize>,
    ws: Seq<u64>,
) -> bool {
    &&& is_weighted_walk(g, p, ws)
    &&& p[0] == start
    &&& p.last() == u
    &&& forall|p2: Seq<usize>, ws2: Seq<u64>|
        #[trigger] is_weighted_walk(g, p2, ws2) && p2[0] == start && p2.last() == u ==> total_weight(ws)
            <= total_weight(ws2)
    &&& forall|x: usize, y: u64|
        #[trigger] g.between(u, x).contains(y) ==> total_weight(ws) + y <= u64::MAX || exists|
            p3: Seq<usize>,
            ws3: Seq<u64>,
        |
            #[trigger] is_weighted_walk(g, p3, ws3) && p3[0] == start && p3.last() == x && total_weight(ws3)
                < total_weight(ws)
}

/// Whether no sum that the algorithm forms from `start` overflows a `u64`.
///
/// The algorithm reaches each vertex `u` at the weight of a lightest walk
/// to it from `start`, and adds to that weight the weight of each edge
/// leaving `u` whose sink it has not reached yet. So: every vertex reachable
/// from `start` has a lightest walk to it, and for every edge leaving it,
/// that walk's weight plus the edge's fits in a `u64`, or the edge's sink is
/// reached by a lighter walk (and so before `u`).
#[verifier::opaque]
pub open spec fn sums_fit<Vw>(g: GraphView<Vw, u64>, start: usize) -> bool {
    forall|u: usize| #[trigger] g.reachable(start, u) ==> exists|p: Seq<usize>, ws: Seq<u64>|
        #[trigger] fitting_lightest_walk(g, start, u, p, ws)
}

/// Whether some walk in `g` from `s` to `x` weighs exactly `t`.
#[verifier::opaque]
pub open spec fn walk_weighing<Vw>(g: GraphView<Vw, u64>, s: usize, x: usize, t: int) -> bool {
    exists|p: Seq<usize>, ws: Seq<u64>|
        #[trigger] is_weighted_walk(g, p, ws) && p[0] == s && p.last() == x && total_weight(ws) == t
}

/// Whether `p` is a walk in `g` whose step from `p[i]` to `p[i + 1]` takes an
/// edge of weight `ws[i]`.
pub open spec fn is_weighted_walk<Vw>(g: GraphView<Vw, u64>, p: Seq<usize>, ws: Seq<u64>) -> bool {
    &&& p.len() == ws.len() + 1
    &&& forall|i: int| 0 <= i < ws.len() ==> g.between(p[i], p[i + 1]).contains(#[trigger] ws[i])
}

/// The sum of the given weights.
pub open spec fn total_weight(ws: Seq<u64>) -> int
    decreases ws.len(),
{
    if ws.len() == 0 {
        0
    } else {
        total_weight(ws.drop_last()) + ws.last()
    }
}

/// The weights of a prefix add up to no more than all of them, and one step
/// more adds its weight.
proof fn lemma_total_prefix(ws: Seq<u64>, k: int)
    requires
        0 <= k <= ws.len(),
    ensures
        0 <= total_weight(ws.take(k)) <= total_weight(ws),
        k < ws.len() ==> total_weight(ws.take(k + 1)) == total_weight(ws.take(k)) + ws[k],
    decreases ws.len(),
{
    if k < ws.len() {
        assert(ws.take(k + 1).drop_last() =~= ws.take(k));
    }
    if ws.len() > 0 {
        if k == ws.len() {
            assert(ws.take(k) =~= ws);
            lemma_total_prefix(ws.drop_last(), 0);
            assert(ws.drop_last().take(0) =~= ws.take(0));
        } else {
            lemma_total_prefix(ws.drop_last(), k);
            assert(ws.drop_last().take(k) =~= ws.take(k));
        }
    } else {
        assert(ws.take(k) =~= ws);
    }
}

/// A walk that starts in `vis` and ends outside it leaves it at some step.
proof fn lemma_walk_leaves(vis: Seq<usize>, p: Seq<usize>)
    requires
        p.len() > 0,
        vis.contains(p[0]),
        !vis.contains(p.last()),
    ensures
        exists|k: int| 0 <= k < p.len() - 1 && vis.contains(#[trigger] p[k]) && !vis.contains(p[k + 1]),
    decreases p.len(),
{
    let q = p.drop_last();
    if vis.contains(q.last()) {
        assert(vis.contains(p[p.len() - 2]));
    } else {
        lemma_walk_leaves(vis, q);
        let k = choose|k: int| 0 <= k < q.len() - 1 && vis.contains(#[trigger] q[k]) && !vis.contains(q[k + 1]);
        assert(p[k] == q[k] && p[k + 1] == q[k + 1]);
    }
}

/// When `v` is about to be visited at weight `w`, the weight of a walk to
/// it, no edge from `v` to a vertex not visited yet takes the sum past a
/// `u64`, if the sums fit.
proof fn lemma_sums_at<Vw>(gm: GraphView<Vw, u64>, vis0: Seq<usize>, d0: Map<usize, int>, v: usize, w: u64, s0: usize)
    requires
        sums_fit(gm, s0),
        gm.reachable(s0, v),
        walk_weighing(gm, s0, v, w as int),
        !vis0.contains(v),
        vis0.len() > 0 ==> s0 == vis0[0],
        vis0.len() == 0 ==> w == 0,
        forall|p: Seq<usize>, ws: Seq<u64>|
            #[trigger] is_weighted_walk(gm, p, ws) && vis0.len() > 0 && p[0] == vis0[0] && vis0.contains(p.last())
                ==> d0[p.last()] <= total_weight(ws),
        forall|u: usize, x: usize, y: u64|
            vis0.contains(u) && !vis0.contains(x) && #[trigger] gm.between(u, x).contains(y) ==> w <= d0[u] + y,
    ensures
        forall|x: usize, y: u64|
            #[trigger] gm.between(v, x).contains(y) && !vis0.contains(x) && x != v ==> w + y <= u64::MAX,
{
    reveal(sums_fit);
    reveal(walk_weighing);
    let (p, ws) = choose|p: Seq<usize>, ws: Seq<u64>| fitting_lightest_walk(gm, s0, v, p, ws);
    let (pq, wq) = choose|pq: Seq<usize>, wq: Seq<u64>|
        is_weighted_walk(gm, pq, wq) && pq[0] == s0 && pq.last() == v && total_weight(wq) == w;
    assert(total_weight(ws) <= total_weight(wq));
    lemma_total_prefix(ws, 0);
    assert(ws.take(0) =~= Seq::<u64>::empty());
    if vis0.len() > 0 {
        lemma_visit_shortest(gm, vis0, d0, v, w as int);
    }
    assert(total_weight(ws) == w);
    assert forall|x: usize, y: u64|
        #[trigger] gm.between(v, x).contains(y) && !vis0.contains(x) && x != v implies w + y <= u64::MAX by {
        if !(total_weight(ws) + y <= u64::MAX) {
            let (p3, ws3) = choose|p3: Seq<usize>, ws3: Seq<u64>|
                is_weighted_walk(gm, p3, ws3) && p3[0] == s0 && p3.last() == x && total_weight(ws3) < total_weight(ws);
            lemma_total_prefix(ws3, 0);
            assert(ws3.take(0) =~= Seq::<u64>::empty());
            if vis0.len() > 0 {
                lemma_visit_shortest(gm, vis0, d0, x, w as int);
            }
        }
    }
}

/// A vertex visited at distance `w`, no more than any edge leaving the
/// visited vertices offers, is reached by no walk from the start weighing
/// less, if no visited vertex is.
proof fn lemma_visit_shortest<Vw>(
    gm: GraphView<Vw, u64>,
    vis: Seq<usize>,
    d: Map<usize, int>,
    v: usize,
    w: int,
)
    requires
        vis.len() > 0,
        !vis.contains(v),
        forall|p: Seq<usize>, ws: Seq<u64>|
            #[trigger] is_weighted_walk(gm, p, ws) && p[0] == vis[0] && vis.contains(p.last())
                ==> d[p.last()] <= total_weight(ws),
        forall|u: usize, x: usize, y: u64|
            vis.contains(u) && !vis.contains(x) && #[trigger] gm.between(u, x).contains(y) ==> w <= d[u] + y,
    ensures
        forall|p: Seq<usize>, ws: Seq<u64>|
            #[trigger] is_weighted_walk(gm, p, ws) && p[0] == vis[0] && p.last() == v ==> w <= total_weight(ws),
{
    assert forall|p: Seq<usize>, ws: Seq<u64>|
        #[trigger] is_weighted_walk(gm, p, ws) && p[0] == vis[0] && p.last() == v implies w <= total_weight(ws) by {
        assert(vis.contains(vis[0]));
        lemma_walk_leaves(vis, p);
        let k = choose|k: int| 0 <= k < p.len() - 1 && vis.contains(#[trigger] p[k]) && !vis.contains(p[k + 1]);
        let pk = p.take(k + 1);
        let wk = ws.take(k);
        assert(is_weighted_walk(gm, pk, wk)) by {
            assert forall|i: int| 0 <= i < wk.len() implies gm.between(pk[i], pk[i + 1]).contains(#[trigger] wk[i]) by {
                assert(ws[i] == wk[i]);
                assert(gm.between(p[i], p[i + 1]).contains(ws[i]));
            }
        }
        assert(pk.last() == p[k]);
        assert(d[p[k]] <= total_weight(wk));
        assert(gm.between(p[k], p[k + 1]).contains(ws[k]));
        lemma_total_prefix(ws, k);
        lemma_total_prefix(ws, k + 1);
    }
}

/// Whether some position of `p` holds `j`.
spec fn covers(p: Seq<int>, j: int) -> bool {
    exists|i: int| 0 <= i < p.len() && p[i] == j
}

/// Whether `p` maps the positions `0..n` one to one onto themselves.
spec fn is_permutation(p: Seq<int>, n: int) -> bool {
    &&& p.len() == n
    &&& forall|i: int| 0 <= i < n ==> 0 <= #[trigger] p[i] < n
    &&& forall|i: int, j: int| 0 <= i < j < n ==> p[i] != p[j]
    &&& forall|j: int| 0 <= j < n ==> #[trigger] covers(p, j)
}

/// Sorts the queue by weight, highest first, keeping the order of entries of
/// equal weight.
fn sort_by_weight_desc(q: &mut Vec<(u64, (usize, usize))>)
    ensures
        final(q)@.len() == old(q)@.len(),
        forall|i: int, j: int| 0 <= i < j < final(q)@.len() ==> final(q)@[i].0 >= final(q)@[j].0,
        exists|p: Seq<int>|
            is_permutation(p, old(q)@.len() as int) && forall|i: int|
                0 <= i < old(q)@.len() ==> #[trigger] final(q)@[i] == old(q)@[p[i]],
{
    let ghost q0 = q@;
    let ghost mut perm: Seq<int> = Seq::new(q0.len(), |i: int| i);
    proof {
        assert forall|j: int| 0 <= j < q0.len() implies #[trigger] covers(perm, j) by {
            assert(perm[j] == j);
        }
    }
    let n = q.len();
    let mut i: usize = 1;
    while i < n
        invariant
            q@.len() == n == q0.len(),
            1 <= i || n == 0,
            forall|a: int, b: int| 0 <= a < b < i && b < n ==> q@[a].0 >= q@[b].0,
            is_permutation(perm, n as int),
            forall|k: int| 0 <= k < n ==> #[trigger] q@[k] == q0[perm[k]],
        decreases n - i,
    {
        let mut j: usize = i;
        while j > 0 && q[j - 1].0 < q[j].0
            invariant
                q@.len() == n == q0.len(),
                0 <= j <= i < n,
                forall|a: int, b: int| 0 <= a < b < j ==> q@[a].0 >= q@[b].0,
                forall|a: int, b: int| j < a < b <= i ==> q@[a].0 >= q@[b].0,
                forall|a: int, b: int| 0 <= a < j && j < b <= i ==> q@[a].0 >= q@[b].0,
                forall|b: int| j < b <= i ==> q@[j as int].0 > #[trigger] q@[b].0,
                is_permutation(perm, n as int),
                forall|k: int| 0 <= k < n ==> #[trigger] q@[k] == q0[perm[k]],
            decreases j,
        {
            let a = q[j - 1];
            let b = q[j];
            q.set(j - 1, b);
            q.set(j, a);
            proof {
                let p0 = perm;
                perm = p0.update(j - 1, p0[j as int]).update(j as int, p0[j - 1]);
                assert forall|t: int| 0 <= t < n implies #[trigger] covers(perm, t) by {
                    assert(covers(p0, t));
                    let s = choose|s: int| 0 <= s < p0.len() && p0[s] == t;
                    if s == j - 1 {
                        assert(perm[j as int] == t);
                    } else if s == j {
                        assert(perm[j - 1] == t);
                    } else {
                        assert(perm[s] == t);
                    }
                }
            }
            j -= 1;
        }
        i += 1;
    }
    proof {
        assert(is_permutation(perm, q0.len() as int));
    }
}

/// Returns the position of the queue entry for `sink`, if there is one.
fn find_sink(q: &Vec<(u64, (usize, usize))>, sink: usize) -> (r: Option<usize>)
    ensures
        match r {
            Some(i) => i < q@.len() && q@[i as int].1.1 == sink,
            None => forall|i: int| 0 <= i < q@.len() ==> (#[trigger] q@[i]).1.1 != sink,
        },
{
    let mut i: usize = 0;
    while i < q.len()
        invariant
            i <= q@.len(),
            forall|k: int| 0 <= k < i ==> (#[trigger] q@[k]).1.1 != sink,
        decreases q.len() - i,
    {
        if q[i].1.1 == sink {
            return Some(i);
        }
        i += 1;
    }
    None
}



/// Whether a queue entry leads by an edge from a visited vertex to an
/// unvisited one, at the distance of its source plus the edge's weight, and
/// within `lo..=hi`.
spec fn entry_ok<Vw>(
    gm: GraphView<Vw, u64>,
    vis: Seq<usize>,
    d: Map<usize, int>,
    lo: int,
    hi: int,
    e: (u64, (usize, usize)),
) -> bool {
    &&& vis.contains(e.1.0)
    &&& !vis.contains(e.1.1)
    &&& lo <= e.0 <= hi
    &&& d[e.1.0] <= e.0
    &&& gm.between(e.1.0, e.1.1).contains((e.0 - d[e.1.0]) as u64)
}

/// Whether the queue offers `x` at a distance of at most `b`.
spec fn offered(q: Seq<(u64, (usize, usize))>, x: usize, b: int) -> bool {
    exists|i: int| 0 <= i < q.len() && q[i].1.1 == x && q[i].0 <= b
}

/// Whether the queue holds at most one entry per sink.
spec fn sinks_distinct(q: Seq<(u64, (usize, usize))>) -> bool {
    forall|i: int, j: int| 0 <= i < j < q.len() ==> q[i].1.1 != q[j].1.1
}

/// Offers `sink` at distance `nw` by an edge from `v`: replaces its queue
/// entry if that is higher, or adds one if it has none.
fn offer(q: &mut Vec<(u64, (usize, usize))>, v: usize, sink: usize, nw: u64)
    requires
        sinks_distinct(old(q)@),
    ensures
        sinks_distinct(final(q)@),
        offered(final(q)@, sink, nw as int),
        forall|x: usize, b: int| #[trigger] offered(old(q)@, x, b) ==> offered(final(q)@, x, b),
        forall|i: int|
            0 <= i < final(q)@.len() ==> #[trigger] final(q)@[i] == (nw, (v, sink)) || old(q)@.contains(final(q)@[i]),
{
    let ghost q0 = q@;
    match find_sink(q, sink) {
        Some(i) => {
            if q[i].0 > nw {
                q.set(i, (nw, (v, sink)));
            }
            proof {
                assert(q@[i as int].1.1 == sink);
                assert forall|x: usize, b: int| #[trigger] offered(q0, x, b) implies offered(q@, x, b) by {
                    let j = choose|j: int| 0 <= j < q0.len() && q0[j].1.1 == x && q0[j].0 <= b;
                    assert(q@[j].1.1 == x);
                }
                assert forall|j: int| 0 <= j < q@.len() implies #[trigger] q@[j] == (nw, (v, sink)) || q0.contains(q@[j]) by {
                    if q@[j] != (nw, (v, sink)) {
                        assert(q@[j] == q0[j]);
                    }
                }
            }
        },
        None => {
            q.push((nw, (v, sink)));
            proof {
                assert(q@[q0.len() as int].1.1 == sink);
                assert forall|x: usize, b: int| #[trigger] offered(q0, x, b) implies offered(q@, x, b) by {
                    let j = choose|j: int| 0 <= j < q0.len() && q0[j].1.1 == x && q0[j].0 <= b;
                    assert(q@[j] == q0[j]);
                }
                assert forall|j: int| 0 <= j < q@.len() implies #[trigger] q@[j] == (nw, (v, sink)) || q0.contains(q@[j]) by {
                    if j < q0.len() {
                        assert(q@[j] == q0[j]);
                    }
                }
                assert forall|a: int, b: int| 0 <= a < b < q@.len() implies q@[a].1.1 != q@[b].1.1 by {
                    if b == q0.len() {
                        assert(q@[a] == q0[a]);
                    } else {
                        assert(q@[a] == q0[a]);
                        assert(q@[b] == q0[b]);
                    }
                }
            }
        },
    }
}

/// [Dijkstra's shortest paths algorithm](https://mathworld.wolfram.com/DijkstrasAlgorithm.html)
/// on a graph whose edges are weighted by unsigned integers.
///
/// Starting from a vertex, each step visits the unvisited vertex closest to
/// the start, and returns the edge it was reached by. The algorithm does not
/// hold the graph: each step is given it.
pub struct DijkstraShortestPaths<G: Graph<EdgeWeight = u64>> {
    visited: Vec<usize>,
    /// The edges leading out of the visited vertices, each with the distance
    /// its sink would be reached at, one per sink, sorted with the lowest
    /// distance at the end.
    queue: Vec<(u64, (usize, usize))>,
    /// The distance at which each visited vertex was reached.
    dist: Ghost<Map<usize, int>>,
    /// The distance of the vertex visited last.
    last: Ghost<int>,
    graph_type: PhantomData<G>,
}

impl<G: Graph<EdgeWeight = u64>> DijkstraShortestPaths<G> {
    /// The vertices visited so far, in visiting order, the start first.
    pub closed spec fn visited_seq(&self) -> Seq<usize> {
        self.visited@
    }

    /// The distance at which each visited vertex was reached.
    pub closed spec fn dist(&self) -> Map<usize, int> {
        self.dist@
    }

    /// What holds of the visited vertices and their distances, the latest
    /// distance being `top`.
    closed spec fn visited_ok(&self, g: &G, top: int) -> bool {
        let gm = g.model();
        let vis = self.visited@;
        let d = self.dist@;
        &&& g.wf()
        &&& vis.len() > 0 ==> sums_fit(gm, vis[0])
        &&& vis.no_duplicates()
        &&& forall|i: int| 0 <= i < vis.len() ==> gm.has_vertex(#[trigger] vis[i])
        &&& forall|x: usize| #[trigger] d.dom().contains(x) <==> vis.contains(x)
        &&& vis.len() > 0 ==> d[vis[0]] == 0
        &&& forall|x: usize| #[trigger] vis.contains(x) ==> 0 <= d[x] <= top && gm.reachable(vis[0], x)
        &&& forall|x: usize| #[trigger] vis.contains(x) ==> walk_weighing(gm, vis[0], x, d[x])
        &&& forall|p: Seq<usize>, ws: Seq<u64>|
            #[trigger] is_weighted_walk(gm, p, ws) && p[0] == vis[0] && vis.contains(p.last())
                ==> d[p.last()] <= total_weight(ws)
    }

    /// The state right before `v` is visited at distance `w`.
    closed spec fn ready_to_visit(&self, g: &G, v: usize, w: u64) -> bool {
        let gm = g.model();
        let vis = self.visited@;
        let q = self.queue@;
        let d = self.dist@;
        &&& self.visited_ok(g, w as int)
        &&& gm.has_vertex(v)
        &&& !vis.contains(v)
        &&& vis.len() > 0 ==> gm.reachable(vis[0], v)
        &&& vis.len() == 0 ==> w == 0 && q.len() == 0
        &&& vis.len() == 0 ==> sums_fit(gm, v)
        &&& vis.len() > 0 ==> walk_weighing(gm, vis[0], v, w as int)
        &&& sinks_distinct(q)
        &&& forall|i: int|
            0 <= i < q.len() ==> entry_ok(gm, vis, d, w as int, u64::MAX as int, #[trigger] q[i]) && q[i].1.1 != v
        &&& forall|u: usize, x: usize, y: u64|
            vis.contains(u) && !vis.contains(x) && x != v && #[trigger] gm.between(u, x).contains(y)
                ==> offered(q, x, d[u] + y)
        &&& forall|u: usize, x: usize, y: u64|
            vis.contains(u) && !vis.contains(x) && #[trigger] gm.between(u, x).contains(y) ==> w <= d[u] + y
    }

    /// The invariant of the algorithm on the graph `g`.
    pub closed spec fn wf(&self, g: &G) -> bool {
        let gm = g.model();
        let vis = self.visited@;
        let q = self.queue@;
        let d = self.dist@;
        &&& self.visited_ok(g, self.last@)
        &&& vis.len() > 0
        &&& 0 <= self.last@ <= u64::MAX
        &&& forall|i: int, j: int| 0 <= i < j < q.len() ==> q[i].0 >= q[j].0
        &&& sinks_distinct(q)
        &&& forall|i: int| 0 <= i < q.len() ==> entry_ok(gm, vis, d, self.last@, u64::MAX as int, #[trigger] q[i])
        &&& forall|u: usize, x: usize, y: u64|
            vis.contains(u) && !vis.contains(x) && #[trigger] gm.between(u, x).contains(y) ==> offered(q, x, d[u] + y)
    }

    /// Starts the algorithm on `graph` from `start`, which is visited at
    /// distance zero.
    pub fn new(graph: &G, start: usize) -> (r: Self)
        requires
            graph.wf(),
            graph.model().has_vertex(start),
            sums_fit(graph.model(), start),
        ensures
            r.wf(graph),
            r.visited_seq() == seq![start],
            r.dist() == Map::<usize, int>::empty().insert(start, 0),
    {
        let mut dijk = DijkstraShortestPaths {
            visited: Vec::new(),
            queue: Vec::new(),
            dist: Ghost(Map::empty()),
            last: Ghost(0),
            graph_type: PhantomData,
        };
        proof {
            graph.lemma_wf();
            assert(dijk.visited@ =~= Seq::<usize>::empty());
        }
        dijk.visit(graph, start, 0);
        proof {
            assert(dijk.visited@ =~= seq![start]);
        }
        dijk
    }

    /// Visits `v`, reached at distance `w`: every edge from it to an
    /// unvisited vertex offers that vertex distance `w` plus its weight, which
    /// replaces the vertex's queue entry if it is lower.
    fn visit(&mut self, graph: &G, v: usize, w: u64)
        requires
            old(self).ready_to_visit(graph, v, w),
        ensures
            final(self).wf(graph),
            final(self).visited@ == old(self).visited@.push(v),
            final(self).dist@ == old(self).dist@.insert(v, w as int),
            final(self).last@ == w,
    {
        let ghost gm = graph.model();
        let ghost n = gm.vertices.len();
        let ghost vis0 = self.visited@;
        let ghost q0 = self.queue@;
        let ghost d0 = self.dist@;
        self.visited.push(v);
        let ghost vis = self.visited@;
        proof {
            graph.lemma_wf();
            self.dist@ = d0.insert(v, w as int);
            self.last@ = w as int;
            assert forall|x: usize| #[trigger] vis.contains(x) <==> vis0.contains(x) || x == v by {
                if vis.contains(x) {
                    let i = choose|i: int| 0 <= i < vis.len() && vis[i] == x;
                    if i < vis0.len() {
                        assert(vis0[i] == x);
                    }
                }
                if vis0.contains(x) {
                    let i = choose|i: int| 0 <= i < vis0.len() && vis0[i] == x;
                    assert(vis[i] == x);
                }
                if x == v {
                    assert(vis[vis0.len() as int] == x);
                }
            }
            assert(vis.no_duplicates()) by {
                assert forall|a: int, b: int| 0 <= a < b < vis.len() implies vis[a] != vis[b] by {
                    assert(vis[a] == vis0[a]);
                    if b == vis0.len() {
                        assert(vis0.contains(vis0[a]));
                    } else {
                        assert(vis[b] == vis0[b]);
                    }
                }
            }
            assert forall|i: int| 0 <= i < vis.len() implies gm.has_vertex(#[trigger] vis[i]) by {
                if i < vis0.len() {
                    assert(vis[i] == vis0[i]);
                }
            }
            assert forall|i: int| 0 <= i < vis.len() implies gm.vertices.contains(#[trigger] vis[i]) by {
                gm.lemma_vertices(vis[i]);
            }
            crate::view::lemma_nodup_subseq_len(vis, gm.vertices);
            assert(n > 0);
            let s0 = if vis0.len() > 0 {
                vis0[0]
            } else {
                v
            };
            if vis0.len() == 0 {
                crate::view::lemma_reaches_refl(gm.adj(), v);
            }
            assert(gm.reachable(s0, v));
            assert(walk_weighing(gm, s0, v, w as int)) by {
                reveal(walk_weighing);
                if vis0.len() == 0 {
                    assert(is_weighted_walk(gm, seq![v], Seq::<u64>::empty()));
                }
            }
            lemma_sums_at(gm, vis0, d0, v, w, s0);
            assert forall|x: usize, y: u64|
                #[trigger] gm.between(v, x).contains(y) && !vis.contains(x) implies w + y <= u64::MAX by {
                assert(!vis0.contains(x) && x != v);
            }
            let d = self.dist@;
            assert forall|i: int| 0 <= i < q0.len() implies entry_ok(gm, vis, d, w as int, u64::MAX as int, #[trigger] q0[i]) by {
                assert(entry_ok(gm, vis0, d0, w as int, u64::MAX as int, q0[i]));
                assert(d[q0[i].1.0] == d0[q0[i].1.0]);
            }
        }
        let edges = graph.edges_sourced_in(v);
        let mut k: usize = 0;
        while k < edges.len()
            invariant
                graph.wf(),
                gm == graph.model(),
                gm.wf(),
                n == gm.vertices.len(),
                forall|x: usize, y: u64|
                    #[trigger] gm.between(v, x).contains(y) && !vis.contains(x) ==> w + y <= u64::MAX,
                deref_pairs(edges@) == gm.sourced(v),
                k <= edges@.len(),
                self.visited@ == vis,
                forall|x: usize| #[trigger] vis.contains(x) <==> vis0.contains(x) || x == v,
                self.dist@ == d0.insert(v, w as int),
                self.last@ == w,
                sinks_distinct(self.queue@),
                forall|i: int|
                    0 <= i < self.queue@.len() ==> entry_ok(gm, vis, self.dist@, w as int, u64::MAX as int, #[trigger] self.queue@[i]),
                forall|u: usize, x: usize, y: u64|
                    vis0.contains(u) && !vis.contains(x) && #[trigger] gm.between(u, x).contains(y) ==> offered(self.queue@, x, d0[u] + y),
                forall|j: int|
                    0 <= j < k && !vis.contains((#[trigger] deref_pairs(edges@)[j]).0) ==> offered(
                        self.queue@,
                        deref_pairs(edges@)[j].0,
                        w + deref_pairs(edges@)[j].1,
                    ),
            decreases edges.len() - k,
        {
            let sink = edges[k].0;
            let weight: u64 = *edges[k].1;
            let ghost qb = self.queue@;
            proof {
                assert(deref_pairs(edges@)[k as int] == (sink, weight));
                assert(gm.sourced(v)[k as int] == (sink, weight));
                assert(gm.sourced(v).contains((sink, weight)));
                gm.lemma_sourced_edge(v, sink, weight);
            }
            if !vec_contains(&self.visited, sink) {
                let new_weight = w + weight;
                offer(&mut self.queue, v, sink, new_weight);
                proof {
                    let q1 = self.queue@;
                    let d = self.dist@;
                    assert forall|i: int| 0 <= i < q1.len() implies entry_ok(gm, vis, d, w as int, u64::MAX as int, #[trigger] q1[i]) by {
                        if q1[i] != (new_weight, (v, sink)) {
                            let j = choose|j: int| 0 <= j < qb.len() && qb[j] == q1[i];
                            assert(entry_ok(gm, vis, d, w as int, u64::MAX as int, qb[j]));
                        } else {
                            assert(d[v] == w);
                            assert((new_weight - d[v]) as u64 == weight);
                        }
                    }
                    assert forall|j: int|
                        0 <= j < k + 1 && !vis.contains((#[trigger] deref_pairs(edges@)[j]).0) implies offered(
                            q1,
                            deref_pairs(edges@)[j].0,
                            w + deref_pairs(edges@)[j].1,
                        ) by {
                        if j < k {
                            assert(offered(qb, deref_pairs(edges@)[j].0, w + deref_pairs(edges@)[j].1));
                        }
                    }
                    assert forall|u: usize, x: usize, y: u64|
                        vis0.contains(u) && !vis.contains(x) && #[trigger] gm.between(u, x).contains(y) implies offered(q1, x, d0[u] + y) by {
                        assert(offered(qb, x, d0[u] + y));
                    }
                }
            } else {
                proof {
                    assert forall|j: int|
                        0 <= j < k + 1 && !vis.contains((#[trigger] deref_pairs(edges@)[j]).0) implies offered(
                            self.queue@,
                            deref_pairs(edges@)[j].0,
                            w + deref_pairs(edges@)[j].1,
                        ) by {
                        if j == k {
                            assert(deref_pairs(edges@)[j].0 == sink);
                        }
                    }
                }
            }
            k += 1;
        }
        let ghost q1 = self.queue@;
        sort_by_weight_desc(&mut self.queue);
        proof {
            let q2 = self.queue@;
            let d = self.dist@;
            let p = choose|p: Seq<int>| is_permutation(p, q1.len() as int) && forall|i: int|
                0 <= i < q1.len() ==> #[trigger] q2[i] == q1[p[i]];
            assert forall|i: int| 0 <= i < q2.len() implies entry_ok(gm, vis, d, self.last@, u64::MAX as int, #[trigger] q2[i]) by {
                assert(q2[i] == q1[p[i]]);
                assert(entry_ok(gm, vis, d, w as int, u64::MAX as int, q1[p[i]]));
            }
            assert forall|i: int, j: int| 0 <= i < j < q2.len() implies q2[i].1.1 != q2[j].1.1 by {
                assert(q2[i] == q1[p[i]]);
                assert(q2[j] == q1[p[j]]);
            }
            assert forall|x: usize, b: int| #[trigger] offered(q1, x, b) implies offered(q2, x, b) by {
                let i1 = choose|i: int| 0 <= i < q1.len() && q1[i].1.1 == x && q1[i].0 <= b;
                assert(covers(p, i1));
                let i2 = choose|i: int| 0 <= i < p.len() && p[i] == i1;
                assert(q2[i2] == q1[i1]);
            }
            assert forall|u: usize, x: usize, y: u64|
                vis.contains(u) && !vis.contains(x) && #[trigger] gm.between(u, x).contains(y) implies offered(q2, x, d[u] + y) by {
                if u == v {
                    gm.lemma_sourced_edge(v, x, y);
                    let j = choose|j: int| 0 <= j < gm.sourced(v).len() && gm.sourced(v)[j] == (x, y);
                    assert(deref_pairs(edges@)[j] == (x, y));
                    assert(offered(q1, x, w + y));
                } else {
                    assert(offered(q1, x, d0[u] + y));
                    assert(d[u] == d0[u]);
                }
            }
            assert(d[vis[0]] == 0) by {
                if vis0.len() > 0 {
                    assert(vis[0] == vis0[0]);
                } else {
                    assert(vis[0] == v);
                }
            }
            assert forall|x: usize| #[trigger] vis.contains(x) implies 0 <= d[x] <= self.last@ && gm.reachable(vis[0], x) by {
                if vis0.len() == 0 {
                    crate::view::lemma_reaches_refl(gm.adj(), v);
                } else {
                    assert(vis[0] == vis0[0]);
                }
            }
            assert forall|x: usize| #[trigger] d.dom().contains(x) <==> vis.contains(x) by {}
            if vis0.len() > 0 {
                lemma_visit_shortest(gm, vis0, d0, v, w as int);
            }
            assert forall|p: Seq<usize>, ws: Seq<u64>|
                #[trigger] is_weighted_walk(gm, p, ws) && p[0] == vis[0] && vis.contains(p.last())
                    implies d[p.last()] <= total_weight(ws) by {
                let x = p.last();
                lemma_total_prefix(ws, ws.len() as int);
                assert(ws.take(ws.len() as int) =~= ws);
                if x == v {
                    if vis0.len() > 0 {
                        assert(vis[0] == vis0[0]);
                    }
                } else {
                    assert(vis0.contains(x));
                    assert(vis[0] == vis0[0]);
                }
            }
        }
    }
}


impl<G: Graph<EdgeWeight = u64>> DijkstraShortestPaths<G> {
    /// Returns the lowest weight of the edges sourced in `so` and sinked in
    /// `si`, of which there must be one.
    pub fn shortest_edge_between<'b>(graph: &'b G, so: usize, si: usize) -> (r: &'b u64)
        requires
            graph.wf(),
            graph.model().between(so, si).len() > 0,
        ensures
            *r == min_weight(graph.model().between(so, si)),
    {
        let edges = graph.edges_between(so, si);
        let ghost s = deref_seq(edges@);
        let mut acc: &u64 = edges[0];
        proof {
            assert(s.take(1).len() == 1);
            assert(s.take(1)[0] == s[0]);
        }
        let mut i: usize = 1;
        while i < edges.len()
            invariant
                s == deref_seq(edges@),
                s.len() == edges@.len(),
                1 <= i <= edges@.len(),
                *acc == min_weight(s.take(i as int)),
            decreases edges.len() - i,
        {
            let w: &u64 = edges[i];
            proof {
                assert(s.take(i + 1).drop_last() =~= s.take(i as int));
                assert(s.take(i + 1).last() == *w);
            }
            if *acc < *w {
            } else {
                acc = w;
            }
            i += 1;
        }
        proof {
            assert(s.take(i as int) =~= s);
        }
        acc
    }

    /// Returns every vertex that can be reached from `start`, but `start`
    /// itself, each with its distance from `start`, in the order the
    /// algorithm visits them.
    pub fn distances(graph: &G, start: usize) -> (r: Vec<(usize, u64)>)
        requires
            graph.wf(),
            graph.model().has_vertex(start),
            sums_fit(graph.model(), start),
        ensures
            forall|i: int|
                0 <= i < r@.len() ==> (#[trigger] r@[i]).0 != start && graph.model().reachable(start, r@[i].0),
            forall|x: usize| #[trigger]
                graph.model().reachable(start, x) && x != start ==> exists|i: int| 0 <= i < r@.len() && r@[i].0 == x,
            forall|i: int, j: int| 0 <= i < j < r@.len() ==> r@[i].0 != r@[j].0 && r@[i].1 <= r@[j].1,
            forall|i: int|
                0 <= i < r@.len() ==> {
                    ||| graph.model().between(start, (#[trigger] r@[i]).0).len() > 0 && r@[i].1 == min_weight(
                        graph.model().between(start, r@[i].0),
                    )
                    ||| exists|j: int|
                        0 <= j < i && graph.model().between(r@[j].0, r@[i].0).len() > 0 && r@[i].1 == r@[j].1
                            + min_weight(graph.model().between(r@[j].0, r@[i].0))
                },
            forall|i: int, p: Seq<usize>, ws: Seq<u64>|
                0 <= i < r@.len() && #[trigger] is_weighted_walk(graph.model(), p, ws) && p[0] == start && p.last()
                    == (#[trigger] r@[i]).0 ==> r@[i].1 <= total_weight(ws),
    {
        let mut dists: Vec<(usize, u64)> = Vec::new();
        dists.push((start, 0));
        let mut out: Vec<(usize, u64)> = Vec::new();
        let mut dijk = Self::new(graph, start);
        proof {
            assert(out@ =~= dists@.skip(1));
        }
        loop
            invariant
                dijk.wf(graph),
                dijk.visited_seq()[0] == start,
                dists@.len() == dijk.visited_seq().len(),
                out@ == dists@.skip(1),
                forall|i: int|
                    0 <= i < dists@.len() ==> #[trigger] dists@[i] == (
                        dijk.visited_seq()[i],
                        dijk.dist()[dijk.visited_seq()[i]] as u64,
                    ),
                forall|i: int, j: int|
                    0 <= i < j < dijk.visited_seq().len() ==> dijk.dist()[dijk.visited_seq()[i]] <= dijk.dist()[dijk.visited_seq()[j]],
                forall|i: int|
                    0 < i < dijk.visited_seq().len() ==> exists|j: int|
                        0 <= j < i && graph.model().between(dijk.visited_seq()[j], #[trigger] dijk.visited_seq()[i]).len() > 0
                            && dijk.dist()[dijk.visited_seq()[i]] == dijk.dist()[dijk.visited_seq()[j]] + min_weight(
                            graph.model().between(dijk.visited_seq()[j], dijk.visited_seq()[i]),
                        ),
            ensures
                dijk.wf(graph),
                dijk.visited_seq()[0] == start,
                dists@.len() == dijk.visited_seq().len(),
                out@ == dists@.skip(1),
                forall|i: int|
                    0 <= i < dists@.len() ==> #[trigger] dists@[i] == (
                        dijk.visited_seq()[i],
                        dijk.dist()[dijk.visited_seq()[i]] as u64,
                    ),
                forall|i: int, j: int|
                    0 <= i < j < dijk.visited_seq().len() ==> dijk.dist()[dijk.visited_seq()[i]] <= dijk.dist()[dijk.visited_seq()[j]],
                forall|i: int|
                    0 < i < dijk.visited_seq().len() ==> exists|j: int|
                        0 <= j < i && graph.model().between(dijk.visited_seq()[j], #[trigger] dijk.visited_seq()[i]).len() > 0
                            && dijk.dist()[dijk.visited_seq()[i]] == dijk.dist()[dijk.visited_seq()[j]] + min_weight(
                            graph.model().between(dijk.visited_seq()[j], dijk.visited_seq()[i]),
                        ),
                forall|x: usize| #[trigger] graph.model().reachable(start, x) ==> dijk.visited_seq().contains(x),
            decreases graph.model().vertices.len() - dijk.visited_seq().len(),
        {
            let ghost pre = dijk;
            proof {
                pre.lemma_visited(graph);
            }
            match dijk.next(graph) {
                Some(step) => {
                    let (so, si, w) = step;
                    let ghost vis0 = pre.visited_seq();
                    let ghost d0 = pre.dist();
                    let ghost vis = dijk.visited_seq();
                    let ghost d = dijk.dist();
                    proof {
                        dijk.lemma_visited(graph);
                        let k = choose|k: int| 0 <= k < vis0.len() && vis0[k] == so;
                        assert(dists@[k] == (so, d0[so] as u64));
                    }
                    let dd = find_distance(&dists, so);
                    proof {
                        let k = choose|k: int| 0 <= k < dists@.len() && dists@[k] == (so, dd);
                        assert(vis0[k] == so);
                        assert(vis[vis0.len() as int] == si);
                        assert(vis.contains(si));
                        assert(d[si] == d0[so] + w);
                    }
                    let nd = dd + w;
                    let ghost dists0 = dists@;
                    dists.push((si, nd));
                    out.push((si, nd));
                    proof {
                        assert(out@ =~= dists@.skip(1));
                        assert forall|i: int| 0 <= i < dists@.len() implies #[trigger] dists@[i] == (vis[i], d[vis[i]] as u64) by {
                            if i < dists0.len() {
                                assert(dists@[i] == dists0[i]);
                                assert(vis[i] == vis0[i]);
                                assert(vis0.contains(vis0[i]));
                                assert(d[vis[i]] == d0[vis0[i]]);
                            }
                        }
                        assert forall|i: int, j: int| 0 <= i < j < vis.len() implies d[vis[i]] <= d[vis[j]] by {
                            assert(vis[i] == vis0[i]);
                            assert(vis0.contains(vis0[i]));
                            assert(d0.dom().contains(vis0[i]));
                            if j < vis0.len() {
                                assert(vis[j] == vis0[j]);
                                assert(vis0.contains(vis0[j]));
                                assert(d0[vis0[i]] <= d0[vis0[j]]);
                            } else {
                                assert(vis[j] == si);
                                assert(d0[vis0[i]] <= d0[so] + w);
                            }
                        }
                        assert forall|i: int| 0 < i < vis.len() implies exists|j: int|
                            0 <= j < i && graph.model().between(vis[j], #[trigger] vis[i]).len() > 0 && d[vis[i]]
                                == d[vis[j]] + min_weight(graph.model().between(vis[j], vis[i])) by {
                            if i < vis0.len() {
                                assert(vis[i] == vis0[i]);
                                let j = choose|j: int|
                                    0 <= j < i && graph.model().between(#[trigger] vis0[j], vis0[i]).len() > 0 && d0[vis0[i]]
                                        == d0[vis0[j]] + min_weight(graph.model().between(vis0[j], vis0[i]));
                                assert(vis[j] == vis0[j]);
                                assert(vis0.contains(vis0[i]));
                                assert(vis0.contains(vis0[j]));
                            } else {
                                let k = choose|k: int| 0 <= k < vis0.len() && vis0[k] == so;
                                assert(vis[k] == so);
                            }
                        }
                    }
                },
                None => {
                    break;
                },
            }
        }
        proof {
            dijk.lemma_visited(graph);
            let vis = dijk.visited_seq();
            let d = dijk.dist();
            assert forall|i: int| 0 <= i < out@.len() implies (#[trigger] out@[i]).0 != start && graph.model().reachable(start, out@[i].0) by {
                assert(out@[i] == dists@[i + 1]);
                assert(vis.contains(vis[i + 1]));
            }
            assert forall|x: usize| #[trigger] graph.model().reachable(start, x) && x != start implies exists|i: int|
                0 <= i < out@.len() && out@[i].0 == x by {
                let k = choose|k: int| 0 <= k < vis.len() && vis[k] == x;
                assert(out@[k - 1] == dists@[k]);
            }
            assert forall|i: int, j: int| 0 <= i < j < out@.len() implies out@[i].0 != out@[j].0 && out@[i].1 <= out@[j].1 by {
                assert(out@[i] == dists@[i + 1]);
                assert(out@[j] == dists@[j + 1]);
                assert(vis.contains(vis[i + 1]));
                assert(vis.contains(vis[j + 1]));
            }
            assert forall|i: int| 0 <= i < out@.len() implies {
                ||| graph.model().between(start, (#[trigger] out@[i]).0).len() > 0 && out@[i].1 == min_weight(
                    graph.model().between(start, out@[i].0),
                )
                ||| exists|j: int|
                    0 <= j < i && graph.model().between(out@[j].0, out@[i].0).len() > 0 && out@[i].1 == out@[j].1
                        + min_weight(graph.model().between(out@[j].0, out@[i].0))
            } by {
                let ii = i + 1;
                assert(out@[i] == dists@[ii]);
                assert(vis.contains(vis[ii]));
                let j = choose|j: int|
                    0 <= j < ii && graph.model().between(#[trigger] vis[j], vis[ii]).len() > 0 && d[vis[ii]]
                        == d[vis[j]] + min_weight(graph.model().between(vis[j], vis[ii]));
                assert(vis.contains(vis[j]));
                if j > 0 {
                    assert(out@[j - 1] == dists@[j]);
                }
            }
            assert forall|i: int, p: Seq<usize>, ws: Seq<u64>|
                0 <= i < out@.len() && #[trigger] is_weighted_walk(graph.model(), p, ws) && p[0] == start && p.last()
                    == (#[trigger] out@[i]).0 implies out@[i].1 <= total_weight(ws) by {
                assert(out@[i] == dists@[i + 1]);
                assert(vis.contains(vis[i + 1]));
            }
        }
        out
    }
}

/// Returns the distance recorded for `v`, which must have one.
fn find_distance(dists: &Vec<(usize, u64)>, v: usize) -> (r: u64)
    requires
        exists|i: int| 0 <= i < dists@.len() && dists@[i].0 == v,
    ensures
        exists|i: int| 0 <= i < dists@.len() && dists@[i] == (v, r),
{
    let mut i: usize = 0;
    while i < dists.len()
        invariant
            i <= dists@.len(),
            exists|j: int| i <= j < dists@.len() && dists@[j].0 == v,
        decreases dists.len() - i,
    {
        if dists[i].0 == v {
            return dists[i].1;
        }
        i += 1;
    }
    0
}

impl<G: Graph<EdgeWeight = u64>> UnretainedIterator<G> for DijkstraShortestPaths<G> {
    type Item = (usize, usize, u64);

    open spec fn fits(&self, g: &G) -> bool {
        self.wf(g)
    }

    /// One step visits the unvisited vertex closest to the start, reached by
    /// an edge of the lowest weight between its source and it, and returns
    /// that edge; or, when every vertex that can be reached has been visited,
    /// returns `None` and changes nothing.
    open spec fn step(&self, graph: &G, r: Option<(usize, usize, u64)>, next: &Self) -> bool {
        match r {
            Some((so, si, w)) => {
                &&& self.visited_seq().contains(so)
                &&& !self.visited_seq().contains(si)
                &&& next.visited_seq() == self.visited_seq().push(si)
                &&& graph.model().between(so, si).len() > 0
                &&& w == min_weight(graph.model().between(so, si))
                &&& next.dist() == self.dist().insert(si, self.dist()[so] + w)
                &&& forall|x: usize|
                    #[trigger] self.dist().dom().contains(x) ==> self.dist()[x] <= self.dist()[so] + w
                &&& forall|u: usize, x: usize, y: u64|
                    self.visited_seq().contains(u) && !self.visited_seq().contains(x)
                        && #[trigger] graph.model().between(u, x).contains(y) ==> self.dist()[so] + w
                        <= self.dist()[u] + y
                &&& forall|p: Seq<usize>, ws: Seq<u64>|
                    #[trigger] is_weighted_walk(graph.model(), p, ws) && p[0] == self.visited_seq()[0]
                        && p.last() == si ==> self.dist()[so] + w <= total_weight(ws)
            },
            None => {
                &&& next.visited_seq() == self.visited_seq()
                &&& next.dist() == self.dist()
                &&& forall|x: usize| #[trigger]
                    graph.model().reachable(self.visited_seq()[0], x) ==> self.visited_seq().contains(x)
            },
        }
    }

    /// Visits the unvisited vertex closest to the start and returns the edge
    /// it is reached by: its source, its sink and its weight, the lowest of
    /// the edges between them. Returns `None` when every vertex that can be
    /// reached has been visited.
    fn next(&mut self, graph: &G) -> (r: Option<(usize, usize, u64)>)
    {
        let ghost pre = *self;
        match self.queue.pop() {
            None => {
                proof {
                    pre.lemma_closed(graph);
                }
                None
            },
            Some(entry) => {
                let (weight, (so, si)) = entry;
                proof {
                    assert(self.queue@ =~= pre.queue@.drop_last());
                    Self::lemma_popped(pre, *self, graph);
                    Self::lemma_popped_lowest(pre, graph);
                }
                self.visit(graph, si, weight);
                let w = *Self::shortest_edge_between(graph, so, si);
                proof {
                    assert(self.visited@[0] == pre.visited@[0]);
                    assert(self.visited@.contains(si)) by {
                        assert(self.visited@[pre.visited@.len() as int] == si);
                    }
                }
                Some((so, si, w))
            },
        }
    }
}

impl<G: Graph<EdgeWeight = u64>> DijkstraShortestPaths<G> {
    /// With an empty queue, every vertex that can be reached from the start
    /// has been visited.
    proof fn lemma_closed(&self, g: &G)
        requires
            self.wf(g),
            self.queue@.len() == 0,
        ensures
            forall|x: usize| #[trigger] g.model().reachable(self.visited@[0], x) ==> self.visited@.contains(x),
    {
        let gm = g.model();
        let vis = self.visited@;
        let q = self.queue@;
        let d = self.dist@;
        let s = vis.to_set();
        assert forall|a: usize, b: usize| s.contains(a) && #[trigger] gm.adj()(a, b) implies s.contains(b) by {
            assert(gm.adjacent(a, b));
            let y = gm.between(a, b)[0];
            assert(gm.between(a, b).contains(y));
            if !vis.contains(b) {
                assert(offered(q, b, d[a] + y));
            }
        }
        assert forall|x: usize| #[trigger] gm.reachable(vis[0], x) implies vis.contains(x) by {
            assert(vis.contains(vis[0]));
            crate::view::lemma_reaches_closed(gm.adj(), s, vis[0], x);
        }
    }

    /// Popping the lowest entry of the queue leaves the state ready to visit
    /// its sink at its distance.
    proof fn lemma_popped(pre: Self, post: Self, g: &G)
        requires
            pre.wf(g),
            pre.queue@.len() > 0,
            post.queue@ == pre.queue@.drop_last(),
            post.visited == pre.visited,
            post.dist == pre.dist,
            post.last == pre.last,
        ensures
            post.ready_to_visit(g, pre.queue@.last().1.1, pre.queue@.last().0),
            pre.visited@.contains(pre.queue@.last().1.0),
            !pre.visited@.contains(pre.queue@.last().1.1),
            g.model().between(pre.queue@.last().1.0, pre.queue@.last().1.1).len() > 0,
    {
        Self::lemma_popped_queue(pre, post, g);
        Self::lemma_popped_visited(pre, post, g);
        Self::lemma_popped_lowest(pre, g);
    }

    /// What popping the lowest entry of the queue leaves of the queue.
    #[verifier::rlimit(100)]
    #[verifier::spinoff_prover]
    proof fn lemma_popped_queue(pre: Self, post: Self, g: &G)
        requires
            pre.wf(g),
            pre.queue@.len() > 0,
            post.queue@ == pre.queue@.drop_last(),
            post.visited == pre.visited,
            post.dist == pre.dist,
        ensures
            ({
                let gm = g.model();
                let q1 = post.queue@;
                let vis = post.visited@;
                let d = post.dist@;
                let (weight, (so, si)) = pre.queue@.last();
                &&& sinks_distinct(q1)
                &&& forall|i: int|
                    0 <= i < q1.len() ==> entry_ok(gm, vis, d, weight as int, u64::MAX as int, #[trigger] q1[i]) && q1[i].1.1
                        != si
                &&& forall|u: usize, x: usize, y: u64|
                    vis.contains(u) && !vis.contains(x) && x != si && #[trigger] gm.between(u, x).contains(y)
                        ==> offered(q1, x, d[u] + y)
                &&& entry_ok(gm, vis, d, pre.last@, u64::MAX as int, pre.queue@.last())
            }),
    {
        let gm = g.model();
        let q = pre.queue@;
        let vis = pre.visited@;
        let d = pre.dist@;
        let li = q.len() - 1;
        let si = q[li].1.1;
        assert(entry_ok(gm, vis, d, pre.last@, u64::MAX as int, q[li]));
        let q1 = post.queue@;
        assert forall|i: int| 0 <= i < q1.len() implies entry_ok(gm, vis, d, q[li].0 as int, u64::MAX as int, #[trigger] q1[i])
            && q1[i].1.1 != si by {
            assert(q1[i] == q[i]);
            assert(entry_ok(gm, vis, d, pre.last@, u64::MAX as int, q[i]));
            assert(q[i].0 >= q[li].0);
            assert(q[i].1.1 != q[li].1.1);
        }
        assert forall|u: usize, x: usize, y: u64|
            vis.contains(u) && !vis.contains(x) && x != si && #[trigger] gm.between(u, x).contains(y)
                implies offered(q1, x, d[u] + y) by {
            assert(offered(q, x, d[u] + y));
            let i = choose|i: int| 0 <= i < q.len() && q[i].1.1 == x && q[i].0 <= d[u] + y;
            assert(q1[i] == q[i]);
        }
        assert forall|i: int, j: int| 0 <= i < j < q1.len() implies q1[i].1.1 != q1[j].1.1 by {
            assert(q1[i] == q[i]);
            assert(q1[j] == q[j]);
        }
    }

    /// What popping the lowest entry of the queue leaves of the visited
    /// vertices.
    proof fn lemma_popped_visited(pre: Self, post: Self, g: &G)
        requires
            pre.wf(g),
            pre.queue@.len() > 0,
            post.queue@ == pre.queue@.drop_last(),
            post.visited == pre.visited,
            post.dist == pre.dist,
        ensures
            post.visited_ok(g, pre.queue@.last().0 as int),
            g.model().has_vertex(pre.queue@.last().1.1),
            g.model().reachable(pre.visited@[0], pre.queue@.last().1.1),
            walk_weighing(g.model(), pre.visited@[0], pre.queue@.last().1.1, pre.queue@.last().0 as int),
            pre.visited@.contains(pre.queue@.last().1.0),
            !pre.visited@.contains(pre.queue@.last().1.1),
            g.model().between(pre.queue@.last().1.0, pre.queue@.last().1.1).len() > 0,
    {
        let gm = g.model();
        let q = pre.queue@;
        let vis = pre.visited@;
        let d = pre.dist@;
        let li = q.len() - 1;
        let weight = q[li].0;
        let so = q[li].1.0;
        let si = q[li].1.1;
        assert(entry_ok(gm, vis, d, pre.last@, u64::MAX as int, q[li]));
        assert(gm.between(so, si).contains((weight - d[so]) as u64));
        assert(gm.has_vertex(si));
        assert forall|x: usize| #[trigger] vis.contains(x) implies 0 <= d[x] <= weight && gm.reachable(vis[0], x) by {}
        assert(gm.reachable(vis[0], so));
        assert(gm.adjacent(so, si));
        crate::view::lemma_reaches_step(gm.adj(), vis[0], so, si);
        assert(walk_weighing(gm, vis[0], si, weight as int)) by {
            assert(walk_weighing(gm, vis[0], so, d[so]));
            reveal(walk_weighing);
            let (p, ws) = choose|p: Seq<usize>, ws: Seq<u64>|
                is_weighted_walk(gm, p, ws) && p[0] == vis[0] && p.last() == so && total_weight(ws) == d[so];
            let ew = (weight - d[so]) as u64;
            let p2 = p.push(si);
            let ws2 = ws.push(ew);
            assert forall|i: int| 0 <= i < ws2.len() implies gm.between(p2[i], p2[i + 1]).contains(#[trigger] ws2[i]) by {
                if i < ws.len() {
                    assert(p2[i] == p[i] && p2[i + 1] == p[i + 1] && ws2[i] == ws[i]);
                } else {
                    assert(p2[i] == so && p2[i + 1] == si && ws2[i] == ew);
                }
            }
            assert(is_weighted_walk(gm, p2, ws2));
            assert(ws2.drop_last() =~= ws);
            assert(total_weight(ws2) == weight);
        }
    }

    /// The lowest entry of the queue is made for the lowest edge between its
    /// ends, and offers the lowest distance of every edge from a visited
    /// vertex to an unvisited one.
    proof fn lemma_popped_lowest(pre: Self, g: &G)
        requires
            pre.wf(g),
            pre.queue@.len() > 0,
        ensures
            ({
                let (weight, (so, si)) = pre.queue@.last();
                &&& pre.dist@[so] + min_weight(g.model().between(so, si)) == weight
                &&& forall|u: usize, x: usize, y: u64|
                    pre.visited@.contains(u) && !pre.visited@.contains(x) && #[trigger] g.model().between(u, x).contains(y)
                        ==> weight <= pre.dist@[u] + y
                &&& forall|x: usize| #[trigger] pre.dist@.dom().contains(x) ==> pre.dist@[x] <= weight
            }),
    {
        let gm = g.model();
        let q = pre.queue@;
        let vis = pre.visited@;
        let d = pre.dist@;
        let li = q.len() - 1;
        let (weight, (so, si)) = q[li];
        assert(entry_ok(gm, vis, d, pre.last@, u64::MAX as int, q[li]));
        let ew = (weight - d[so]) as u64;
        assert forall|k: int| 0 <= k < gm.between(so, si).len() implies ew <= #[trigger] gm.between(so, si)[k] by {
            let y = gm.between(so, si)[k];
            assert(gm.between(so, si).contains(y));
            assert(offered(q, si, d[so] + y));
            let i = choose|i: int| 0 <= i < q.len() && q[i].1.1 == si && q[i].0 <= d[so] + y;
            if i != li {
                assert(q[i].1.1 != q[li].1.1);
            }
        }
        lemma_min_weight_unique(gm.between(so, si), ew);
        assert forall|u: usize, x: usize, y: u64|
            vis.contains(u) && !vis.contains(x) && #[trigger] gm.between(u, x).contains(y) implies weight <= d[u] + y by {
            assert(offered(q, x, d[u] + y));
            let i = choose|i: int| 0 <= i < q.len() && q[i].1.1 == x && q[i].0 <= d[u] + y;
            assert(q[i].0 >= q[li].0);
        }
    }

    /// What the invariant says of the visited vertices and their distances.
    pub proof fn lemma_visited(&self, g: &G)
        requires
            self.wf(g),
        ensures
            0 < self.visited_seq().len() <= g.model().vertices.len(),
            self.visited_seq().no_duplicates(),
            forall|i: int| 0 <= i < self.visited_seq().len() ==> g.model().has_vertex(#[trigger] self.visited_seq()[i]),
            forall|x: usize| #[trigger] self.dist().dom().contains(x) <==> self.visited_seq().contains(x),
            self.dist()[self.visited_seq()[0]] == 0,
            forall|x: usize| #[trigger]
                self.visited_seq().contains(x) ==> 0 <= self.dist()[x] <= u64::MAX && g.model().reachable(
                    self.visited_seq()[0],
                    x,
                ),
            forall|p: Seq<usize>, ws: Seq<u64>|
                #[trigger] is_weighted_walk(g.model(), p, ws) && p[0] == self.visited_seq()[0]
                    && self.visited_seq().contains(p.last()) ==> self.dist()[p.last()] <= total_weight(ws),
    {
        let gm = g.model();
        let vis = self.visited@;
        let n = gm.vertices.len();
        g.lemma_wf();
        assert forall|i: int| 0 <= i < vis.len() implies gm.vertices.contains(#[trigger] vis[i]) by {
            gm.lemma_vertices(vis[i]);
        }
        crate::view::lemma_nodup_subseq_len(vis, gm.vertices);
    }
}

/// Shortest-path-first search: visits the vertices that can be reached from
/// a start in order of their distance from it. The start itself is never
/// returned.
pub struct Spfs<G: Graph<EdgeWeight = u64>> {
    dijk: DijkstraShortestPaths<G>,
}

impl<G: Graph<EdgeWeight = u64>> Spfs<G> {
    /// The underlying shortest paths algorithm.
    pub closed spec fn dijkstra(&self) -> DijkstraShortestPaths<G> {
        self.dijk
    }

    /// Starts a search of `graph` from `start`.
    pub fn new(graph: &G, start: usize) -> (r: Self)
        requires
            graph.wf(),
            graph.model().has_vertex(start),
            sums_fit(graph.model(), start),
        ensures
            r.dijkstra().wf(graph),
            r.dijkstra().visited_seq() == seq![start],
            r.dijkstra().dist() == Map::<usize, int>::empty().insert(start, 0),
    {
        Spfs { dijk: DijkstraShortestPaths::new(graph, start) }
    }
}

impl<G: Graph<EdgeWeight = u64>> UnretainedIterator<G> for Spfs<G> {
    type Item = usize;

    open spec fn fits(&self, g: &G) -> bool {
        self.dijkstra().wf(g)
    }

    /// One step visits the unvisited vertex closest to the start and
    /// returns it; or, when every vertex that can be reached has been
    /// visited, returns `None` and changes nothing.
    open spec fn step(&self, g: &G, r: Option<usize>, next: &Self) -> bool {
        match r {
            Some(v) => {
                &&& !self.dijkstra().visited_seq().contains(v)
                &&& next.dijkstra().visited_seq() == self.dijkstra().visited_seq().push(v)
                &&& next.dijkstra().dist() == self.dijkstra().dist().insert(v, next.dijkstra().dist()[v])
                &&& forall|u: usize, x: usize, y: u64|
                    self.dijkstra().visited_seq().contains(u) && !self.dijkstra().visited_seq().contains(x)
                        && #[trigger] g.model().between(u, x).contains(y) ==> next.dijkstra().dist()[v]
                        <= self.dijkstra().dist()[u] + y
                &&& forall|p: Seq<usize>, ws: Seq<u64>|
                    #[trigger] is_weighted_walk(g.model(), p, ws) && p[0] == self.dijkstra().visited_seq()[0]
                        && p.last() == v ==> next.dijkstra().dist()[v] <= total_weight(ws)
            },
            None => {
                &&& next.dijkstra().visited_seq() == self.dijkstra().visited_seq()
                &&& next.dijkstra().dist() == self.dijkstra().dist()
                &&& forall|x: usize| #[trigger]
                    g.model().reachable(self.dijkstra().visited_seq()[0], x) ==> self.dijkstra().visited_seq().contains(x)
            },
        }
    }

    /// Returns the unvisited vertex closest to the start, or `None` when every
    /// vertex that can be reached has been returned.
    fn next(&mut self, g: &G) -> (r: Option<usize>) {
        match self.dijk.next(g) {
            Some(e) => Some(e.1),
            None => None,
        }
    }
}

} // verus!
