//! Tarjan's algorithm for the strongly connected components of a graph.
//!
//! A depth-first traversal visits the vertices, and each visited vertex is
//! pushed on a component stack with a lowlink value: the lowest position on
//! the stack it is known to reach, initially its own position. When the
//! traversal is finished visiting a vertex, the lowlink values of the vertices
//! it has edges to, if they are still on the stack, lower its own. If its
//! lowlink value is then still its own position, it is the root of a
//! component, which is popped off the stack and returned with all vertices
//! above it. When the traversal can reach no more vertices, it continues from
//! the first vertex that has not been visited, until every vertex has been.
use crate::algo::dfs::{pushed_by_parent, reached_from, stack_vertices, Dfs};
use crate::constraint::NonNull;
use crate::graph::Graph;
use crate::view::{
    deref_pairs, lemma_reaches_closed, lemma_reaches_refl, lemma_reaches_step, lemma_reaches_trans, GraphView,
};
use vstd::prelude::*;

verus! {

/// Whether the entry at `p` of a traversal stack is marked to be exited and
/// holds a visited vertex: a vertex that is being visited and not yet exited.
spec fn is_active(st: Seq<(usize, bool)>, vis: Seq<usize>, p: int) -> bool {
    0 <= p < st.len() && st[p].1 && vis.contains(st[p].0)
}

/// Whether `v` is on the component stack.
spec fn on_stack(t: Seq<(usize, usize)>, v: usize) -> bool {
    exists|i: int| 0 <= i < t.len() && t[i].0 == v
}

/// Whether there is a path from `u` to `w` in `gm`.
#[verifier::opaque]
spec fn path<Vw, Ew>(gm: GraphView<Vw, Ew>, u: usize, w: usize) -> bool {
    gm.reachable(u, w)
}

proof fn lemma_path_refl<Vw, Ew>(gm: GraphView<Vw, Ew>, u: usize)
    ensures
        path(gm, u, u),
{
    reveal(path);
    lemma_reaches_refl(gm.adj(), u);
}

proof fn lemma_path_trans<Vw, Ew>(gm: GraphView<Vw, Ew>, u: usize, x: usize, w: usize)
    requires
        path(gm, u, x),
        path(gm, x, w),
    ensures
        path(gm, u, w),
{
    reveal(path);
    lemma_reaches_trans(gm.adj(), u, x, w);
}

proof fn lemma_path_edge<Vw, Ew>(gm: GraphView<Vw, Ew>, u: usize, x: usize, w: usize)
    requires
        path(gm, u, x),
        gm.adjacent(x, w),
    ensures
        path(gm, u, w),
{
    reveal(path);
    lemma_reaches_step(gm.adj(), u, x, w);
}

/// Whether the vertex at position `j` of the component stack has a path to
/// the vertex at the position of its lowlink value.
spec fn lowlink_path<Vw, Ew>(gm: GraphView<Vw, Ew>, t: Seq<(usize, usize)>, j: int) -> bool {
    path(gm, t[j].0, t[t[j].1 as int].0)
}

/// Whether `v` is being visited: some entry of the traversal stack holding
/// it is active.
spec fn being_visited(st: Seq<(usize, bool)>, vis: Seq<usize>, v: usize) -> bool {
    exists|p: int| is_active(st, vis, p) && st[p].0 == v
}

/// Whether no vertex strictly between positions `a` and `j` of the
/// component stack is being visited.
spec fn none_active_between(st: Seq<(usize, bool)>, vis: Seq<usize>, t: Seq<(usize, usize)>, a: int, j: int) -> bool {
    forall|i: int| a < i < j ==> !being_visited(st, vis, (#[trigger] t[i]).0)
}

/// Following lowlink values down the component stack from position `j`
/// leads to the root at `k`, or to a vertex being visited below it, which
/// reaches the root: so every vertex on the stack reaches the root.
proof fn lemma_reaches_root<Vw, Ew>(
    gm: GraphView<Vw, Ew>,
    st: Seq<(usize, bool)>,
    vis: Seq<usize>,
    t: Seq<(usize, usize)>,
    k: int,
    j: int,
)
    requires
        0 <= k < t.len(),
        0 <= j < t.len(),
        t[k].1 == k,
        forall|i: int| 0 <= i < t.len() ==> (#[trigger] t[i]).1 <= i,
        forall|i: int| 0 <= i < t.len() ==> #[trigger] lowlink_path(gm, t, i),
        forall|i: int|
            0 <= i < t.len() && i != k && (#[trigger] t[i]).1 == i ==> i < k && being_visited(st, vis, t[i].0),
        forall|i: int|
            0 <= i < k && being_visited(st, vis, (#[trigger] t[i]).0) ==> path(gm, t[i].0, t[k].0),
    ensures
        path(gm, t[j].0, t[k].0),
    decreases j,
{
    if j == k {
        lemma_path_refl(gm, t[k].0);
    } else if t[j].1 == j {
        assert(j < k && being_visited(st, vis, t[j].0));
    } else if j < k && being_visited(st, vis, t[j].0) {
    } else {
        let l = t[j].1 as int;
        assert(l < j);
        assert(lowlink_path(gm, t, j));
        lemma_reaches_root(gm, st, vis, t, k, l);
        lemma_path_trans(gm, t[j].0, t[l].0, t[k].0);
    }
}

/// Every neighbor of a visited vertex that is no longer being visited has
/// been visited.
#[verifier::opaque]
spec fn finished_closed<Vw, Ew>(gm: GraphView<Vw, Ew>, st: Seq<(usize, bool)>, vis: Seq<usize>) -> bool {
    forall|u: usize, w: usize|
        vis.contains(u) && !being_visited(st, vis, u) && #[trigger] gm.adjacent(u, w) ==> vis.contains(w)
}

/// The lowlink value of every vertex on the component stack that is no
/// longer being visited, but for the one at position `k`, is at most the
/// position of any of its neighbors there.
#[verifier::opaque]
spec fn lowlink_bounded<Vw, Ew>(
    gm: GraphView<Vw, Ew>,
    st: Seq<(usize, bool)>,
    vis: Seq<usize>,
    t: Seq<(usize, usize)>,
    k: int,
) -> bool {
    forall|j: int, i: int|
        0 <= j < t.len() && 0 <= i < t.len() && j != k && !being_visited(st, vis, t[j].0)
            && #[trigger] gm.adjacent(t[j].0, t[i].0) ==> t[j].1 <= i
}

/// Consecutive vertices being visited on the component stack are joined by
/// an edge.
#[verifier::opaque]
spec fn active_linked<Vw, Ew>(gm: GraphView<Vw, Ew>, st: Seq<(usize, bool)>, vis: Seq<usize>, t: Seq<(usize, usize)>) -> bool {
    forall|a: int, b: int|
        #![trigger t[a], t[b]]
        0 <= a < b < t.len() && being_visited(st, vis, t[a].0) && being_visited(st, vis, t[b].0)
            && none_active_between(st, vis, t, a, b) ==> gm.adjacent(t[a].0, t[b].0)
}

/// A vertex being visited on the component stack has, for every vertex
/// below position `lim` above it that is no longer being visited, with none
/// being visited in between, an edge to a vertex in between that is no
/// longer being visited and whose lowlink value is no higher.
#[verifier::opaque]
spec fn finished_linked<Vw, Ew>(
    gm: GraphView<Vw, Ew>,
    st: Seq<(usize, bool)>,
    vis: Seq<usize>,
    t: Seq<(usize, usize)>,
    lim: int,
) -> bool {
    forall|a: int, j: int|
        #![trigger t[a], t[j]]
        0 <= a < j < lim && being_visited(st, vis, t[a].0) && !being_visited(st, vis, t[j].0)
            && none_active_between(st, vis, t, a, j) ==> exists|c: int|
            a < c <= j && !being_visited(st, vis, t[c].0) && gm.adjacent(t[a].0, t[c].0) && t[c].1 <= t[j].1
}

/// The vertex at position `k` of the component stack has, for every vertex
/// above it, an edge to a vertex in between whose lowlink value is no
/// higher.
#[verifier::opaque]
spec fn linked_above<Vw, Ew>(gm: GraphView<Vw, Ew>, t: Seq<(usize, usize)>, k: int) -> bool {
    forall|j: int| k < j < t.len() ==> #[trigger] lowered_from(gm, t, k, j)
}

/// The vertex at position `k` of the component stack has an edge to a
/// vertex above it, up to position `j`, whose lowlink value is no higher
/// than that at `j`.
spec fn lowered_from<Vw, Ew>(gm: GraphView<Vw, Ew>, t: Seq<(usize, usize)>, k: int, j: int) -> bool {
    exists|c: int| k < c <= j && gm.adjacent(t[k].0, t[c].0) && t[c].1 <= t[j].1
}

/// The vertex being visited next below position `k` of the component stack
/// has an edge to the vertex at `k`.
#[verifier::opaque]
spec fn parent_linked<Vw, Ew>(gm: GraphView<Vw, Ew>, st: Seq<(usize, bool)>, vis: Seq<usize>, t: Seq<(usize, usize)>, k: int) -> bool {
    forall|a: int|
        0 <= a < k && being_visited(st, vis, (#[trigger] t[a]).0) && none_active_between(st, vis, t, a, k)
            ==> gm.adjacent(t[a].0, t[k].0)
}

/// Every vertex with an edge from a vertex of `e` is in `e`.
#[verifier::opaque]
spec fn edge_closed<Vw, Ew>(gm: GraphView<Vw, Ew>, e: Set<usize>) -> bool {
    forall|u: usize, w: usize| e.contains(u) && #[trigger] gm.adjacent(u, w) ==> e.contains(w)
}

/// Pushing a newly visited vertex `v` on the component stack keeps what is
/// known of the order.
proof fn lemma_push_order<Vw, Ew>(
    gm: GraphView<Vw, Ew>,
    s0: Seq<(usize, bool)>,
    s1: Seq<(usize, bool)>,
    vis0: Seq<usize>,
    vis1: Seq<usize>,
    t0: Seq<(usize, usize)>,
    t1: Seq<(usize, usize)>,
    v: usize,
)
    requires
        t0.len() <= usize::MAX,
        t1 == t0.push((v, t0.len() as usize)),
        !vis0.contains(v),
        forall|y: usize| #[trigger] vis1.contains(y) <==> vis0.contains(y) || y == v,
        forall|u: usize| #[trigger] being_visited(s1, vis1, u) <==> being_visited(s0, vis0, u) || u == v,
        forall|i: int| 0 <= i < t0.len() ==> vis0.contains((#[trigger] t0[i]).0),
        forall|a: int|
            0 <= a < t0.len() && being_visited(s0, vis0, (#[trigger] t0[a]).0) && none_active_between(
                s0,
                vis0,
                t0,
                a,
                t0.len() as int,
            ) ==> gm.adjacent(t0[a].0, v),
        finished_closed(gm, s0, vis0),
        lowlink_bounded(gm, s0, vis0, t0, -1),
        active_linked(gm, s0, vis0, t0),
        finished_linked(gm, s0, vis0, t0, t0.len() as int),
    ensures
        finished_closed(gm, s1, vis1),
        lowlink_bounded(gm, s1, vis1, t1, -1),
        active_linked(gm, s1, vis1, t1),
        finished_linked(gm, s1, vis1, t1, t1.len() as int),
{
    let len = t0.len() as int;
    assert forall|i: int| 0 <= i < len implies (#[trigger] t0[i]).0 != v && t1[i] == t0[i] by {}
    assert(t1[len] == (v, len as usize));
    assert forall|a: int, j: int| 0 <= a && j <= len && #[trigger] none_active_between(s1, vis1, t1, a, j)
        implies none_active_between(s0, vis0, t0, a, j) by {
        assert forall|i: int| a < i < j implies !being_visited(s0, vis0, (#[trigger] t0[i]).0) by {
            assert(t1[i] == t0[i]);
        }
    }
    assert(finished_closed(gm, s1, vis1)) by {
        reveal(finished_closed);
        assert forall|u: usize, w: usize|
            vis1.contains(u) && !being_visited(s1, vis1, u) && #[trigger] gm.adjacent(u, w) implies vis1.contains(w) by {
            assert(vis0.contains(u) && !being_visited(s0, vis0, u));
        }
    }
    assert(lowlink_bounded(gm, s1, vis1, t1, -1)) by {
        reveal(lowlink_bounded);
        reveal(finished_closed);
        assert forall|j: int, i: int|
            0 <= j < t1.len() && 0 <= i < t1.len() && j != -1 && !being_visited(s1, vis1, t1[j].0)
                && #[trigger] gm.adjacent(t1[j].0, t1[i].0) implies t1[j].1 <= i by {
            assert(j < len);
            assert(vis0.contains(t0[j].0));
            assert(!being_visited(s0, vis0, t0[j].0));
            if i == len {
                assert(gm.adjacent(t0[j].0, v));
            }
            assert(gm.adjacent(t0[j].0, t0[i].0));
        }
    }
    assert(active_linked(gm, s1, vis1, t1)) by {
        reveal(active_linked);
        assert forall|a: int, b: int|
            #![trigger t1[a], t1[b]]
            0 <= a < b < t1.len() && being_visited(s1, vis1, t1[a].0) && being_visited(s1, vis1, t1[b].0)
                && none_active_between(s1, vis1, t1, a, b) implies gm.adjacent(t1[a].0, t1[b].0) by {
            assert(being_visited(s0, vis0, t0[a].0));
            assert(none_active_between(s0, vis0, t0, a, b));
            if b < len {
                assert(being_visited(s0, vis0, t0[b].0));
                assert(gm.adjacent(t0[a].0, t0[b].0));
            } else {
                assert(gm.adjacent(t0[a].0, v));
            }
        }
    }
    assert(finished_linked(gm, s1, vis1, t1, t1.len() as int)) by {
        reveal(finished_linked);
        assert forall|a: int, j: int|
            #![trigger t1[a], t1[j]]
            0 <= a < j < t1.len() && being_visited(s1, vis1, t1[a].0) && !being_visited(s1, vis1, t1[j].0)
                && none_active_between(s1, vis1, t1, a, j) implies exists|c: int|
                a < c <= j && !being_visited(s1, vis1, t1[c].0) && gm.adjacent(t1[a].0, t1[c].0) && t1[c].1 <= t1[j].1 by {
            assert(j < len);
            assert(being_visited(s0, vis0, t0[a].0));
            assert(!being_visited(s0, vis0, t0[j].0));
            assert(none_active_between(s0, vis0, t0, a, j));
            let c = choose|c: int|
                a < c <= j && !being_visited(s0, vis0, t0[c].0) && gm.adjacent(t0[a].0, t0[c].0) && t0[c].1 <= t0[j].1;
            assert(t1[c] == t0[c]);
            assert(!being_visited(s1, vis1, t1[c].0));
        }
    }
}

/// When the vertices returned before a component, and those together with
/// the component, are each closed under edges, every edge from the component
/// leads into it or to a vertex returned before, and every vertex that the
/// component reaches and that reaches it back is in it.
proof fn lemma_maximal<Vw, Ew>(gm: GraphView<Vw, Ew>, before: Set<usize>, scc: Seq<usize>)
    requires
        edge_closed(gm, before),
        edge_closed(gm, before.union(scc.to_set())),
        forall|i: int| 0 <= i < scc.len() ==> !before.contains(#[trigger] scc[i]),
    ensures
        forall|a: int, w: usize|
            0 <= a < scc.len() && #[trigger] gm.adjacent(scc[a], w) ==> scc.contains(w) || before.contains(w),
        forall|a: int, y: usize|
            0 <= a < scc.len() && #[trigger] gm.reachable(scc[a], y) && gm.reachable(y, scc[a]) ==> scc.contains(y),
{
    reveal(edge_closed);
    let after = before.union(scc.to_set());
    assert forall|a: int, w: usize| 0 <= a < scc.len() && #[trigger] gm.adjacent(scc[a], w) implies scc.contains(w)
        || before.contains(w) by {
        assert(scc.to_set().contains(scc[a]));
        assert(after.contains(w));
        if !before.contains(w) {
            assert(scc.to_set().contains(w));
        }
    }
    assert forall|a: int, y: usize|
        0 <= a < scc.len() && #[trigger] gm.reachable(scc[a], y) && gm.reachable(y, scc[a]) implies scc.contains(y) by {
        assert(scc.to_set().contains(scc[a]));
        assert forall|u: usize, w: usize| after.contains(u) && #[trigger] (gm.adj())(u, w) implies after.contains(w) by {
            assert(gm.adjacent(u, w));
        }
        lemma_reaches_closed(gm.adj(), after, scc[a], y);
        if before.contains(y) {
            assert forall|u: usize, w: usize| before.contains(u) && #[trigger] (gm.adj())(u, w) implies before.contains(w) by {
                assert(gm.adjacent(u, w));
            }
            lemma_reaches_closed(gm.adj(), before, y, scc[a]);
        }
        assert(scc.to_set().contains(y));
    }
}

/// Returns the position of `x` on the component stack.
fn position(t: &Vec<(usize, usize)>, x: usize) -> (k: usize)
    requires
        on_stack(t@, x),
    ensures
        k < t@.len(),
        t@[k as int].0 == x,
{
    let mut k: usize = 0;
    while k < t.len()
        invariant
            on_stack(t@, x),
            k <= t@.len(),
            forall|i: int| 0 <= i < k ==> t@[i].0 != x,
        decreases t.len() - k,
    {
        if t[k].0 == x {
            return k;
        }
        k += 1;
    }
    proof {
        let i = choose|i: int| 0 <= i < t@.len() && t@[i].0 == x;
        assert(t@[i].0 != x);
    }
    0
}

/// Returns the lowlink value of `w` if it is on the component stack.
fn lowlink_of(t: &Vec<(usize, usize)>, w: usize) -> (r: Option<usize>)
    ensures
        match r {
            Some(l) => exists|j: int| 0 <= j < t@.len() && t@[j] == (w, l),
            None => !on_stack(t@, w),
        },
{
    let mut j: usize = 0;
    while j < t.len()
        invariant
            j <= t@.len(),
            forall|i: int| 0 <= i < j ==> t@[i].0 != w,
        decreases t.len() - j,
    {
        if t[j].0 == w {
            proof {
                assert(t@[j as int] == (w, t@[j as int].1));
            }
            return Some(t[j].1);
        }
        j += 1;
    }
    None
}

/// Implements Tarjan's [Strongly Connected Components](https://mathworld.wolfram.com/StronglyConnectedComponent.html)
/// algorithm.
///
/// Each call to [`next`](TarjanScc::next) traverses the graph enough to find
/// the next strongly connected component (SCC) and returns its vertices. The
/// components are returned in reverse topological order: a later component
/// may have an edge to an earlier one, but not the other way around. When
/// every component has been returned, `next` returns `None`.
pub struct TarjanScc<'a, G: Graph> {
    dfs: Dfs<'a, G>,
    /// The vertices visited and not yet returned in a component, each with
    /// its lowlink value.
    stack: Vec<(usize, usize)>,
    /// The vertices to continue the traversal from once it can reach no
    /// more, and how many of them have been checked.
    unchecked: Vec<usize>,
    checked: usize,
    /// The vertices returned in components so far.
    emitted: Ghost<Set<usize>>,
    /// The vertex the traversal started from.
    start: Ghost<usize>,
    /// The components returned so far, in order.
    returned: Ghost<Seq<Seq<usize>>>,
}

impl<'a, G: Graph> TarjanScc<'a, G> {
    /// The graph whose components are found.
    pub closed spec fn spec_graph(&self) -> &'a G {
        self.dfs.spec_graph()
    }

    /// The vertices returned in components so far.
    pub closed spec fn emitted(&self) -> Set<usize> {
        self.emitted@
    }

    /// What holds of the state at all times, but for which component stack
    /// entries have lowlink values equal to their positions.
    closed spec fn wf_common(&self) -> bool {
        let gm = self.dfs.spec_graph().model();
        let st = self.dfs.stack_seq();
        let vis = self.dfs.visited_seq();
        let t = self.stack@;
        let u = self.unchecked@;
        &&& self.dfs.wf()
        &&& u == gm.vertices
        &&& self.checked <= u.len()
        &&& forall|k: int|
            0 <= k < self.checked ==> vis.contains(#[trigger] u[k]) || stack_vertices(st).contains(u[k])
        &&& forall|i: int, j: int| 0 <= i < j < t.len() ==> t[i].0 != t[j].0
        &&& forall|i: int| 0 <= i < t.len() ==> (#[trigger] t[i]).1 <= i && vis.contains(t[i].0)
        &&& forall|x: usize| #[trigger] self.emitted@.contains(x) ==> vis.contains(x) && !on_stack(t, x)
        &&& forall|x: usize| #[trigger] vis.contains(x) ==> self.emitted@.contains(x) || on_stack(t, x)
        &&& forall|p: int|
            0 <= p < st.len() && (#[trigger] st[p]).1 && !vis.contains(st[p].0) ==> p == 0 && st.len() == 1
        &&& forall|p: int| #[trigger] is_active(st, vis, p) ==> on_stack(t, st[p].0)
        &&& forall|p: int, q: int, i: int, j: int|
            #![trigger is_active(st, vis, p), is_active(st, vis, q), t[i], t[j]]
            is_active(st, vis, p) && is_active(st, vis, q) && p < q && 0 <= i < t.len() && 0 <= j
                < t.len() && t[i].0 == st[p].0 && t[j].0 == st[q].0 ==> i < j
        &&& self.reach_ok()
    }

    /// What is known of paths between the vertices on the component stack:
    /// each reaches the vertex at the position of its lowlink value, and a
    /// vertex being visited reaches every vertex above it.
    #[verifier::opaque]
    closed spec fn reach_ok(&self) -> bool {
        let gm = self.dfs.spec_graph().model();
        let st = self.dfs.stack_seq();
        let vis = self.dfs.visited_seq();
        let t = self.stack@;
        &&& forall|j: int| 0 <= j < t.len() ==> #[trigger] lowlink_path(gm, t, j)
        &&& forall|p: int, i: int, j: int|
            #![trigger is_active(st, vis, p), t[i], t[j]]
            is_active(st, vis, p) && 0 <= i < j < t.len() && t[i].0 == st[p].0 ==> path(gm, t[i].0, t[j].0)
    }

    /// What is known of the order in which the components are found.
    closed spec fn order_ok(&self) -> bool {
        let gm = self.dfs.spec_graph().model();
        let st = self.dfs.stack_seq();
        let vis = self.dfs.visited_seq();
        let t = self.stack@;
        &&& finished_closed(gm, st, vis)
        &&& lowlink_bounded(gm, st, vis, t, -1)
        &&& active_linked(gm, st, vis, t)
        &&& finished_linked(gm, st, vis, t, t.len() as int)
        &&& edge_closed(gm, self.emitted@)
    }

    /// Cutting the traversal stack down, without changing which vertices
    /// are being visited, keeps what is known of the order.
    proof fn lemma_order_same_active(pre: Self, post: Self)
        requires
            pre.order_ok(),
            post.stack == pre.stack,
            post.emitted == pre.emitted,
            post.dfs.spec_graph() == pre.dfs.spec_graph(),
            post.dfs.visited_seq() == pre.dfs.visited_seq(),
            forall|u: usize|
                being_visited(post.dfs.stack_seq(), post.dfs.visited_seq(), u) == being_visited(
                    pre.dfs.stack_seq(),
                    pre.dfs.visited_seq(),
                    u,
                ),
        ensures
            post.order_ok(),
    {
        let gm = pre.dfs.spec_graph().model();
        let s0 = pre.dfs.stack_seq();
        let s1 = post.dfs.stack_seq();
        let vis = pre.dfs.visited_seq();
        let t = pre.stack@;
        assert(s1 == s0 ==> post.order_ok());
        assert forall|a: int, j: int| #[trigger] none_active_between(s1, vis, t, a, j) == none_active_between(s0, vis, t, a, j) by {
            if none_active_between(s0, vis, t, a, j) {
                assert forall|i: int| a < i < j implies !being_visited(s1, vis, (#[trigger] t[i]).0) by {
                    assert(being_visited(s1, vis, t[i].0) == being_visited(s0, vis, t[i].0));
                }
            }
            if none_active_between(s1, vis, t, a, j) {
                assert forall|i: int| a < i < j implies !being_visited(s0, vis, (#[trigger] t[i]).0) by {
                    assert(being_visited(s1, vis, t[i].0) == being_visited(s0, vis, t[i].0));
                }
            }
        }
        assert(finished_closed(gm, s1, vis)) by {
            reveal(finished_closed);
        }
        assert(lowlink_bounded(gm, s1, vis, t, -1)) by {
            reveal(lowlink_bounded);
        }
        assert(active_linked(gm, s1, vis, t)) by {
            reveal(active_linked);
        }
        assert(finished_linked(gm, s1, vis, t, t.len() as int)) by {
            reveal(finished_linked);
        }
    }

    /// With nothing being visited and nothing on the component stack, what
    /// is known of the order is that of the visited and returned vertices.
    proof fn lemma_order_idle(pre: Self, post: Self)
        requires
            pre.order_ok(),
            pre.stack@.len() == 0,
            post.stack == pre.stack,
            post.emitted == pre.emitted,
            post.dfs.spec_graph() == pre.dfs.spec_graph(),
            post.dfs.visited_seq() == pre.dfs.visited_seq(),
            forall|u: usize| !being_visited(pre.dfs.stack_seq(), pre.dfs.visited_seq(), u),
            forall|u: usize| !being_visited(post.dfs.stack_seq(), post.dfs.visited_seq(), u),
        ensures
            post.order_ok(),
    {
        Self::lemma_order_same_active(pre, post);
    }

    /// The vertex the traversal started from.
    pub closed spec fn start(&self) -> usize {
        self.start@
    }

    /// The components returned so far, in the order they were returned.
    pub closed spec fn components(&self) -> Seq<Seq<usize>> {
        self.returned@
    }

    /// The invariant of the algorithm: that of its steps, and what holds of
    /// the components returned so far.
    pub closed spec fn wf(&self) -> bool {
        self.wf_steps() && self.history_ok()
    }

    /// The invariant of the algorithm's steps and, until a component is
    /// returned, the traversal goes on from the starting vertex alone.
    closed spec fn wf_steps(&self) -> bool {
        &&& self.wf_core()
        &&& self.dfs.visited_seq().contains(self.start@)
        &&& self.emitted@ == Set::<usize>::empty() ==> self.dfs.roots() == set![self.start@]
    }

    /// What holds of the components returned so far: they hold the vertices
    /// returned, each in one component; each is a strongly connected
    /// component; and no edge leads from one to a later one.
    closed spec fn history_ok(&self) -> bool {
        let gm = self.dfs.spec_graph().model();
        let c = self.returned@;
        &&& forall|x: usize|
            #[trigger] self.emitted@.contains(x) <==> exists|i: int| 0 <= i < c.len() && #[trigger] c[i].contains(x)
        &&& forall|i: int| 0 <= i < c.len() ==> (#[trigger] c[i]).len() > 0 && c[i].no_duplicates()
        &&& forall|i: int, j: int, x: usize|
            0 <= i < j < c.len() && #[trigger] c[i].contains(x) ==> !#[trigger] c[j].contains(x)
        &&& forall|i: int, a: usize, b: usize|
            #![trigger c[i].contains(a), c[i].contains(b)]
            0 <= i < c.len() && c[i].contains(a) && c[i].contains(b) ==> gm.reachable(a, b)
        &&& forall|i: int, a: usize, y: usize|
            #![trigger c[i].contains(a), gm.reachable(a, y)]
            0 <= i < c.len() && c[i].contains(a) && gm.reachable(a, y) && gm.reachable(y, a) ==> c[i].contains(y)
        &&& forall|i: int, a: usize, w: usize|
            #![trigger c[i].contains(a), gm.adjacent(a, w)]
            0 <= i < c.len() && c[i].contains(a) && gm.adjacent(a, w) ==> exists|j: int|
                0 <= j <= i && #[trigger] c[j].contains(w)
    }

    /// The components returned so far partition the vertices returned, each
    /// is a strongly connected component, and they come in reverse
    /// topological order: no edge leads from a component to a later one.
    /// Once [`next`](TarjanScc::next) has returned `None`, the vertices
    /// returned are all the vertices of the graph.
    pub proof fn lemma_components(&self)
        requires
            self.wf(),
        ensures
            forall|x: usize|
                #[trigger] self.emitted().contains(x) <==> exists|i: int|
                    0 <= i < self.components().len() && #[trigger] self.components()[i].contains(x),
            forall|i: int|
                0 <= i < self.components().len() ==> (#[trigger] self.components()[i]).len() > 0
                    && self.components()[i].no_duplicates(),
            forall|i: int, j: int, x: usize|
                0 <= i < j < self.components().len() && #[trigger] self.components()[i].contains(x)
                    ==> !#[trigger] self.components()[j].contains(x),
            forall|i: int, a: usize, b: usize|
                #![trigger self.components()[i].contains(a), self.components()[i].contains(b)]
                0 <= i < self.components().len() && self.components()[i].contains(a)
                    && self.components()[i].contains(b) ==> self.spec_graph().model().reachable(a, b),
            forall|i: int, a: usize, y: usize|
                #![trigger self.components()[i].contains(a), self.spec_graph().model().reachable(a, y)]
                0 <= i < self.components().len() && self.components()[i].contains(a)
                    && self.spec_graph().model().reachable(a, y) && self.spec_graph().model().reachable(y, a)
                    ==> self.components()[i].contains(y),
            forall|i: int, a: usize, w: usize|
                #![trigger self.components()[i].contains(a), self.spec_graph().model().adjacent(a, w)]
                0 <= i < self.components().len() && self.components()[i].contains(a)
                    && self.spec_graph().model().adjacent(a, w) ==> exists|j: int|
                    0 <= j <= i && #[trigger] self.components()[j].contains(w),
    {
        let c = self.returned@;
        assert forall|x: usize|
            #[trigger] self.emitted().contains(x) <==> exists|i: int|
                0 <= i < self.components().len() && #[trigger] self.components()[i].contains(x) by {
            if self.emitted@.contains(x) {
                let i = choose|i: int| 0 <= i < c.len() && #[trigger] c[i].contains(x);
                assert(self.components()[i].contains(x));
            }
        }
    }

    /// The invariant of the algorithm's steps.
    closed spec fn wf_core(&self) -> bool {
        let st = self.dfs.stack_seq();
        let vis = self.dfs.visited_seq();
        let t = self.stack@;
        &&& self.wf_common()
        &&& forall|i: int|
            0 <= i < t.len() && (#[trigger] t[i]).1 == i ==> exists|p: int|
                is_active(st, vis, p) && #[trigger] st[p].0 == t[i].0
        &&& self.order_ok()
    }

    /// The state right after the traversal exited `x`: the invariant holds
    /// but for `x`, and every vertex still being visited is below `x` on the
    /// component stack.
    closed spec fn exiting(&self, x: usize) -> bool {
        let st = self.dfs.stack_seq();
        let vis = self.dfs.visited_seq();
        let t = self.stack@;
        &&& self.wf_common()
        &&& on_stack(t, x)
        &&& forall|i: int|
            0 <= i < t.len() && (#[trigger] t[i]).1 == i && t[i].0 != x ==> exists|p: int|
                is_active(st, vis, p) && #[trigger] st[p].0 == t[i].0
        &&& forall|p: int, i: int, k: int|
            #![trigger is_active(st, vis, p), t[i], t[k]]
            is_active(st, vis, p) && 0 <= i < t.len() && 0 <= k < t.len() && t[i].0 == st[p].0
                && t[k].0 == x ==> i < k
        &&& forall|i: int, j: int|
            #![trigger t[i], t[j]]
            0 <= i < j < t.len() && t[i].0 == x ==> path(self.dfs.spec_graph().model(), x, t[j].0)
        &&& forall|k: int| 0 <= k < t.len() && (#[trigger] t[k]).0 == x ==> self.exit_order_ok(k)
    }

    /// What is known of the order right after the traversal exited the
    /// vertex at position `k` of the component stack, before its lowlink
    /// value is final: what is known at other times, but for what concerns
    /// that vertex; the vertex being visited next below it has an edge to
    /// it; and it has, for every vertex above it, an edge to a vertex in
    /// between whose lowlink value is no higher.
    closed spec fn exit_order_ok(&self, k: int) -> bool {
        let gm = self.dfs.spec_graph().model();
        let st = self.dfs.stack_seq();
        let vis = self.dfs.visited_seq();
        let t = self.stack@;
        &&& finished_closed(gm, st, vis)
        &&& lowlink_bounded(gm, st, vis, t, k)
        &&& active_linked(gm, st, vis, t)
        &&& finished_linked(gm, st, vis, t, k)
        &&& linked_above(gm, t, k)
        &&& parent_linked(gm, st, vis, t, k)
        &&& edge_closed(gm, self.emitted@)
    }

    /// What the exit of `x`, at position `k` of the component stack, leaves
    /// of what is known of the order.
    proof fn lemma_exit_order(pre: Self, post: Self, x: usize, k: int)
        requires
            pre.wf_core(),
            post.stack == pre.stack,
            post.emitted == pre.emitted,
            post.dfs.spec_graph() == pre.dfs.spec_graph(),
            post.dfs.visited_seq() == pre.dfs.visited_seq(),
            0 <= k < pre.stack@.len(),
            pre.stack@[k].0 == x,
            forall|w: usize| #[trigger]
                pre.dfs.spec_graph().model().adjacent(x, w) ==> pre.dfs.visited_seq().contains(w),
            ({
                let s0 = pre.dfs.stack_seq();
                let s1 = post.dfs.stack_seq();
                let vis = pre.dfs.visited_seq();
                &&& s1.len() < s0.len()
                &&& s1 == s0.take(s1.len() as int)
                &&& s0[s1.len() as int] == (x, true)
                &&& vis.contains(x)
                &&& forall|i: int| s1.len() < i < s0.len() ==> !(#[trigger] s0[i]).1
            }),
        ensures
            post.exit_order_ok(k),
    {
        let gm = pre.dfs.spec_graph().model();
        let s0 = pre.dfs.stack_seq();
        let s1 = post.dfs.stack_seq();
        let vis = pre.dfs.visited_seq();
        let t = pre.stack@;
        let l = s1.len() as int;
        assert(is_active(s0, vis, l));
        assert forall|p: int| 0 <= p < l implies #[trigger] s1[p] == s0[p] by {}
        assert forall|u: usize| #[trigger] being_visited(s1, vis, u) <==> being_visited(s0, vis, u) && u != x by {
            if being_visited(s1, vis, u) {
                let p = choose|p: int| is_active(s1, vis, p) && s1[p].0 == u;
                assert(s1[p] == s0[p]);
                assert(is_active(s0, vis, p));
                if u == x {
                    assert(is_active(s0, vis, p) && is_active(s0, vis, l) && t[k].0 == s0[p].0 && t[k].0 == s0[l].0);
                }
            }
            if being_visited(s0, vis, u) && u != x {
                let p = choose|p: int| is_active(s0, vis, p) && s0[p].0 == u;
                if p > l {
                    assert(!s0[p].1);
                }
                assert(p < l);
                assert(s1[p] == s0[p]);
                assert(is_active(s1, vis, p));
            }
        }
        assert forall|i: int| 0 <= i < t.len() && being_visited(s1, vis, (#[trigger] t[i]).0) implies i < k && t[i].0 != x by {
            let p = choose|p: int| is_active(s0, vis, p) && s0[p].0 == t[i].0;
            if p > l {
                assert(!s0[p].1);
            }
            assert(p < l);
            assert(is_active(s0, vis, p) && is_active(s0, vis, l) && t[i].0 == s0[p].0 && t[k].0 == s0[l].0);
        }
        assert forall|a: int, j: int| 0 <= a && j <= k && #[trigger] none_active_between(s1, vis, t, a, j) implies none_active_between(s0, vis, t, a, j) by {
            assert forall|i: int| a < i < j implies !being_visited(s0, vis, (#[trigger] t[i]).0) by {
                assert(t[i].0 != t[k].0);
            }
        }
        assert forall|j: int| k < j < t.len() implies #[trigger] none_active_between(s0, vis, t, k, j) by {
            assert forall|i: int| k < i < j implies !being_visited(s0, vis, (#[trigger] t[i]).0) by {
                assert(t[i].0 != t[k].0);
            }
        }
        assert(being_visited(s0, vis, x));
        assert forall|j: int| 0 <= j < t.len() && j != k implies (#[trigger] t[j]).0 != x by {}
        assert(finished_closed(gm, s1, vis)) by {
            reveal(finished_closed);
            assert forall|u: usize, w: usize|
                vis.contains(u) && !being_visited(s1, vis, u) && #[trigger] gm.adjacent(u, w) implies vis.contains(w) by {
                if u != x {
                    assert(!being_visited(s0, vis, u));
                }
            }
        }
        assert(lowlink_bounded(gm, s1, vis, t, k)) by {
            reveal(lowlink_bounded);
            assert forall|j: int, i: int|
                0 <= j < t.len() && 0 <= i < t.len() && j != k && !being_visited(s1, vis, t[j].0)
                    && #[trigger] gm.adjacent(t[j].0, t[i].0) implies t[j].1 <= i by {
                assert(t[j].0 != x);
                assert(!being_visited(s0, vis, t[j].0));
            }
        }
        assert(active_linked(gm, s1, vis, t)) by {
            reveal(active_linked);
            assert forall|a: int, b: int|
                #![trigger t[a], t[b]]
                0 <= a < b < t.len() && being_visited(s1, vis, t[a].0) && being_visited(s1, vis, t[b].0)
                    && none_active_between(s1, vis, t, a, b) implies gm.adjacent(t[a].0, t[b].0) by {
                assert(b < k);
                assert(none_active_between(s0, vis, t, a, b));
            }
        }
        assert(finished_linked(gm, s1, vis, t, k)) by {
            reveal(finished_linked);
            assert forall|a: int, j: int|
                #![trigger t[a], t[j]]
                0 <= a < j < k && being_visited(s1, vis, t[a].0) && !being_visited(s1, vis, t[j].0)
                    && none_active_between(s1, vis, t, a, j) implies exists|c: int|
                    a < c <= j && !being_visited(s1, vis, t[c].0) && gm.adjacent(t[a].0, t[c].0) && t[c].1 <= t[j].1 by {
                assert(t[j].0 != x);
                assert(none_active_between(s0, vis, t, a, j));
                let c = choose|c: int|
                    a < c <= j && !being_visited(s0, vis, t[c].0) && gm.adjacent(t[a].0, t[c].0) && t[c].1 <= t[j].1;
                assert(!being_visited(s1, vis, t[c].0));
            }
        }
        assert(linked_above(gm, t, k)) by {
            reveal(linked_above);
            reveal(finished_linked);
            assert forall|j: int| k < j < t.len() implies #[trigger] lowered_from(gm, t, k, j) by {
                assert(!being_visited(s0, vis, t[j].0));
                assert(none_active_between(s0, vis, t, k, j));
                assert(being_visited(s0, vis, t[k].0));
                assert(0 <= k < j < t.len());
                let c = choose|c: int|
                    k < c <= j && !being_visited(s0, vis, t[c].0) && gm.adjacent(t[k].0, t[c].0) && t[c].1 <= t[j].1;
                assert(k < c <= j && gm.adjacent(t[k].0, t[c].0) && t[c].1 <= t[j].1);
            }
        }
        assert(parent_linked(gm, s1, vis, t, k)) by {
            reveal(parent_linked);
            reveal(active_linked);
            assert forall|a: int|
                0 <= a < k && being_visited(s1, vis, (#[trigger] t[a]).0) && none_active_between(s1, vis, t, a, k)
                    implies gm.adjacent(t[a].0, t[k].0) by {
                assert(none_active_between(s0, vis, t, a, k));
            }
        }
    }

    /// Lowering the lowlink value of the vertex at position `k`, which the
    /// traversal has just exited, to at most those of its neighbors on the
    /// component stack makes what is known of the order hold again; and its
    /// lowlink value is then at most that of every vertex above it.
    proof fn lemma_finish_order(s0: Self, s1: Self, k: int)
        requires
            forall|i: int| 0 <= i < s0.stack@.len() ==> (#[trigger] s0.stack@[i]).1 <= i,
            0 <= k < s0.stack@.len(),
            s0.exit_order_ok(k),
            forall|p: int, i: int|
                #![trigger is_active(s0.dfs.stack_seq(), s0.dfs.visited_seq(), p), s0.stack@[i]]
                is_active(s0.dfs.stack_seq(), s0.dfs.visited_seq(), p) && 0 <= i < s0.stack@.len()
                    && s0.stack@[i].0 == s0.dfs.stack_seq()[p].0 ==> i < k,
            s1.dfs == s0.dfs,
            s1.emitted == s0.emitted,
            s1.stack@.len() == s0.stack@.len(),
            forall|i: int| 0 <= i < s0.stack@.len() && i != k ==> s1.stack@[i] == s0.stack@[i],
            s1.stack@[k].0 == s0.stack@[k].0,
            s1.stack@[k].1 <= s0.stack@[k].1,
            forall|i: int|
                0 <= i < s0.stack@.len() && i != k && #[trigger] s0.dfs.spec_graph().model().adjacent(
                    s0.stack@[k].0,
                    s0.stack@[i].0,
                ) ==> s1.stack@[k].1 <= s0.stack@[i].1,
        ensures
            s1.order_ok(),
            forall|j: int| k < j < s1.stack@.len() ==> s1.stack@[k].1 <= #[trigger] s1.stack@[j].1,
    {
        let gm = s0.dfs.spec_graph().model();
        let st = s0.dfs.stack_seq();
        let vis = s0.dfs.visited_seq();
        let t0 = s0.stack@;
        let t1 = s1.stack@;
        let x = t0[k].0;
        assert forall|i: int| 0 <= i < t0.len() implies #[trigger] t1[i].0 == t0[i].0 by {}
        assert(!being_visited(st, vis, x)) by {
            if being_visited(st, vis, x) {
                let p = choose|p: int| is_active(st, vis, p) && st[p].0 == x;
                assert(is_active(st, vis, p) && t0[k].0 == st[p].0);
            }
        }
        assert forall|i: int| 0 <= i < t0.len() && being_visited(st, vis, (#[trigger] t0[i]).0) implies i < k by {
            let p = choose|p: int| is_active(st, vis, p) && st[p].0 == t0[i].0;
        }
        assert forall|a: int, j: int| 0 <= a && j <= t0.len() implies #[trigger] none_active_between(st, vis, t1, a, j)
            == none_active_between(st, vis, t0, a, j) by {
            if none_active_between(st, vis, t0, a, j) {
                assert forall|i: int| a < i < j implies !being_visited(st, vis, (#[trigger] t1[i]).0) by {
                    assert(t1[i].0 == t0[i].0);
                }
            }
            if none_active_between(st, vis, t1, a, j) {
                assert forall|i: int| a < i < j implies !being_visited(st, vis, (#[trigger] t0[i]).0) by {
                    assert(t1[i].0 == t0[i].0);
                }
            }
        }
        assert forall|j: int| k < j < t1.len() implies t1[k].1 <= #[trigger] t1[j].1 by {
            reveal(linked_above);
            assert(lowered_from(gm, t0, k, j));
            let c = choose|c: int| k < c <= j && gm.adjacent(t0[k].0, t0[c].0) && t0[c].1 <= t0[j].1;
            assert(t1[j] == t0[j]);
        }
        assert(lowlink_bounded(gm, st, vis, t1, -1)) by {
            reveal(lowlink_bounded);
            assert forall|j: int, i: int|
                0 <= j < t1.len() && 0 <= i < t1.len() && j != -1 && !being_visited(st, vis, t1[j].0)
                    && #[trigger] gm.adjacent(t1[j].0, t1[i].0) implies t1[j].1 <= i by {
                assert(t1[i].0 == t0[i].0);
                assert(t0[i].1 <= i);
                if j != k {
                    assert(t1[j] == t0[j]);
                    assert(gm.adjacent(t0[j].0, t0[i].0));
                } else if i != k {
                    assert(gm.adjacent(t0[k].0, t0[i].0));
                }
            }
        }
        assert(active_linked(gm, st, vis, t1)) by {
            reveal(active_linked);
            assert forall|a: int, b: int|
                #![trigger t1[a], t1[b]]
                0 <= a < b < t1.len() && being_visited(st, vis, t1[a].0) && being_visited(st, vis, t1[b].0)
                    && none_active_between(st, vis, t1, a, b) implies gm.adjacent(t1[a].0, t1[b].0) by {
                assert(t1[a].0 == t0[a].0 && t1[b].0 == t0[b].0);
                assert(none_active_between(st, vis, t0, a, b));
            }
        }
        assert(finished_linked(gm, st, vis, t1, t1.len() as int)) by {
            reveal(finished_linked);
            reveal(parent_linked);
            assert forall|a: int, j: int|
                #![trigger t1[a], t1[j]]
                0 <= a < j < t1.len() && being_visited(st, vis, t1[a].0) && !being_visited(st, vis, t1[j].0)
                    && none_active_between(st, vis, t1, a, j) implies exists|c: int|
                    a < c <= j && !being_visited(st, vis, t1[c].0) && gm.adjacent(t1[a].0, t1[c].0) && t1[c].1
                        <= t1[j].1 by {
                assert(t1[a].0 == t0[a].0 && t1[j].0 == t0[j].0);
                assert(a < k);
                assert(none_active_between(st, vis, t0, a, j));
                if j < k {
                    let c = choose|c: int|
                        a < c <= j && !being_visited(st, vis, t0[c].0) && gm.adjacent(t0[a].0, t0[c].0) && t0[c].1
                            <= t0[j].1;
                    assert(t1[c] == t0[c]);
                    assert(t1[j] == t0[j]);
                } else {
                    assert(none_active_between(st, vis, t0, a, k));
                    assert(gm.adjacent(t0[a].0, t0[k].0));
                    assert(t1[k].1 <= t1[j].1);
                    assert(!being_visited(st, vis, t1[k].0));
                }
            }
        }
    }

    /// Popping a component, from its root at position `k` of the component
    /// stack up, and returning it keeps what is known of the order.
    proof fn lemma_pop_order(s1: Self, post: Self, k: int)
        requires
            s1.order_ok(),
            0 <= k < s1.stack@.len(),
            s1.stack@[k].1 == k,
            forall|j: int| k < j < s1.stack@.len() ==> k <= #[trigger] s1.stack@[j].1,
            forall|i: int| 0 <= i < s1.stack@.len() ==> s1.dfs.visited_seq().contains((#[trigger] s1.stack@[i]).0),
            forall|i: int|
                0 <= i < s1.stack@.len() && being_visited(
                    s1.dfs.stack_seq(),
                    s1.dfs.visited_seq(),
                    (#[trigger] s1.stack@[i]).0,
                ) ==> i < k,
            forall|y: usize| #[trigger]
                s1.dfs.visited_seq().contains(y) ==> s1.emitted@.contains(y) || on_stack(s1.stack@, y),
            post.dfs == s1.dfs,
            post.stack@ == s1.stack@.take(k),
            forall|y: usize| #[trigger]
                post.emitted@.contains(y) <==> s1.emitted@.contains(y) || exists|i: int|
                    k <= i < s1.stack@.len() && s1.stack@[i].0 == y,
        ensures
            post.order_ok(),
    {
        let gm = s1.dfs.spec_graph().model();
        let st = s1.dfs.stack_seq();
        let vis = s1.dfs.visited_seq();
        let t1 = s1.stack@;
        let t2 = post.stack@;
        assert forall|i: int| 0 <= i < k implies #[trigger] t2[i] == t1[i] by {}
        assert forall|a: int, j: int| 0 <= a && j <= k && #[trigger] none_active_between(st, vis, t2, a, j)
            implies none_active_between(st, vis, t1, a, j) by {
            assert forall|i: int| a < i < j implies !being_visited(st, vis, (#[trigger] t1[i]).0) by {
                assert(t2[i] == t1[i]);
            }
        }
        assert(lowlink_bounded(gm, st, vis, t2, -1)) by {
            reveal(lowlink_bounded);
            assert forall|j: int, i: int|
                0 <= j < t2.len() && 0 <= i < t2.len() && j != -1 && !being_visited(st, vis, t2[j].0)
                    && #[trigger] gm.adjacent(t2[j].0, t2[i].0) implies t2[j].1 <= i by {
                assert(gm.adjacent(t1[j].0, t1[i].0));
            }
        }
        assert(active_linked(gm, st, vis, t2)) by {
            reveal(active_linked);
            assert forall|a: int, b: int|
                #![trigger t2[a], t2[b]]
                0 <= a < b < t2.len() && being_visited(st, vis, t2[a].0) && being_visited(st, vis, t2[b].0)
                    && none_active_between(st, vis, t2, a, b) implies gm.adjacent(t2[a].0, t2[b].0) by {
                assert(none_active_between(st, vis, t1, a, b));
            }
        }
        assert(finished_linked(gm, st, vis, t2, t2.len() as int)) by {
            reveal(finished_linked);
            assert forall|a: int, j: int|
                #![trigger t2[a], t2[j]]
                0 <= a < j < t2.len() && being_visited(st, vis, t2[a].0) && !being_visited(st, vis, t2[j].0)
                    && none_active_between(st, vis, t2, a, j) implies exists|c: int|
                    a < c <= j && !being_visited(st, vis, t2[c].0) && gm.adjacent(t2[a].0, t2[c].0) && t2[c].1
                        <= t2[j].1 by {
                assert(none_active_between(st, vis, t1, a, j));
                let c = choose|c: int|
                    a < c <= j && !being_visited(st, vis, t1[c].0) && gm.adjacent(t1[a].0, t1[c].0) && t1[c].1
                        <= t1[j].1;
                assert(t2[c] == t1[c]);
            }
        }
        assert(edge_closed(gm, post.emitted@)) by {
            reveal(edge_closed);
            reveal(finished_closed);
            reveal(lowlink_bounded);
            assert forall|u: usize, w: usize| post.emitted@.contains(u) && #[trigger] gm.adjacent(u, w)
                implies post.emitted@.contains(w) by {
                if !s1.emitted@.contains(u) {
                    let i = choose|i: int| k <= i < t1.len() && t1[i].0 == u;
                    assert(vis.contains(t1[i].0));
                    assert(!being_visited(st, vis, t1[i].0));
                    assert(vis.contains(w));
                    if !s1.emitted@.contains(w) {
                        let i2 = choose|i2: int| 0 <= i2 < t1.len() && t1[i2].0 == w;
                        assert(gm.adjacent(t1[i].0, t1[i2].0));
                        assert(t1[i].1 <= i2);
                        assert(k <= t1[i].1);
                        assert(k <= i2 < t1.len() && t1[i2].0 == w);
                    }
                }
            }
        }
    }

    /// Finishes the exit of `x`: lowers its lowlink value by those of the
    /// vertices it has edges to that are on the component stack, and, if it
    /// is the root of a component, pops and returns the component.
    fn exit_vertex(&mut self, x: usize) -> (r: Option<Vec<usize>>)
        requires
            old(self).exiting(x),
        ensures
            final(self).wf_core(),
            final(self).dfs == old(self).dfs,
            final(self).start == old(self).start,
            final(self).returned == old(self).returned,
            final(self).unchecked == old(self).unchecked,
            final(self).checked == old(self).checked,
            match r {
                Some(scc) => {
                    &&& scc@.len() > 0
                    &&& scc@.no_duplicates()
                    &&& forall|i: int|
                        0 <= i < scc@.len() ==> old(self).dfs.visited_seq().contains(#[trigger] scc@[i])
                            && !old(self).emitted().contains(scc@[i])
                    &&& final(self).emitted() == old(self).emitted().union(scc@.to_set())
                    &&& forall|a: int, b: int|
                        0 <= a < scc@.len() && 0 <= b < scc@.len() ==> old(self).dfs.spec_graph().model().reachable(
                            #[trigger] scc@[a],
                            #[trigger] scc@[b],
                        )
                    &&& forall|a: int, w: usize|
                        0 <= a < scc@.len() && #[trigger] old(self).dfs.spec_graph().model().adjacent(scc@[a], w)
                            ==> scc@.contains(w) || old(self).emitted().contains(w)
                    &&& forall|a: int, y: usize|
                        0 <= a < scc@.len() && #[trigger] old(self).dfs.spec_graph().model().reachable(scc@[a], y)
                            && old(self).dfs.spec_graph().model().reachable(y, scc@[a]) ==> scc@.contains(y)
                },
                None => final(self).emitted() == old(self).emitted(),
            },
    {
        let ghost t0 = self.stack@;
        let ghost gm = self.dfs.spec_graph().model();
        let ghost s0 = *self;
        let k = position(&self.stack, x);
        proof {
            assert(s0.exit_order_ok(k as int));
            self.dfs.lemma_visited();
            self.dfs.spec_graph().lemma_wf();
        }
        let edges = self.dfs.graph().edges_sourced_in(x);
        let mut e: usize = 0;
        while e < edges.len()
            invariant
                k < t0.len(),
                t0[k as int].0 == x,
                self.stack@.len() == t0.len(),
                forall|i: int| 0 <= i < t0.len() && i != k ==> self.stack@[i] == t0[i],
                self.stack@[k as int].0 == x,
                self.stack@[k as int].1 <= t0[k as int].1,
                self.dfs == old(self).dfs,
                self.emitted == old(self).emitted,
                self.unchecked == old(self).unchecked,
                self.checked == old(self).checked,
                self.start == old(self).start,
                self.returned == old(self).returned,
                self.reach_ok(),
                forall|i: int| 0 <= i < t0.len() ==> (#[trigger] t0[i]).1 <= i,
                forall|i: int, j: int| 0 <= i < j < t0.len() ==> t0[i].0 != t0[j].0,
                forall|f: int, i: int|
                    #![trigger deref_pairs(edges@)[f], t0[i]]
                    0 <= f < e && 0 <= i < t0.len() && i != k && t0[i].0 == deref_pairs(edges@)[f].0
                        ==> self.stack@[k as int].1 <= t0[i].1,
                gm == self.dfs.spec_graph().model(),
                gm.wf(),
                deref_pairs(edges@) == gm.sourced(x),
            decreases edges.len() - e,
        {
            let w = edges[e].0;
            proof {
                assert(deref_pairs(edges@)[e as int].0 == w);
            }
            let ghost tb = self.stack@;
            match lowlink_of(&self.stack, w) {
                Some(low) => {
                    let ghost jw = choose|j: int| 0 <= j < tb.len() && tb[j] == (w, low);
                    if low < self.stack[k].1 {
                        let ghost before = *self;
                        proof {
                            let tb = self.stack@;
                            let j = choose|j: int| 0 <= j < tb.len() && tb[j] == (w, low);
                            before.lemma_lowlink_at(j);
                            assert(deref_pairs(edges@)[e as int].0 == w);
                            gm.lemma_sourced(x, w);
                            assert(gm.adjacent(x, w));
                            lemma_path_refl(gm, x);
                            lemma_path_edge(gm, x, x, w);
                            lemma_path_trans(gm, x, w, tb[low as int].0);
                        }
                        self.stack.set(k, (x, low));
                        proof {
                            assert forall|i: int| 0 <= i < before.stack@.len() implies (#[trigger] before.stack@[i]).1 <= i by {
                                if i != k {
                                    assert(before.stack@[i] == t0[i]);
                                }
                            }
                            Self::lemma_lowlink_reach(before, *self, k as int, low);
                        }
                    }
                    proof {
                        assert forall|f: int, i: int|
                            #![trigger deref_pairs(edges@)[f], t0[i]]
                            0 <= f < e + 1 && 0 <= i < t0.len() && i != k && t0[i].0 == deref_pairs(edges@)[f].0
                                implies self.stack@[k as int].1 <= t0[i].1 by {
                            if f == e {
                                if jw == k {
                                    assert(tb[k as int].0 == x);
                                    if i < k {
                                        assert(t0[i].0 != t0[k as int].0);
                                    } else {
                                        assert(t0[k as int].0 != t0[i].0);
                                    }
                                }
                                assert(tb[jw] == t0[jw]);
                                if jw < i {
                                    assert(t0[jw].0 != t0[i].0);
                                } else if i < jw {
                                    assert(t0[i].0 != t0[jw].0);
                                }
                            }
                        }
                    }
                },
                None => {
                    proof {
                        assert forall|f: int, i: int|
                            #![trigger deref_pairs(edges@)[f], t0[i]]
                            0 <= f < e + 1 && 0 <= i < t0.len() && i != k && t0[i].0 == deref_pairs(edges@)[f].0
                                implies self.stack@[k as int].1 <= t0[i].1 by {
                            if f == e {
                                assert(tb[i].0 == t0[i].0);
                                assert(on_stack(tb, w));
                            }
                        }
                    }
                },
            }
            e += 1;
        }
        let ghost t1 = self.stack@;
        let ghost s1 = *self;
        proof {
            assert forall|i: int|
                0 <= i < t0.len() && i != k && #[trigger] gm.adjacent(t0[k as int].0, t0[i].0) implies t1[k as int].1
                    <= t0[i].1 by {
                gm.lemma_sourced(x, t0[i].0);
                let f = choose|f: int| 0 <= f < gm.sourced(x).len() && gm.sourced(x)[f].0 == t0[i].0;
                assert(deref_pairs(edges@)[f].0 == t0[i].0);
            }
            let st = self.dfs.stack_seq();
            let vis = self.dfs.visited_seq();
            assert forall|p: int, i: int|
                #![trigger is_active(st, vis, p), t0[i]]
                is_active(st, vis, p) && 0 <= i < t0.len() && t0[i].0 == st[p].0 implies i < k by {
                assert(t0[k as int].0 == x);
            }
            Self::lemma_finish_order(s0, s1, k as int);
            assert forall|v: usize| #[trigger] on_stack(t1, v) <==> on_stack(t0, v) by {
                if on_stack(t1, v) {
                    let i = choose|i: int| 0 <= i < t1.len() && t1[i].0 == v;
                    assert(t0[i].0 == v);
                }
                if on_stack(t0, v) {
                    let i = choose|i: int| 0 <= i < t0.len() && t0[i].0 == v;
                    assert(t1[i].0 == v);
                }
            }
        }
        if self.stack[k].1 == k {
            proof {
                let st = self.dfs.stack_seq();
                let vis = self.dfs.visited_seq();
                assert forall|i: int| 0 <= i < t1.len() implies (#[trigger] t1[i]).1 <= i by {
                    assert(t0[i].1 <= i);
                }
                assert forall|i: int, j: int| 0 <= i < j < t1.len() implies t1[i].0 != t1[j].0 by {
                    assert(t1[i].0 == t0[i].0 && t1[j].0 == t0[j].0);
                }
                assert forall|i: int|
                    0 <= i < t1.len() && (#[trigger] t1[i]).1 == i && t1[i].0 != x implies being_visited(st, vis, t1[i].0) by {
                    assert(t1[i] == t0[i]);
                    let p = choose|p: int| is_active(st, vis, p) && #[trigger] st[p].0 == t0[i].0;
                }
                assert forall|p: int, i: int|
                    #![trigger is_active(st, vis, p), t1[i]]
                    is_active(st, vis, p) && 0 <= i < t1.len() && t1[i].0 == st[p].0 implies i < k by {
                    assert(t1[i].0 == t0[i].0);
                    assert(t0[k as int].0 == x);
                }
                assert forall|j: int| k < j < t1.len() implies path(gm, x, #[trigger] t1[j].0) by {
                    assert(t1[j].0 == t0[j].0);
                    assert(t0[k as int].0 == x);
                }
                Self::lemma_component(s1, x, k as int);
            }
            let mut scc: Vec<usize> = Vec::new();
            while self.stack.len() > k
                invariant
                    k < t1.len(),
                    k <= self.stack@.len() <= t1.len(),
                    self.stack@ == t1.take(self.stack@.len() as int),
                    scc@.len() == t1.len() - self.stack@.len(),
                    forall|i: int| 0 <= i < scc@.len() ==> #[trigger] scc@[i] == t1[t1.len() - 1 - i].0,
                    self.dfs == old(self).dfs,
                    self.emitted == old(self).emitted,
                    self.unchecked == old(self).unchecked,
                    self.checked == old(self).checked,
                    self.start == old(self).start,
                    self.returned == old(self).returned,
                decreases self.stack.len(),
            {
                let top = self.stack.pop().unwrap();
                scc.push(top.0);
                proof {
                    assert(self.stack@ =~= t1.take(self.stack@.len() as int));
                }
            }
            proof {
                let old_e = self.emitted@;
                let vis = self.dfs.visited_seq();
                let st = self.dfs.stack_seq();
                let t2 = self.stack@;
                assert(t2 =~= t1.take(k as int));
                assert forall|a: int, b: int| 0 <= a < scc@.len() && 0 <= b < scc@.len() implies gm.reachable(
                    #[trigger] scc@[a],
                    #[trigger] scc@[b],
                ) by {
                    let ia = t1.len() - 1 - a;
                    let ib = t1.len() - 1 - b;
                    assert(scc@[a] == t1[ia].0);
                    assert(scc@[b] == t1[ib].0);
                    lemma_path_trans(gm, t1[ia].0, x, t1[ib].0);
                    reveal(path);
                }
                // Which component stack positions the component holds.
                assert forall|y: usize| #[trigger] scc@.contains(y) <==> exists|i: int| k <= i < t1.len() && t1[i].0 == y by {
                    if scc@.contains(y) {
                        let m = choose|m: int| 0 <= m < scc@.len() && scc@[m] == y;
                        assert(t1[t1.len() - 1 - m].0 == y);
                    }
                    if exists|i: int| k <= i < t1.len() && t1[i].0 == y {
                        let i = choose|i: int| k <= i < t1.len() && t1[i].0 == y;
                        assert(scc@[t1.len() - 1 - i] == y);
                    }
                }
                assert(scc@.no_duplicates()) by {
                    assert forall|a: int, b: int| 0 <= a < b < scc@.len() implies scc@[a] != scc@[b] by {
                        let ia = t1.len() - 1 - a;
                        let ib = t1.len() - 1 - b;
                        assert(t1[ia].0 == t0[ia].0);
                        assert(t1[ib].0 == t0[ib].0);
                        assert(t0[ib].0 != t0[ia].0);
                    }
                }
                self.emitted@ = old_e.union(scc@.to_set());
                assert forall|i: int| 0 <= i < scc@.len() implies vis.contains(#[trigger] scc@[i])
                    && !old_e.contains(scc@[i]) by {
                    let j = t1.len() - 1 - i;
                    assert(t1[j].0 == scc@[i]);
                    assert(t0[j].0 == t1[j].0);
                    assert(on_stack(t0, scc@[i]));
                }
                assert forall|v: usize| #[trigger] on_stack(t2, v) implies on_stack(t1, v) by {
                    if on_stack(t2, v) {
                        let i = choose|i: int| 0 <= i < t2.len() && t2[i].0 == v;
                        assert(t1[i].0 == v);
                    }
                }
                assert forall|v: usize| #[trigger] self.emitted@.contains(v) implies vis.contains(v) && !on_stack(t2, v) by {
                    if scc@.to_set().contains(v) {
                        assert(scc@.contains(v));
                        let i = choose|i: int| k <= i < t1.len() && t1[i].0 == v;
                        assert(t0[i].0 == v);
                        assert(vis.contains(t0[i].0));
                        if on_stack(t2, v) {
                            let j = choose|j: int| 0 <= j < t2.len() && t2[j].0 == v;
                            assert(t1[j].0 == v);
                            assert(t0[j].0 == t0[i].0);
                        }
                    } else {
                        assert(old_e.contains(v));
                    }
                }
                assert forall|v: usize| #[trigger] vis.contains(v) implies self.emitted@.contains(v) || on_stack(t2, v) by {
                    if !old_e.contains(v) {
                        assert(on_stack(t0, v));
                        let i = choose|i: int| 0 <= i < t1.len() && t1[i].0 == v;
                        if i < k {
                            assert(t2[i].0 == v);
                        } else {
                            assert(scc@.contains(v));
                            assert(scc@.to_set().contains(v));
                        }
                    }
                }
                assert forall|p: int| #[trigger] is_active(st, vis, p) implies on_stack(t2, st[p].0) by {
                    assert(on_stack(t0, st[p].0));
                    let i = choose|i: int| 0 <= i < t0.len() && t0[i].0 == st[p].0;
                    assert(t0[k as int].0 == x);
                    assert(i < k);
                    assert(t2[i].0 == st[p].0);
                }
                assert forall|p: int, q: int, i: int, j: int|
                    #![trigger is_active(st, vis, p), is_active(st, vis, q), t2[i], t2[j]]
                    is_active(st, vis, p) && is_active(st, vis, q) && p < q && 0 <= i < t2.len() && 0 <= j
                        < t2.len() && t2[i].0 == st[p].0 && t2[j].0 == st[q].0 implies i < j by {
                    assert(t0[i].0 == t2[i].0);
                    assert(t0[j].0 == t2[j].0);
                }
                assert forall|i: int, j: int| 0 <= i < j < t2.len() implies t2[i].0 != t2[j].0 by {
                    assert(t0[i].0 == t2[i].0);
                    assert(t0[j].0 == t2[j].0);
                }
                assert forall|i: int| 0 <= i < t2.len() implies (#[trigger] t2[i]).1 <= i && vis.contains(t2[i].0) by {
                    assert(t2[i] == t0[i]);
                }
                assert forall|i: int| 0 <= i < t2.len() && (#[trigger] t2[i]).1 == i implies exists|p: int|
                    is_active(st, vis, p) && #[trigger] st[p].0 == t2[i].0 by {
                    assert(t2[i] == t0[i]);
                    assert(t0[i].0 != t0[k as int].0);
                }
                Self::lemma_pop_reach(s1, *self, k as int);
                assert forall|i: int| 0 <= i < t1.len() implies vis.contains((#[trigger] t1[i]).0) by {
                    assert(t1[i].0 == t0[i].0);
                }
                assert forall|i: int| 0 <= i < t1.len() && being_visited(st, vis, (#[trigger] t1[i]).0) implies i < k by {
                    let p = choose|p: int| is_active(st, vis, p) && st[p].0 == t1[i].0;
                    assert(t1[i].0 == t0[i].0);
                }
                assert forall|y: usize| #[trigger] self.emitted@.contains(y) <==> s1.emitted@.contains(y) || exists|i: int|
                    k <= i < t1.len() && t1[i].0 == y by {
                    assert(scc@.contains(y) <==> scc@.to_set().contains(y));
                }
                Self::lemma_pop_order(s1, *self, k as int);
                lemma_maximal(gm, old_e, scc@);
            }
            return Some(scc);
        }
        proof {
            let vis = self.dfs.visited_seq();
            let st = self.dfs.stack_seq();
            assert forall|v: usize| #[trigger] self.emitted@.contains(v) implies vis.contains(v) && !on_stack(t1, v) by {}
            assert forall|v: usize| #[trigger] vis.contains(v) implies self.emitted@.contains(v) || on_stack(t1, v) by {}
            assert forall|p: int| #[trigger] is_active(st, vis, p) implies on_stack(t1, st[p].0) by {}
            assert forall|p: int, q: int, i: int, j: int|
                #![trigger is_active(st, vis, p), is_active(st, vis, q), t1[i], t1[j]]
                is_active(st, vis, p) && is_active(st, vis, q) && p < q && 0 <= i < t1.len() && 0 <= j
                    < t1.len() && t1[i].0 == st[p].0 && t1[j].0 == st[q].0 implies i < j by {
                assert(t0[i].0 == t1[i].0);
                assert(t0[j].0 == t1[j].0);
            }
            assert forall|i: int, j: int| 0 <= i < j < t1.len() implies t1[i].0 != t1[j].0 by {
                assert(t0[i].0 == t1[i].0);
                assert(t0[j].0 == t1[j].0);
            }
            assert forall|i: int| 0 <= i < t1.len() implies (#[trigger] t1[i]).1 <= i && vis.contains(t1[i].0) by {
                assert(t1[i].0 == t0[i].0);
                assert(t0[i].1 <= i);
            }
            assert forall|i: int| 0 <= i < t1.len() && (#[trigger] t1[i]).1 == i implies exists|p: int|
                is_active(st, vis, p) && #[trigger] st[p].0 == t1[i].0 by {
                assert(i != k);
                assert(t1[i] == t0[i]);
                assert(t0[i].0 != t0[k as int].0);
            }
        }
        None
    }

    /// A vertex on the component stack reaches the vertex at the position of
    /// its lowlink value.
    proof fn lemma_lowlink_at(&self, j: int)
        requires
            self.reach_ok(),
            0 <= j < self.stack@.len(),
        ensures
            lowlink_path(self.dfs.spec_graph().model(), self.stack@, j),
    {
        reveal(TarjanScc::reach_ok);
    }

    /// Lowering the lowlink value at `k` to `l`, a position whose vertex the
    /// vertex at `k` reaches, keeps what is known of paths.
    proof fn lemma_lowlink_reach(pre: Self, post: Self, k: int, l: usize)
        requires
            pre.reach_ok(),
            forall|i: int| 0 <= i < pre.stack@.len() ==> (#[trigger] pre.stack@[i]).1 <= i,
            post.dfs == pre.dfs,
            0 <= l < k < pre.stack@.len(),
            post.stack@ == pre.stack@.update(k, (pre.stack@[k].0, l)),
            path(pre.dfs.spec_graph().model(), pre.stack@[k].0, pre.stack@[l as int].0),
        ensures
            post.reach_ok(),
    {
        reveal(TarjanScc::reach_ok);
        let t0 = pre.stack@;
        let t1 = post.stack@;
        let gm = pre.dfs.spec_graph().model();
        let st = pre.dfs.stack_seq();
        let vis = pre.dfs.visited_seq();
        assert forall|i: int| 0 <= i < t1.len() implies #[trigger] t1[i].0 == t0[i].0 by {}
        assert forall|j: int| 0 <= j < t1.len() implies #[trigger] lowlink_path(gm, t1, j) by {
            if j != k {
                assert(t1[j] == t0[j]);
                assert(lowlink_path(gm, t0, j));
                assert(t1[t0[j].1 as int].0 == t0[t0[j].1 as int].0);
            } else {
                assert(t1[l as int].0 == t0[l as int].0);
            }
        }
        assert forall|p: int, i: int, j: int|
            #![trigger is_active(st, vis, p), t1[i], t1[j]]
            is_active(st, vis, p) && 0 <= i < j < t1.len() && t1[i].0 == st[p].0 implies path(gm, t1[i].0, t1[j].0) by {
            assert(t1[i].0 == t0[i].0);
            assert(t1[j].0 == t0[j].0);
            assert(is_active(st, vis, p) && t0[i].0 == st[p].0);
        }
    }

    /// Popping the component stack down to `k` keeps what is known of paths.
    proof fn lemma_pop_reach(pre: Self, post: Self, k: int)
        requires
            pre.reach_ok(),
            post.dfs == pre.dfs,
            0 <= k <= pre.stack@.len(),
            post.stack@ == pre.stack@.take(k),
            forall|i: int| 0 <= i < pre.stack@.len() ==> (#[trigger] pre.stack@[i]).1 <= i,
        ensures
            post.reach_ok(),
    {
        reveal(TarjanScc::reach_ok);
        let t0 = pre.stack@;
        let t1 = post.stack@;
        let gm = pre.dfs.spec_graph().model();
        let st = pre.dfs.stack_seq();
        let vis = pre.dfs.visited_seq();
        assert forall|j: int| 0 <= j < t1.len() implies #[trigger] lowlink_path(gm, t1, j) by {
            assert(t1[j] == t0[j]);
            assert(t0[j].1 <= j);
            assert(lowlink_path(gm, t0, j));
            assert(t1[t0[j].1 as int] == t0[t0[j].1 as int]);
        }
        assert forall|p: int, i: int, j: int|
            #![trigger is_active(st, vis, p), t1[i], t1[j]]
            is_active(st, vis, p) && 0 <= i < j < t1.len() && t1[i].0 == st[p].0 implies path(gm, t1[i].0, t1[j].0) by {
            assert(t1[i] == t0[i]);
            assert(t1[j] == t0[j]);
            assert(is_active(st, vis, p) && t0[i].0 == st[p].0);
        }
    }

    /// The vertices from the root `x` of a component up the component stack
    /// all reach `x` and are reached from it.
    proof fn lemma_component(pre: Self, x: usize, k: int)
        requires
            pre.reach_ok(),
            0 <= k < pre.stack@.len(),
            pre.stack@[k].0 == x,
            pre.stack@[k].1 == k,
            forall|i: int| 0 <= i < pre.stack@.len() ==> (#[trigger] pre.stack@[i]).1 <= i,
            forall|i: int, j: int| 0 <= i < j < pre.stack@.len() ==> pre.stack@[i].0 != pre.stack@[j].0,
            forall|i: int|
                0 <= i < pre.stack@.len() && (#[trigger] pre.stack@[i]).1 == i && pre.stack@[i].0 != x
                    ==> being_visited(pre.dfs.stack_seq(), pre.dfs.visited_seq(), pre.stack@[i].0),
            forall|p: int, i: int|
                #![trigger is_active(pre.dfs.stack_seq(), pre.dfs.visited_seq(), p), pre.stack@[i]]
                is_active(pre.dfs.stack_seq(), pre.dfs.visited_seq(), p) && 0 <= i < pre.stack@.len()
                    && pre.stack@[i].0 == pre.dfs.stack_seq()[p].0 ==> i < k,
            forall|j: int| k < j < pre.stack@.len() ==> path(pre.dfs.spec_graph().model(), x, #[trigger] pre.stack@[j].0),
        ensures
            forall|j: int|
                k <= j < pre.stack@.len() ==> path(pre.dfs.spec_graph().model(), #[trigger] pre.stack@[j].0, x)
                    && path(pre.dfs.spec_graph().model(), x, pre.stack@[j].0),
    {
        reveal(TarjanScc::reach_ok);
        let t = pre.stack@;
        let gm = pre.dfs.spec_graph().model();
        let st = pre.dfs.stack_seq();
        let vis = pre.dfs.visited_seq();
        assert forall|i: int|
            0 <= i < t.len() && i != k && (#[trigger] t[i]).1 == i implies i < k && being_visited(st, vis, t[i].0) by {
            assert(t[i].0 != t[k].0);
            assert(being_visited(st, vis, t[i].0));
            let p = choose|p: int| is_active(st, vis, p) && st[p].0 == t[i].0;
        }
        assert forall|i: int|
            0 <= i < k && being_visited(st, vis, (#[trigger] t[i]).0) implies path(gm, t[i].0, t[k].0) by {
            let p = choose|p: int| is_active(st, vis, p) && st[p].0 == t[i].0;
        }
        assert forall|j: int| k <= j < t.len() implies path(gm, #[trigger] t[j].0, x) && path(gm, x, t[j].0) by {
            lemma_reaches_root(gm, st, vis, t, k, j);
            if j == k {
                lemma_path_refl(gm, x);
            }
        }
    }

    /// What the exit of `x` by the traversal, from a state where the
    /// invariant holds, leaves.
    proof fn lemma_exit(pre: Self, post: Self, x: usize)
        requires
            pre.wf_core(),
            forall|w: usize| #[trigger]
                pre.dfs.spec_graph().model().adjacent(x, w) ==> pre.dfs.visited_seq().contains(w),
            post.stack == pre.stack,
            post.emitted == pre.emitted,
            post.unchecked == pre.unchecked,
            post.checked == pre.checked,
            post.dfs.wf(),
            post.dfs.spec_graph() == pre.dfs.spec_graph(),
            post.dfs.visited_seq() == pre.dfs.visited_seq(),
            ({
                let s0 = pre.dfs.stack_seq();
                let s1 = post.dfs.stack_seq();
                let vis = pre.dfs.visited_seq();
                &&& s1.len() < s0.len()
                &&& s1 == s0.take(s1.len() as int)
                &&& s0[s1.len() as int] == (x, true)
                &&& forall|i: int| s1.len() <= i < s0.len() ==> vis.contains((#[trigger] s0[i]).0)
                &&& forall|i: int| s1.len() < i < s0.len() ==> !(#[trigger] s0[i]).1
            }),
        ensures
            post.exiting(x),
    {
        let s0 = pre.dfs.stack_seq();
        let s1 = post.dfs.stack_seq();
        let vis = pre.dfs.visited_seq();
        let t = pre.stack@;
        let u = pre.unchecked@;
        let l = s1.len() as int;
        assert forall|p: int| 0 <= p < l implies #[trigger] s1[p] == s0[p] by {}
        assert forall|p: int| #[trigger] is_active(s1, vis, p) implies is_active(s0, vis, p) by {
            assert(s1[p] == s0[p]);
        }
        assert forall|k: int| 0 <= k < post.checked implies vis.contains(#[trigger] u[k]) || stack_vertices(s1).contains(u[k]) by {
            if !vis.contains(u[k]) {
                assert(stack_vertices(s0).contains(u[k]));
                let m = choose|m: int| 0 <= m < s0.len() && (#[trigger] s0[m]).0 == u[k];
                if m < l {
                    assert(s1[m].0 == u[k]);
                } else {
                    assert(vis.contains(s0[m].0));
                }
            }
        }
        assert forall|p: int| 0 <= p < s1.len() && (#[trigger] s1[p]).1 && !vis.contains(s1[p].0) implies p == 0 && s1.len() == 1 by {
            assert(s1[p] == s0[p]);
        }
        assert forall|p: int| #[trigger] is_active(s1, vis, p) implies on_stack(t, s1[p].0) by {
            assert(is_active(s0, vis, p));
        }
        assert forall|p: int, q: int, i: int, j: int|
            #![trigger is_active(s1, vis, p), is_active(s1, vis, q), t[i], t[j]]
            is_active(s1, vis, p) && is_active(s1, vis, q) && p < q && 0 <= i < t.len() && 0 <= j < t.len()
                && t[i].0 == s1[p].0 && t[j].0 == s1[q].0 implies i < j by {
            assert(is_active(s0, vis, p));
            assert(is_active(s0, vis, q));
            assert(s1[p] == s0[p]);
            assert(s1[q] == s0[q]);
        }
        assert(is_active(s0, vis, l));
        assert(on_stack(t, x));
        assert forall|i: int| 0 <= i < t.len() && (#[trigger] t[i]).1 == i && t[i].0 != x implies exists|p: int|
            is_active(s1, vis, p) && #[trigger] s1[p].0 == t[i].0 by {
            let p = choose|p: int| is_active(s0, vis, p) && #[trigger] s0[p].0 == t[i].0;
            assert(p < l);
            assert(s1[p] == s0[p]);
            assert(is_active(s1, vis, p));
        }
        assert forall|p: int, i: int, k: int|
            #![trigger is_active(s1, vis, p), t[i], t[k]]
            is_active(s1, vis, p) && 0 <= i < t.len() && 0 <= k < t.len() && t[i].0 == s1[p].0 && t[k].0 == x implies i < k by {
            assert(is_active(s0, vis, p));
            assert(s1[p] == s0[p]);
            assert(p < l);
        }
        Self::lemma_exit_reach(pre, post, x);
        let k = choose|k: int| 0 <= k < t.len() && t[k].0 == x;
        Self::lemma_exit_order(pre, post, x, k);
        assert forall|k2: int| 0 <= k2 < t.len() && (#[trigger] t[k2]).0 == x implies post.exit_order_ok(k2) by {
            if k2 != k {
                if k2 < k {
                    assert(t[k2].0 != t[k].0);
                } else {
                    assert(t[k].0 != t[k2].0);
                }
            }
        }
    }

    /// What the exit of `x` leaves of what is known of paths.
    proof fn lemma_exit_reach(pre: Self, post: Self, x: usize)
        requires
            pre.reach_ok(),
            post.stack == pre.stack,
            post.dfs.spec_graph() == pre.dfs.spec_graph(),
            post.dfs.visited_seq() == pre.dfs.visited_seq(),
            ({
                let s0 = pre.dfs.stack_seq();
                let s1 = post.dfs.stack_seq();
                let vis = pre.dfs.visited_seq();
                &&& s1.len() < s0.len()
                &&& s1 == s0.take(s1.len() as int)
                &&& s0[s1.len() as int] == (x, true)
                &&& vis.contains(x)
            }),
        ensures
            post.reach_ok(),
            forall|i: int, j: int|
                #![trigger post.stack@[i], post.stack@[j]]
                0 <= i < j < post.stack@.len() && post.stack@[i].0 == x ==> path(
                    post.dfs.spec_graph().model(),
                    x,
                    post.stack@[j].0,
                ),
    {
        Self::lemma_prefix_reach(pre, post);
        reveal(TarjanScc::reach_ok);
        let s0 = pre.dfs.stack_seq();
        let s1 = post.dfs.stack_seq();
        let vis = pre.dfs.visited_seq();
        let t = pre.stack@;
        let l = s1.len() as int;
        assert(is_active(s0, vis, l));
        assert forall|i: int, j: int|
            #![trigger t[i], t[j]]
            0 <= i < j < t.len() && t[i].0 == x implies path(pre.dfs.spec_graph().model(), x, t[j].0) by {
            assert(is_active(s0, vis, l) && t[i].0 == s0[l].0);
        }
    }

    /// Cutting the traversal stack down to a prefix, keeping the visited
    /// vertices and the component stack, keeps what is known of paths.
    proof fn lemma_prefix_reach(pre: Self, post: Self)
        requires
            pre.reach_ok(),
            post.stack == pre.stack,
            post.dfs.spec_graph() == pre.dfs.spec_graph(),
            post.dfs.visited_seq() == pre.dfs.visited_seq(),
            post.dfs.stack_seq().len() <= pre.dfs.stack_seq().len(),
            post.dfs.stack_seq() == pre.dfs.stack_seq().take(post.dfs.stack_seq().len() as int),
        ensures
            post.reach_ok(),
    {
        reveal(TarjanScc::reach_ok);
        let s0 = pre.dfs.stack_seq();
        let s1 = post.dfs.stack_seq();
        let vis = pre.dfs.visited_seq();
        let t = pre.stack@;
        let gm = pre.dfs.spec_graph().model();
        assert forall|p: int, i: int, j: int|
            #![trigger is_active(s1, vis, p), t[i], t[j]]
            is_active(s1, vis, p) && 0 <= i < j < t.len() && t[i].0 == s1[p].0 implies path(gm, t[i].0, t[j].0) by {
            assert(s1[p] == s0[p]);
            assert(is_active(s0, vis, p));
        }
    }

    /// With nothing on the component stack, nothing is to be known of paths.
    proof fn lemma_empty_reach(post: Self)
        requires
            post.stack@.len() == 0,
        ensures
            post.reach_ok(),
    {
        reveal(TarjanScc::reach_ok);
    }

    /// What the visit of `v`, pushed on the component stack, leaves of what
    /// is known of paths.
    proof fn lemma_visit_reach(pre: Self, post: Self, v: usize)
        requires
            pre.wf_core(),
            pre.stack@.len() <= usize::MAX,
            post.stack@ == pre.stack@.push((v, pre.stack@.len() as usize)),
            post.dfs.spec_graph() == pre.dfs.spec_graph(),
            !pre.dfs.visited_seq().contains(v),
            post.dfs.visited_seq() == pre.dfs.visited_seq().push(v),
            ({
                let s0 = pre.dfs.stack_seq();
                let s1 = post.dfs.stack_seq();
                &&& s0.len() > 0
                &&& v == s0.last().0
                &&& s1.len() >= s0.len()
                &&& s1.take(s0.len() as int) == s0.update(s0.len() - 1, (v, true))
                &&& forall|i: int| s0.len() <= i < s1.len() ==> !(#[trigger] s1[i]).1
                &&& !s0.last().1 ==> pushed_by_parent(pre.dfs.spec_graph().model(), s0, s0.len() - 1)
            }),
        ensures
            post.reach_ok(),
    {
        reveal(TarjanScc::reach_ok);
        let gm = pre.dfs.spec_graph().model();
        let s0 = pre.dfs.stack_seq();
        let s1 = post.dfs.stack_seq();
        let vis0 = pre.dfs.visited_seq();
        let vis1 = post.dfs.visited_seq();
        let t0 = pre.stack@;
        let t1 = post.stack@;
        let n = s0.len() as int;
        let len = t0.len() as int;
        assert forall|y: usize| #[trigger] vis1.contains(y) <==> vis0.contains(y) || y == v by {
            if vis1.contains(y) {
                let i = choose|i: int| 0 <= i < vis1.len() && vis1[i] == y;
                if i < vis0.len() {
                    assert(vis0[i] == y);
                }
            }
            if vis0.contains(y) {
                let i = choose|i: int| 0 <= i < vis0.len() && vis0[i] == y;
                assert(vis1[i] == y);
            }
            if y == v {
                assert(vis1[vis0.len() as int] == y);
            }
        }
        assert forall|q: int| 0 <= q < n - 1 implies #[trigger] s1[q] == s0[q] by {
            assert(s1.take(n)[q] == s1[q]);
        }
        assert forall|i: int| 0 <= i < len implies (#[trigger] t0[i]).0 != v && t1[i] == t0[i] by {
            assert(vis0.contains(t0[i].0));
        }
        assert forall|j: int| 0 <= j < t1.len() implies #[trigger] lowlink_path(gm, t1, j) by {
            if j < len {
                assert(t0[j].1 <= j);
                assert(lowlink_path(gm, t0, j));
                assert(t1[t0[j].1 as int] == t0[t0[j].1 as int]);
            } else {
                assert(t1[j] == (v, len as usize));
                lemma_path_refl(gm, v);
            }
        }
        assert forall|p: int, i: int, j: int|
            #![trigger is_active(s1, vis1, p), t1[i], t1[j]]
            is_active(s1, vis1, p) && 0 <= i < j < t1.len() && t1[i].0 == s1[p].0 implies path(gm, t1[i].0, t1[j].0) by {
            assert(t1[i] == t0[i]);
            assert(vis0.contains(t0[i].0));
            if p >= n - 1 {
                if p == n - 1 {
                    assert(s1[p] == s1.take(n)[p]);
                    assert(s1[p].0 == v);
                }
            }
            assert(p < n - 1);
            assert(s1[p] == s0[p]);
            assert(is_active(s0, vis0, p));
            if j < len {
                assert(t1[j] == t0[j]);
            } else {
                assert(t1[j].0 == v);
                if s0.last().1 {
                    assert(s0[n - 1].1 && !vis0.contains(s0[n - 1].0));
                } else {
                    let a = choose|a: int|
                        0 <= a < n - 1 && s0[a].1 && gm.adjacent(s0[a].0, s0[n - 1].0) && forall|b: int|
                            a < b < n - 1 ==> !(#[trigger] s0[b]).1;
                    if !vis0.contains(s0[a].0) {
                        assert(s0[a].1 && !vis0.contains(s0[a].0));
                    }
                    assert(is_active(s0, vis0, a));
                    if p > a {
                        assert(!s0[p].1);
                    }
                    if p < a {
                        assert(on_stack(t0, s0[a].0));
                        let ia = choose|ia: int| 0 <= ia < t0.len() && t0[ia].0 == s0[a].0;
                        assert(is_active(s0, vis0, p) && is_active(s0, vis0, a) && t0[i].0 == s0[p].0 && t0[ia].0 == s0[a].0);
                        assert(i < ia);
                        assert(path(gm, t0[i].0, t0[ia].0));
                        lemma_path_edge(gm, t0[i].0, s0[a].0, v);
                    } else {
                        lemma_path_refl(gm, t0[i].0);
                        lemma_path_edge(gm, t0[i].0, s0[a].0, v);
                    }
                }
            }
        }
    }

    /// What popping finished entries off the traversal stack, none of them
    /// marked to be exited, leaves.
    proof fn lemma_pop(pre: Self, post: Self)
        requires
            pre.wf_core(),
            post.stack == pre.stack,
            post.emitted == pre.emitted,
            post.unchecked == pre.unchecked,
            post.checked == pre.checked,
            post.dfs.wf(),
            post.dfs.spec_graph() == pre.dfs.spec_graph(),
            post.dfs.visited_seq() == pre.dfs.visited_seq(),
            ({
                let s0 = pre.dfs.stack_seq();
                let s1 = post.dfs.stack_seq();
                let vis = pre.dfs.visited_seq();
                &&& s1.len() <= s0.len()
                &&& s1 == s0.take(s1.len() as int)
                &&& forall|i: int| s1.len() <= i < s0.len() ==> vis.contains((#[trigger] s0[i]).0)
                &&& forall|i: int| s1.len() <= i < s0.len() ==> !(#[trigger] s0[i]).1
            }),
        ensures
            post.wf_core(),
    {
        let s0 = pre.dfs.stack_seq();
        let s1 = post.dfs.stack_seq();
        let vis = pre.dfs.visited_seq();
        let t = pre.stack@;
        let u = pre.unchecked@;
        let l = s1.len() as int;
        assert forall|p: int| 0 <= p < l implies #[trigger] s1[p] == s0[p] by {}
        assert forall|p: int| #[trigger] is_active(s1, vis, p) implies is_active(s0, vis, p) by {
            assert(s1[p] == s0[p]);
        }
        assert forall|k: int| 0 <= k < post.checked implies vis.contains(#[trigger] u[k]) || stack_vertices(s1).contains(u[k]) by {
            if !vis.contains(u[k]) {
                assert(stack_vertices(s0).contains(u[k]));
                let m = choose|m: int| 0 <= m < s0.len() && (#[trigger] s0[m]).0 == u[k];
                if m < l {
                    assert(s1[m].0 == u[k]);
                } else {
                    assert(vis.contains(s0[m].0));
                }
            }
        }
        assert forall|p: int| 0 <= p < s1.len() && (#[trigger] s1[p]).1 && !vis.contains(s1[p].0) implies p == 0 && s1.len() == 1 by {
            assert(s1[p] == s0[p]);
        }
        assert forall|p: int| #[trigger] is_active(s1, vis, p) implies on_stack(t, s1[p].0) by {
            assert(is_active(s0, vis, p));
        }
        assert forall|p: int, q: int, i: int, j: int|
            #![trigger is_active(s1, vis, p), is_active(s1, vis, q), t[i], t[j]]
            is_active(s1, vis, p) && is_active(s1, vis, q) && p < q && 0 <= i < t.len() && 0 <= j < t.len()
                && t[i].0 == s1[p].0 && t[j].0 == s1[q].0 implies i < j by {
            assert(is_active(s0, vis, p));
            assert(is_active(s0, vis, q));
            assert(s1[p] == s0[p]);
            assert(s1[q] == s0[q]);
        }
        assert forall|i: int| 0 <= i < t.len() && (#[trigger] t[i]).1 == i implies exists|p: int|
            is_active(s1, vis, p) && #[trigger] s1[p].0 == t[i].0 by {
            let p = choose|p: int| is_active(s0, vis, p) && #[trigger] s0[p].0 == t[i].0;
            assert(p < l);
            assert(s1[p] == s0[p]);
            assert(is_active(s1, vis, p));
        }
        assert forall|u: usize| #[trigger] being_visited(s1, vis, u) == being_visited(s0, vis, u) by {
            if being_visited(s0, vis, u) {
                let p = choose|p: int| is_active(s0, vis, p) && s0[p].0 == u;
                if p >= l {
                    assert(!s0[p].1);
                }
                assert(s1[p] == s0[p]);
                assert(is_active(s1, vis, p));
            }
        }
        Self::lemma_order_same_active(pre, post);
        Self::lemma_prefix_reach(pre, post);
    }

    /// Which vertices are being visited after the visit of `v`, pushed on
    /// the component stack: those before, and `v`; and the vertex being
    /// visited next below `v` on the component stack has an edge to it.
    proof fn lemma_visit_active(pre: Self, post: Self, v: usize)
        requires
            pre.wf_core(),
            pre.stack@.len() <= usize::MAX,
            post.stack@ == pre.stack@.push((v, pre.stack@.len() as usize)),
            post.dfs.spec_graph() == pre.dfs.spec_graph(),
            !pre.dfs.visited_seq().contains(v),
            post.dfs.visited_seq() == pre.dfs.visited_seq().push(v),
            ({
                let s0 = pre.dfs.stack_seq();
                let s1 = post.dfs.stack_seq();
                &&& s0.len() > 0
                &&& v == s0.last().0
                &&& s1.len() >= s0.len()
                &&& s1.take(s0.len() as int) == s0.update(s0.len() - 1, (v, true))
                &&& forall|i: int| s0.len() <= i < s1.len() ==> !(#[trigger] s1[i]).1
                &&& !s0.last().1 ==> pushed_by_parent(pre.dfs.spec_graph().model(), s0, s0.len() - 1)
            }),
        ensures
            forall|y: usize| #[trigger]
                post.dfs.visited_seq().contains(y) <==> pre.dfs.visited_seq().contains(y) || y == v,
            forall|u: usize| #[trigger]
                being_visited(post.dfs.stack_seq(), post.dfs.visited_seq(), u) <==> being_visited(
                    pre.dfs.stack_seq(),
                    pre.dfs.visited_seq(),
                    u,
                ) || u == v,
            forall|i: int|
                0 <= i < pre.stack@.len() ==> pre.dfs.visited_seq().contains((#[trigger] pre.stack@[i]).0),
            forall|a: int|
                0 <= a < pre.stack@.len() && being_visited(
                    pre.dfs.stack_seq(),
                    pre.dfs.visited_seq(),
                    (#[trigger] pre.stack@[a]).0,
                ) && none_active_between(
                    pre.dfs.stack_seq(),
                    pre.dfs.visited_seq(),
                    pre.stack@,
                    a,
                    pre.stack@.len() as int,
                ) ==> pre.dfs.spec_graph().model().adjacent(pre.stack@[a].0, v),
    {
        let gm = pre.dfs.spec_graph().model();
        let s0 = pre.dfs.stack_seq();
        let s1 = post.dfs.stack_seq();
        let vis0 = pre.dfs.visited_seq();
        let vis1 = post.dfs.visited_seq();
        let t0 = pre.stack@;
        let n = s0.len() as int;
        let len = t0.len() as int;
        assert forall|y: usize| #[trigger] vis1.contains(y) <==> vis0.contains(y) || y == v by {
            if vis1.contains(y) {
                let i = choose|i: int| 0 <= i < vis1.len() && vis1[i] == y;
                if i < vis0.len() {
                    assert(vis0[i] == y);
                }
            }
            if vis0.contains(y) {
                let i = choose|i: int| 0 <= i < vis0.len() && vis0[i] == y;
                assert(vis1[i] == y);
            }
            if y == v {
                assert(vis1[vis0.len() as int] == y);
            }
        }
        assert forall|p: int| 0 <= p < n - 1 implies #[trigger] s1[p] == s0[p] by {
            assert(s1.take(n)[p] == s1[p]);
        }
        assert(s1[n - 1] == (v, true)) by {
            assert(s1.take(n)[n - 1] == s1[n - 1]);
        }
        assert forall|u: usize| #[trigger] being_visited(s1, vis1, u) <==> being_visited(s0, vis0, u) || u == v by {
            if being_visited(s1, vis1, u) {
                let p = choose|p: int| is_active(s1, vis1, p) && s1[p].0 == u;
                if p < n - 1 {
                    assert(s1[p] == s0[p]);
                    if !vis0.contains(s0[p].0) {
                        assert(s0[p].1 && !vis0.contains(s0[p].0));
                    }
                    assert(is_active(s0, vis0, p));
                } else if p > n - 1 {
                    assert(!s1[p].1);
                }
            }
            if being_visited(s0, vis0, u) {
                let p = choose|p: int| is_active(s0, vis0, p) && s0[p].0 == u;
                if p == n - 1 {
                    assert(s0[p].0 == v);
                }
                assert(p < n - 1);
                assert(s1[p] == s0[p]);
                assert(is_active(s1, vis1, p));
            }
            if u == v {
                assert(is_active(s1, vis1, n - 1));
            }
        }
        assert forall|a: int|
            0 <= a < len && being_visited(s0, vis0, (#[trigger] t0[a]).0) && none_active_between(s0, vis0, t0, a, len)
                implies gm.adjacent(t0[a].0, v) by {
            let p = choose|p: int| is_active(s0, vis0, p) && s0[p].0 == t0[a].0;
            if s0.last().1 {
                assert(s0[n - 1].1 && !vis0.contains(s0[n - 1].0));
                assert(false);
            } else {
                let a2 = choose|a2: int|
                    0 <= a2 < n - 1 && s0[a2].1 && gm.adjacent(s0[a2].0, s0[n - 1].0) && forall|c: int|
                        a2 < c < n - 1 ==> !(#[trigger] s0[c]).1;
                if !vis0.contains(s0[a2].0) {
                    assert(s0[a2].1 && !vis0.contains(s0[a2].0));
                }
                assert(is_active(s0, vis0, a2));
                assert(on_stack(t0, s0[a2].0));
                let ia = choose|ia: int| 0 <= ia < t0.len() && t0[ia].0 == s0[a2].0;
                assert(p != n - 1);
                if p > a2 {
                    assert(!s0[p].1);
                } else if p < a2 {
                    assert(is_active(s0, vis0, p) && is_active(s0, vis0, a2) && t0[a].0 == s0[p].0 && t0[ia].0 == s0[a2].0);
                    assert(a < ia);
                    assert(being_visited(s0, vis0, t0[ia].0));
                } else {
                    if a != ia {
                        if a < ia {
                            assert(t0[a].0 != t0[ia].0);
                        } else {
                            assert(t0[ia].0 != t0[a].0);
                        }
                    }
                }
            }
        }
    }

    /// What the visit of `v`, pushed on the component stack, leaves of what
    /// is known of the order.
    proof fn lemma_visit_order(pre: Self, post: Self, v: usize)
        requires
            pre.wf_core(),
            pre.stack@.len() <= usize::MAX,
            post.stack@ == pre.stack@.push((v, pre.stack@.len() as usize)),
            post.emitted == pre.emitted,
            post.dfs.spec_graph() == pre.dfs.spec_graph(),
            !pre.dfs.visited_seq().contains(v),
            post.dfs.visited_seq() == pre.dfs.visited_seq().push(v),
            ({
                let s0 = pre.dfs.stack_seq();
                let s1 = post.dfs.stack_seq();
                &&& s0.len() > 0
                &&& v == s0.last().0
                &&& s1.len() >= s0.len()
                &&& s1.take(s0.len() as int) == s0.update(s0.len() - 1, (v, true))
                &&& forall|i: int| s0.len() <= i < s1.len() ==> !(#[trigger] s1[i]).1
                &&& !s0.last().1 ==> pushed_by_parent(pre.dfs.spec_graph().model(), s0, s0.len() - 1)
            }),
        ensures
            post.order_ok(),
    {
        Self::lemma_visit_active(pre, post, v);
        lemma_push_order(
            pre.dfs.spec_graph().model(),
            pre.dfs.stack_seq(),
            post.dfs.stack_seq(),
            pre.dfs.visited_seq(),
            post.dfs.visited_seq(),
            pre.stack@,
            post.stack@,
            v,
        );
    }

    /// What the visit of `v` by the traversal, with `v` pushed on the
    /// component stack, leaves.
    proof fn lemma_visit(pre: Self, post: Self, v: usize)
        requires
            pre.wf_core(),
            pre.stack@.len() <= usize::MAX,
            post.stack@ == pre.stack@.push((v, pre.stack@.len() as usize)),
            post.emitted == pre.emitted,
            post.unchecked == pre.unchecked,
            post.checked == pre.checked,
            post.dfs.wf(),
            post.dfs.spec_graph() == pre.dfs.spec_graph(),
            !pre.dfs.visited_seq().contains(v),
            post.dfs.visited_seq() == pre.dfs.visited_seq().push(v),
            ({
                let s0 = pre.dfs.stack_seq();
                let s1 = post.dfs.stack_seq();
                &&& s0.len() > 0
                &&& v == s0.last().0
                &&& s1.len() >= s0.len()
                &&& s1.take(s0.len() as int) == s0.update(s0.len() - 1, (v, true))
                &&& forall|i: int| s0.len() <= i < s1.len() ==> !(#[trigger] s1[i]).1
                &&& !s0.last().1 ==> pushed_by_parent(pre.dfs.spec_graph().model(), s0, s0.len() - 1)
            }),
        ensures
            post.wf_core(),
    {
        Self::lemma_visit_reach(pre, post, v);
        Self::lemma_visit_order(pre, post, v);
        let s0 = pre.dfs.stack_seq();
        let s1 = post.dfs.stack_seq();
        let vis0 = pre.dfs.visited_seq();
        let vis1 = post.dfs.visited_seq();
        let t0 = pre.stack@;
        let t1 = post.stack@;
        let u = pre.unchecked@;
        let n = s0.len() as int;
        let len = t0.len() as int;
        assert forall|y: usize| #[trigger] vis1.contains(y) <==> vis0.contains(y) || y == v by {
            if vis1.contains(y) {
                let i = choose|i: int| 0 <= i < vis1.len() && vis1[i] == y;
                if i < vis0.len() {
                    assert(vis0[i] == y);
                }
            }
            if vis0.contains(y) {
                let i = choose|i: int| 0 <= i < vis0.len() && vis0[i] == y;
                assert(vis1[i] == y);
            }
            if y == v {
                assert(vis1[vis0.len() as int] == y);
            }
        }
        assert forall|p: int| 0 <= p < n - 1 implies #[trigger] s1[p] == s0[p] by {
            assert(s1.take(n)[p] == s1[p]);
        }
        assert(s1[n - 1] == (v, true)) by {
            assert(s1.take(n)[n - 1] == s1[n - 1]);
        }
        assert forall|y: usize| #[trigger] on_stack(t1, y) <==> on_stack(t0, y) || y == v by {
            if on_stack(t1, y) {
                let i = choose|i: int| 0 <= i < t1.len() && t1[i].0 == y;
                if i < len {
                    assert(t0[i].0 == y);
                }
            }
            if on_stack(t0, y) {
                let i = choose|i: int| 0 <= i < t0.len() && t0[i].0 == y;
                assert(t1[i].0 == y);
            }
            if y == v {
                assert(t1[len].0 == y);
            }
        }
        assert forall|i: int| 0 <= i < len implies (#[trigger] t0[i]).0 != v by {
            assert(vis0.contains(t0[i].0));
        }
        // What is active in the new traversal stack was active before, or is `v`.
        assert forall|p: int| #[trigger] is_active(s1, vis1, p) implies (p < n - 1 && is_active(s0, vis0, p)
            && s1[p].0 != v) || (p == n - 1 && s1[p].0 == v) by {
            if p < n - 1 {
                assert(s1[p] == s0[p]);
                if !vis0.contains(s0[p].0) {
                    assert(p == n - 1);
                }
            }
        }
        assert forall|k: int| 0 <= k < post.checked implies vis1.contains(#[trigger] u[k]) || stack_vertices(s1).contains(u[k]) by {
            if !vis0.contains(u[k]) {
                assert(stack_vertices(s0).contains(u[k]));
                let m = choose|m: int| 0 <= m < s0.len() && (#[trigger] s0[m]).0 == u[k];
                if m < n - 1 {
                    assert(s1[m].0 == u[k]);
                } else {
                    assert(vis1.contains(u[k]));
                }
            }
        }
        assert forall|i: int, j: int| 0 <= i < j < t1.len() implies t1[i].0 != t1[j].0 by {
            if j < len {
                assert(t1[i] == t0[i]);
                assert(t1[j] == t0[j]);
            } else {
                assert(t1[i] == t0[i]);
            }
        }
        assert forall|i: int| 0 <= i < t1.len() implies (#[trigger] t1[i]).1 <= i && vis1.contains(t1[i].0) by {
            if i < len {
                assert(t1[i] == t0[i]);
            }
        }
        assert forall|x: usize| #[trigger] post.emitted@.contains(x) implies vis1.contains(x) && !on_stack(t1, x) by {
            assert(on_stack(t1, x) <==> on_stack(t0, x) || x == v);
        }
        assert forall|x: usize| #[trigger] vis1.contains(x) implies post.emitted@.contains(x) || on_stack(t1, x) by {
            assert(on_stack(t1, x) <==> on_stack(t0, x) || x == v);
        }
        assert forall|p: int| 0 <= p < s1.len() && (#[trigger] s1[p]).1 && !vis1.contains(s1[p].0) implies p == 0 && s1.len() == 1 by {
            if p < n - 1 {
                assert(s1[p] == s0[p]);
            }
        }
        assert forall|p: int| #[trigger] is_active(s1, vis1, p) implies on_stack(t1, s1[p].0) by {
            if p < n - 1 {
                assert(is_active(s0, vis0, p));
                assert(on_stack(t0, s0[p].0));
            }
            assert(on_stack(t1, s1[p].0) <==> on_stack(t0, s1[p].0) || s1[p].0 == v);
        }
        assert forall|p: int, q: int, i: int, j: int|
            #![trigger is_active(s1, vis1, p), is_active(s1, vis1, q), t1[i], t1[j]]
            is_active(s1, vis1, p) && is_active(s1, vis1, q) && p < q && 0 <= i < t1.len() && 0 <= j < t1.len()
                && t1[i].0 == s1[p].0 && t1[j].0 == s1[q].0 implies i < j by {
            assert(p < n - 1 && is_active(s0, vis0, p) && s1[p].0 != v);
            if i == len {
                assert(t1[i].0 == v);
            }
            assert(t1[i] == t0[i]);
            if q == n - 1 {
                if j < len {
                    assert(t1[j] == t0[j]);
                }
            } else {
                assert(is_active(s0, vis0, q));
                if j == len {
                    assert(t1[j].0 == v);
                }
                assert(t1[j] == t0[j]);
            }
        }
        assert forall|i: int| 0 <= i < t1.len() && (#[trigger] t1[i]).1 == i implies exists|p: int|
            is_active(s1, vis1, p) && #[trigger] s1[p].0 == t1[i].0 by {
            if i == len {
                assert(is_active(s1, vis1, n - 1));
                assert(s1[n - 1].0 == t1[i].0);
            } else {
                assert(t1[i] == t0[i]);
                let p = choose|p: int| is_active(s0, vis0, p) && #[trigger] s0[p].0 == t0[i].0;
                if p == n - 1 {
                    assert(s0[p].0 == v);
                }
                assert(s1[p] == s0[p]);
                assert(is_active(s1, vis1, p));
            }
        }
    }

    /// What continuing the finished traversal from `v` leaves.
    proof fn lemma_continue(pre: Self, post: Self, v: usize, cont: bool)
        requires
            pre.wf_core(),
            pre.dfs.stack_seq().len() == 0,
            pre.checked < pre.unchecked@.len(),
            pre.unchecked@[pre.checked as int] == v,
            post.stack == pre.stack,
            post.emitted == pre.emitted,
            post.unchecked == pre.unchecked,
            post.checked == pre.checked + 1,
            post.dfs.wf(),
            post.dfs.spec_graph() == pre.dfs.spec_graph(),
            post.dfs.visited_seq() == pre.dfs.visited_seq(),
            cont == !pre.dfs.visited_seq().contains(v),
            cont ==> post.dfs.stack_seq() == seq![(v, true)],
            !cont ==> post.dfs.stack_seq() == pre.dfs.stack_seq(),
        ensures
            post.wf_core(),
            pre.stack@.len() == 0,
    {
        let vis = pre.dfs.visited_seq();
        let s1 = post.dfs.stack_seq();
        let u = pre.unchecked@;
        let t = pre.stack@;
        pre.lemma_empty();
        Self::lemma_empty_reach(post);
        assert forall|u: usize| !being_visited(s1, vis, u) by {
            if being_visited(s1, vis, u) {
                let p = choose|p: int| is_active(s1, vis, p) && s1[p].0 == u;
                assert(s1[0].0 == v);
            }
        }
        Self::lemma_order_idle(pre, post);
        assert forall|k: int| 0 <= k < post.checked implies vis.contains(#[trigger] u[k]) || stack_vertices(s1).contains(u[k]) by {
            if k < pre.checked {
                assert(!stack_vertices(pre.dfs.stack_seq()).contains(u[k]));
            } else if cont {
                assert(s1[0].0 == v);
            }
        }
        assert forall|p: int| #[trigger] is_active(s1, vis, p) implies on_stack(t, s1[p].0) by {
            assert(s1[0].0 == v);
        }
    }

    /// When the traversal stack is empty, so is the component stack.
    proof fn lemma_empty(&self)
        requires
            self.wf_core(),
            self.dfs.stack_seq().len() == 0,
        ensures
            self.stack@.len() == 0,
    {
        let t = self.stack@;
        if t.len() > 0 {
            assert(t[0].1 <= 0);
            let p = choose|p: int| is_active(self.dfs.stack_seq(), self.dfs.visited_seq(), p) && #[trigger] self.dfs.stack_seq()[p].0 == t[0].0;
        }
    }

    /// Recording a component found by a step keeps what holds of the
    /// components returned.
    proof fn lemma_record(pre: Self, post: Self, scc: Seq<usize>)
        requires
            pre.history_ok(),
            post.dfs.spec_graph() == pre.dfs.spec_graph(),
            post.returned@ == pre.returned@.push(scc),
            scc.len() > 0,
            scc.no_duplicates(),
            forall|i: int| 0 <= i < scc.len() ==> !pre.emitted@.contains(#[trigger] scc[i]),
            post.emitted@ == pre.emitted@.union(scc.to_set()),
            forall|a: int, b: int|
                0 <= a < scc.len() && 0 <= b < scc.len() ==> pre.dfs.spec_graph().model().reachable(
                    #[trigger] scc[a],
                    #[trigger] scc[b],
                ),
            forall|a: int, w: usize|
                0 <= a < scc.len() && #[trigger] pre.dfs.spec_graph().model().adjacent(scc[a], w)
                    ==> scc.contains(w) || pre.emitted@.contains(w),
            forall|a: int, y: usize|
                0 <= a < scc.len() && #[trigger] pre.dfs.spec_graph().model().reachable(scc[a], y)
                    && pre.dfs.spec_graph().model().reachable(y, scc[a]) ==> scc.contains(y),
        ensures
            post.history_ok(),
    {
        let gm = pre.dfs.spec_graph().model();
        let c0 = pre.returned@;
        let c = post.returned@;
        let n = c0.len() as int;
        assert(c[n] == scc);
        assert forall|i: int| 0 <= i < n implies #[trigger] c[i] == c0[i] by {}
        assert forall|x: usize|
            #[trigger] post.emitted@.contains(x) <==> exists|i: int| 0 <= i < c.len() && #[trigger] c[i].contains(x) by {
            if pre.emitted@.contains(x) {
                let i = choose|i: int| 0 <= i < c0.len() && #[trigger] c0[i].contains(x);
                assert(c[i] == c0[i]);
            }
            if scc.contains(x) {
                assert(c[n].contains(x));
            }
            if exists|i: int| 0 <= i < c.len() && #[trigger] c[i].contains(x) {
                let i = choose|i: int| 0 <= i < c.len() && #[trigger] c[i].contains(x);
                if i < n {
                    assert(c0[i].contains(x));
                }
            }
        }
        assert forall|i: int, j: int, x: usize|
            0 <= i < j < c.len() && #[trigger] c[i].contains(x) implies !#[trigger] c[j].contains(x) by {
            if j < n {
                assert(c0[i].contains(x));
            } else {
                assert(c0[i].contains(x));
                assert(pre.emitted@.contains(x));
                if scc.contains(x) {
                    let k = choose|k: int| 0 <= k < scc.len() && scc[k] == x;
                }
            }
        }
        assert forall|i: int, a: usize, b: usize|
            #![trigger c[i].contains(a), c[i].contains(b)]
            0 <= i < c.len() && c[i].contains(a) && c[i].contains(b) implies gm.reachable(a, b) by {
            if i < n {
                assert(c0[i].contains(a) && c0[i].contains(b));
            } else {
                let ka = choose|k: int| 0 <= k < scc.len() && scc[k] == a;
                let kb = choose|k: int| 0 <= k < scc.len() && scc[k] == b;
                assert(gm.reachable(scc[ka], scc[kb]));
            }
        }
        assert forall|i: int, a: usize, y: usize|
            #![trigger c[i].contains(a), gm.reachable(a, y)]
            0 <= i < c.len() && c[i].contains(a) && gm.reachable(a, y) && gm.reachable(y, a) implies c[i].contains(y) by {
            if i < n {
                assert(c0[i].contains(a));
            } else {
                let ka = choose|k: int| 0 <= k < scc.len() && scc[k] == a;
                assert(gm.reachable(scc[ka], y));
            }
        }
        assert forall|i: int, a: usize, w: usize|
            #![trigger c[i].contains(a), gm.adjacent(a, w)]
            0 <= i < c.len() && c[i].contains(a) && gm.adjacent(a, w) implies exists|j: int|
                0 <= j <= i && #[trigger] c[j].contains(w) by {
            if i < n {
                assert(c0[i].contains(a));
                let j = choose|j: int| 0 <= j <= i && #[trigger] c0[j].contains(w);
                assert(c[j] == c0[j]);
            } else {
                let ka = choose|k: int| 0 <= k < scc.len() && scc[k] == a;
                assert(gm.adjacent(scc[ka], w));
                if scc.contains(w) {
                    assert(c[n].contains(w));
                } else {
                    assert(pre.emitted@.contains(w));
                    let j = choose|j: int| 0 <= j < c0.len() && #[trigger] c0[j].contains(w);
                    assert(c[j] == c0[j]);
                }
            }
        }
        assert forall|i: int| 0 <= i < c.len() implies (#[trigger] c[i]).len() > 0 && c[i].no_duplicates() by {
            if i < n {
                assert(c[i] == c0[i]);
            }
        }
    }

    /// Returns the vertices of the next strongly connected component, or
    /// `None` when every vertex has been returned in one.
    pub fn next(&mut self) -> (r: Option<Vec<usize>>)
        requires
            old(self).wf(),
        ensures
            final(self).wf(),
            final(self).spec_graph() == old(self).spec_graph(),
            final(self).start() == old(self).start(),
            match r {
                Some(scc) => final(self).components() == old(self).components().push(scc@),
                None => final(self).components() == old(self).components(),
            },
            match r {
                Some(scc) => {
                    &&& old(self).emitted() == Set::<usize>::empty() ==> forall|i: int|
                        0 <= i < scc@.len() ==> old(self).spec_graph().model().reachable(
                            old(self).start(),
                            #[trigger] scc@[i],
                        )
                    &&& scc@.len() > 0
                    &&& scc@.no_duplicates()
                    &&& forall|i: int|
                        0 <= i < scc@.len() ==> old(self).spec_graph().model().has_vertex(#[trigger] scc@[i])
                            && !old(self).emitted().contains(scc@[i])
                    &&& final(self).emitted() == old(self).emitted().union(scc@.to_set())
                    &&& forall|a: int, b: int|
                        0 <= a < scc@.len() && 0 <= b < scc@.len() ==> old(self).spec_graph().model().reachable(
                            #[trigger] scc@[a],
                            #[trigger] scc@[b],
                        )
                    &&& forall|a: int, w: usize|
                        0 <= a < scc@.len() && #[trigger] old(self).spec_graph().model().adjacent(scc@[a], w)
                            ==> scc@.contains(w) || old(self).emitted().contains(w)
                    &&& forall|a: int, y: usize|
                        0 <= a < scc@.len() && #[trigger] old(self).spec_graph().model().reachable(scc@[a], y)
                            && old(self).spec_graph().model().reachable(y, scc@[a]) ==> scc@.contains(y)
                },
                None => {
                    &&& final(self).emitted() == old(self).emitted()
                    &&& forall|x: usize| #[trigger]
                        final(self).emitted().contains(x) <==> old(self).spec_graph().model().has_vertex(x)
                },
            },
    {
        let ghost pre = *self;
        let r = self.find_next();
        match r {
            Some(scc) => {
                let ghost mid = *self;
                self.returned = Ghost(self.returned@.push(scc@));
                proof {
                    Self::lemma_record(pre, *self, scc@);
                    assert(self.reach_ok() == mid.reach_ok()) by {
                        reveal(TarjanScc::reach_ok);
                    }
                }
                Some(scc)
            },
            None => None,
        }
    }

    /// Finds the next strongly connected component, leaving the record of
    /// the components returned to the caller.
    fn find_next(&mut self) -> (r: Option<Vec<usize>>)
        requires
            old(self).wf_steps(),
        ensures
            final(self).wf_steps(),
            final(self).returned == old(self).returned,
            final(self).spec_graph() == old(self).spec_graph(),
            final(self).start() == old(self).start(),
            match r {
                Some(scc) => {
                    &&& old(self).emitted() == Set::<usize>::empty() ==> forall|i: int|
                        0 <= i < scc@.len() ==> old(self).spec_graph().model().reachable(
                            old(self).start(),
                            #[trigger] scc@[i],
                        )
                    &&& scc@.len() > 0
                    &&& scc@.no_duplicates()
                    &&& forall|i: int|
                        0 <= i < scc@.len() ==> old(self).spec_graph().model().has_vertex(#[trigger] scc@[i])
                            && !old(self).emitted().contains(scc@[i])
                    &&& final(self).emitted() == old(self).emitted().union(scc@.to_set())
                    &&& forall|a: int, b: int|
                        0 <= a < scc@.len() && 0 <= b < scc@.len() ==> old(self).spec_graph().model().reachable(
                            #[trigger] scc@[a],
                            #[trigger] scc@[b],
                        )
                    &&& forall|a: int, w: usize|
                        0 <= a < scc@.len() && #[trigger] old(self).spec_graph().model().adjacent(scc@[a], w)
                            ==> scc@.contains(w) || old(self).emitted().contains(w)
                    &&& forall|a: int, y: usize|
                        0 <= a < scc@.len() && #[trigger] old(self).spec_graph().model().reachable(scc@[a], y)
                            && old(self).spec_graph().model().reachable(y, scc@[a]) ==> scc@.contains(y)
                },
                None => {
                    &&& final(self).emitted() == old(self).emitted()
                    &&& forall|x: usize| #[trigger]
                        final(self).emitted().contains(x) <==> old(self).spec_graph().model().has_vertex(x)
                },
            },
    {
        proof {
            self.dfs.lemma_visited();
        }
        loop
            invariant
                self.wf_core(),
                self.dfs.spec_graph() == old(self).dfs.spec_graph(),
                self.emitted@ == old(self).emitted@,
                self.start == old(self).start,
                self.returned == old(self).returned,
                self.dfs.visited_seq().contains(self.start@),
                old(self).emitted@ == Set::<usize>::empty() ==> self.dfs.roots() == set![self.start@],
            decreases
                self.dfs.spec_graph().model().vertices.len() - self.dfs.visited_seq().len(),
                self.unchecked@.len() - self.checked,
        {
            proof {
                self.dfs.lemma_visited();
            }
            let ghost vis0 = self.dfs.visited_seq();
            let ghost checked0 = self.checked;
            // Finish every exit that is due, returning a component if one is found.
            loop
                invariant
                    self.wf_core(),
                    self.dfs.spec_graph() == old(self).dfs.spec_graph(),
                    self.emitted@ == old(self).emitted@,
                    self.dfs.visited_seq() == vis0,
                    self.checked == checked0,
                    self.start == old(self).start,
                    self.returned == old(self).returned,
                    self.dfs.visited_seq().contains(self.start@),
                    old(self).emitted@ == Set::<usize>::empty() ==> self.dfs.roots() == set![self.start@],
                ensures
                    self.wf_core(),
                    self.dfs.spec_graph() == old(self).dfs.spec_graph(),
                    self.emitted@ == old(self).emitted@,
                    self.dfs.visited_seq() == vis0,
                    self.checked == checked0,
                    self.start == old(self).start,
                    self.returned == old(self).returned,
                    self.dfs.visited_seq().contains(self.start@),
                    old(self).emitted@ == Set::<usize>::empty() ==> self.dfs.roots() == set![self.start@],
                    self.dfs.stack_seq().len() == 0 || !self.dfs.visited_seq().contains(
                        self.dfs.stack_seq().last().0,
                    ),
                decreases self.dfs.stack_seq().len(),
            {
                let ghost pre = *self;
                match self.dfs.advance_next_exit() {
                    Some(x) => {
                        proof {
                            Self::lemma_exit(pre, *self, x);
                        }
                        let ghost mid = *self;
                        match self.exit_vertex(x) {
                            Some(scc) => {
                                proof {
                                    mid.dfs.lemma_visited();
                                    assert forall|i: int| 0 <= i < scc@.len() implies old(self).spec_graph().model().has_vertex(
                                        #[trigger] scc@[i]) by {
                                        let j = choose|j: int| 0 <= j < vis0.len() && vis0[j] == scc@[i];
                                    }
                                    if old(self).emitted@ == Set::<usize>::empty() {
                                        assert forall|i: int| 0 <= i < scc@.len() implies old(self).spec_graph().model().reachable(
                                            self.start@,
                                            #[trigger] scc@[i],
                                        ) by {
                                            let j = choose|j: int| 0 <= j < vis0.len() && vis0[j] == scc@[i];
                                            assert(reached_from(mid.dfs.spec_graph(), mid.dfs.roots(), vis0[j]));
                                            let rt = choose|rt: usize|
                                                mid.dfs.roots().contains(rt) && #[trigger] mid.dfs.spec_graph().model().reachable(
                                                    rt,
                                                    vis0[j],
                                                );
                                            assert(set![self.start@].contains(rt));
                                        }
                                    }
                                    assert(self.emitted@.contains(scc@[0]));
                                }
                                return Some(scc);
                            },
                            None => {},
                        }
                    },
                    None => {
                        proof {
                            Self::lemma_pop(pre, *self);
                        }
                        break;
                    },
                }
            }
            let ghost pre = *self;
            match self.dfs.next() {
                Some(v) => {
                    let len = self.stack.len();
                    self.stack.push((v, len));
                    proof {
                        Self::lemma_visit(pre, *self, v);
                        self.dfs.lemma_visited();
                        let k = choose|k: int|
                            0 <= k < pre.dfs.visited_seq().len() && pre.dfs.visited_seq()[k] == self.start@;
                        assert(self.dfs.visited_seq()[k] == self.start@);
                    }
                },
                None => {
                    proof {
                        assert(self.dfs.stack_seq() =~= pre.dfs.stack_seq().take(0));
                        Self::lemma_prefix_reach(pre, *self);
                        Self::lemma_order_same_active(pre, *self);
                    }
                    // Continue from the first vertex not yet visited.
                    loop
                        invariant_except_break
                            self.dfs.stack_seq().len() == 0,
                        invariant
                            self.wf_core(),
                            self.dfs.spec_graph() == old(self).dfs.spec_graph(),
                            self.emitted@ == old(self).emitted@,
                            self.dfs.visited_seq() == vis0,
                            self.checked >= checked0,
                            self.start == old(self).start,
                            self.returned == old(self).returned,
                            self.dfs.visited_seq().contains(self.start@),
                            old(self).emitted@ == Set::<usize>::empty() ==> self.dfs.roots() == set![self.start@],
                        ensures
                            self.wf_core(),
                            self.dfs.spec_graph() == old(self).dfs.spec_graph(),
                            self.emitted@ == old(self).emitted@,
                            self.dfs.visited_seq() == vis0,
                            self.checked > checked0,
                            self.start == old(self).start,
                            self.returned == old(self).returned,
                            self.dfs.visited_seq().contains(self.start@),
                            old(self).emitted@ == Set::<usize>::empty() ==> self.dfs.roots() == set![self.start@],
                        decreases self.unchecked@.len() - self.checked,
                    {
                        if self.checked >= self.unchecked.len() {
                            proof {
                                self.lemma_empty();
                                self.dfs.lemma_visited();
                                let gm = self.dfs.spec_graph().model();
                                self.dfs.spec_graph().lemma_wf();
                                assert forall|x: usize| #[trigger] self.emitted@.contains(x) <==> gm.has_vertex(x) by {
                                    if gm.has_vertex(x) {
                                        gm.lemma_vertices(x);
                                        let k = choose|k: int| 0 <= k < gm.vertices.len() && gm.vertices[k] == x;
                                        assert(self.unchecked@[k] == x);
                                        assert(!stack_vertices(self.dfs.stack_seq()).contains(x));
                                        assert(self.dfs.visited_seq().contains(x));
                                        assert(!on_stack(self.stack@, x));
                                    }
                                    if self.emitted@.contains(x) {
                                        let j = choose|j: int| 0 <= j < vis0.len() && vis0[j] == x;
                                    }
                                }
                            }
                            return None;
                        }
                        let v = self.unchecked[self.checked];
                        let ghost pre2 = *self;
                        proof {
                            let gm = self.dfs.spec_graph().model();
                            self.dfs.lemma_visited();
                            self.dfs.spec_graph().lemma_wf();
                            gm.lemma_vertices(v);
                        }
                        proof {
                            self.lemma_empty();
                            assert(self.emitted@.contains(self.start@));
                        }
                        let cont = self.dfs.continue_from(v);
                        self.checked = self.checked + 1;
                        proof {
                            assert(pre2.dfs.stack_seq().push((v, true)) =~= seq![(v, true)]);
                            Self::lemma_continue(pre2, *self, v, cont);
                        }
                        if cont {
                            break;
                        }
                    }
                },
            }
        }
    }
}

impl<'a, G: NonNull> TarjanScc<'a, G> {
    /// Prepares to find the strongly connected components of the given
    /// directed graph, starting the traversal from the vertex that
    /// [`get_vertex`](NonNull::get_vertex) returns.
    pub fn new(graph: &'a G) -> (r: Self)
        requires
            graph.wf(),
            graph.model().directed,
        ensures
            r.wf(),
            r.spec_graph() == graph,
            r.emitted() == Set::<usize>::empty(),
            r.start() == graph.model().vertices[0],
            r.components() == Seq::<Seq<usize>>::empty(),
    {
        let start = graph.get_vertex();
        let dfs = Dfs::new(graph, start, ());
        let mut stack: Vec<(usize, usize)> = Vec::new();
        stack.push((start, 0));
        let result = TarjanScc {
            dfs,
            stack,
            unchecked: graph.all_vertices(),
            checked: 0,
            emitted: Ghost(Set::empty()),
            start: Ghost(start),
            returned: Ghost(Seq::empty()),
        };
        proof {
            let st = result.dfs.stack_seq();
            let vis = result.dfs.visited_seq();
            let t = result.stack@;
            assert(vis[0] == start);
            assert(vis.contains(start));
            assert forall|x: usize| #[trigger] vis.contains(x) implies on_stack(t, x) by {
                assert(t[0].0 == start);
            }
            assert(is_active(st, vis, 0));
            assert forall|p: int| #[trigger] is_active(st, vis, p) implies p == 0 by {}
            assert forall|p: int| #[trigger] is_active(st, vis, p) implies on_stack(t, st[p].0) by {
                assert(t[0].0 == start);
            }
            assert forall|i: int| 0 <= i < t.len() && (#[trigger] t[i]).1 == i implies exists|p: int|
                is_active(st, vis, p) && #[trigger] st[p].0 == t[i].0 by {
                assert(st[0].0 == t[i].0);
            }
            lemma_path_refl(graph.model(), start);
            let gm = graph.model();
            assert forall|u: usize| #[trigger] being_visited(st, vis, u) <==> u == start by {
                if being_visited(st, vis, u) {
                    let p = choose|p: int| is_active(st, vis, p) && st[p].0 == u;
                }
                if u == start {
                    assert(is_active(st, vis, 0) && st[0].0 == u);
                }
            }
            assert(finished_closed(gm, st, vis)) by {
                reveal(finished_closed);
            }
            assert(lowlink_bounded(gm, st, vis, t, -1)) by {
                reveal(lowlink_bounded);
            }
            assert(active_linked(gm, st, vis, t)) by {
                reveal(active_linked);
            }
            assert(finished_linked(gm, st, vis, t, t.len() as int)) by {
                reveal(finished_linked);
            }
            assert(edge_closed(gm, result.emitted@)) by {
                reveal(edge_closed);
            }
            reveal(TarjanScc::reach_ok);
            assert(lowlink_path(graph.model(), t, 0));
            assert(result.reach_ok());
        }
        result
    }
}

} // verus!
