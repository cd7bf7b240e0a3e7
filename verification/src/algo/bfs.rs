//! Breadth-first traversal of a graph's vertices.
use crate::graph::Graph;
use crate::view::{deref_pairs, is_walk, lemma_reaches_closed, lemma_reaches_refl, lemma_reaches_step};
use std::collections::VecDeque;
use vstd::prelude::*;

verus! {

/// The discovered vertices `vis` extended by the sinks of the edges `s`
/// leaving a vertex being explored, in order, each unless already there.
pub open spec fn discovered<Ew>(s: Seq<(usize, Ew)>, vis: Seq<usize>) -> Seq<usize>
    decreases s.len(),
{
    if s.len() == 0 {
        vis
    } else {
        let prev = discovered(s.drop_last(), vis);
        if prev.contains(s.last().0) {
            prev
        } else {
            prev.push(s.last().0)
        }
    }
}

/// Performs [breadth-first traversal](https://mathworld.wolfram.com/Breadth-FirstTraversal.html)
/// of a graph's vertices.
///
/// Even though the 's' in its name implies a search, this struct only
/// performs traversal, delegating the searching to the user.
///
/// [`next`](Bfs::next) is the primary way to use it: each call traverses the
/// graph just enough to visit the next vertex and returns it. The starting
/// vertex is never returned by `next`. When every vertex that can be reached
/// has been returned, `next` returns `None`.
///
/// A traversal can be seen as a spanning tree of the vertices reached, rooted
/// in the starting vertex: [`predecessor`](Bfs::predecessor) gives a vertex's
/// parent in it and [`depth`](Bfs::depth) its depth.
pub struct Bfs<'a, G: Graph> {
    graph: &'a G,
    queue: VecDeque<usize>,
    /// The vertices discovered, in discovery order.
    visited: Vec<usize>,
    /// Each discovered vertex with the vertex it was discovered from.
    predecessor: Vec<(usize, Option<usize>)>,
    /// How many of the discovered vertices have had their edges explored.
    explored: Ghost<nat>,
}

impl<'a, G: Graph> Bfs<'a, G> {
    /// The graph being traversed.
    pub closed spec fn spec_graph(&self) -> &'a G {
        self.graph
    }

    /// The vertices discovered so far, in discovery order: the starting vertex,
    /// then the vertices returned by [`next`](Bfs::next), then the ones
    /// waiting to be returned.
    pub closed spec fn visited_seq(&self) -> Seq<usize> {
        self.visited@
    }

    /// How many discovered vertices have had their edges explored: the
    /// starting vertex and those returned by [`next`](Bfs::next).
    pub closed spec fn explored(&self) -> nat {
        self.explored@
    }

    /// The vertex each discovered vertex was discovered from, or `None` for
    /// the starting vertex, in discovery order.
    pub closed spec fn predecessors(&self) -> Seq<Option<usize>> {
        Seq::new(self.predecessor@.len(), |i: int| self.predecessor@[i].1)
    }

    /// The position in discovery order of the predecessor of the `i`th
    /// discovered vertex.
    pub open spec fn parent_index(&self, i: int) -> int {
        choose|j: int|
            0 <= j < i && Some(self.visited_seq()[j]) == #[trigger] self.predecessors()[i]
    }

    /// The depth in the traversal tree of the `i`th discovered vertex.
    pub open spec fn depth_at(&self, i: int) -> nat
        decreases i,
    {
        if 0 < i && exists|j: int|
            0 <= j < i && Some(self.visited_seq()[j]) == #[trigger] self.predecessors()[i] {
            self.depth_at(self.parent_index(i)) + 1
        } else {
            0
        }
    }

    /// The depth of `v` in the traversal tree, or zero if it has not been
    /// discovered.
    pub open spec fn tree_depth(&self, v: usize) -> nat {
        if self.visited_seq().contains(v) {
            self.depth_at(self.visited_seq().index_of(v))
        } else {
            0
        }
    }

    /// What the depths rest on: no vertex is discovered twice, and each
    /// discovered vertex but the first was discovered from an earlier one
    /// that has an edge to it.
    closed spec fn tree_ok(&self) -> bool {
        let g = self.graph.model();
        let vis = self.visited@;
        let pred = self.predecessor@;
        &&& vis.len() >= 1
        &&& vis.no_duplicates()
        &&& pred.len() == vis.len()
        &&& forall|i: int| 0 <= i < vis.len() ==> (#[trigger] pred[i]).0 == vis[i]
        &&& pred[0].1 is None
        &&& forall|i: int|
            0 < i < vis.len() ==> exists|j: int|
                0 <= j < i && (#[trigger] pred[i]).1 == Some(vis[j]) && g.adjacent(vis[j], vis[i])
    }

    /// The starting vertex has depth zero, and every other discovered vertex
    /// is one deeper than the vertex it was discovered from, which has an
    /// edge to it.
    proof fn lemma_depth_parent(&self, i: int)
        requires
            self.tree_ok(),
            0 <= i < self.visited@.len(),
        ensures
            i == 0 ==> self.depth_at(i) == 0,
            i > 0 ==> {
                let j = self.parent_index(i);
                &&& 0 <= j < i
                &&& self.predecessor@[i].1 == Some(self.visited@[j])
                &&& self.depth_at(i) == self.depth_at(j) + 1
                &&& self.graph.model().adjacent(self.visited@[j], self.visited@[i])
                &&& forall|k: int| 0 <= k < i && self.predecessor@[i].1 == Some(#[trigger] self.visited@[k]) ==> k == j
            },
    {
        let vis = self.visited@;
        let pred = self.predecessor@;
        if i > 0 {
            let k0 = choose|j: int| 0 <= j < i && (#[trigger] pred[i]).1 == Some(vis[j]) && self.graph.model().adjacent(vis[j], vis[i]);
            assert(self.predecessors()[i] == pred[i].1);
            assert(Some(self.visited_seq()[k0]) == self.predecessors()[i]);
            let j = self.parent_index(i);
            assert(0 <= j < i && Some(vis[j]) == self.predecessors()[i]);
            assert(vis[j] == vis[k0]);
            assert(j == k0);
            assert forall|k: int| 0 <= k < i && pred[i].1 == Some(#[trigger] vis[k]) implies k == j by {
                assert(vis[k] == vis[j]);
            }
        }
    }

    /// Extending the discovered vertices keeps the depths of those discovered
    /// before.
    proof fn lemma_depth_prefix(s0: Self, s1: Self, i: int)
        requires
            s0.tree_ok(),
            s1.tree_ok(),
            s0.visited@.len() <= s1.visited@.len(),
            s1.visited@.take(s0.visited@.len() as int) == s0.visited@,
            s1.predecessor@.take(s0.predecessor@.len() as int) == s0.predecessor@,
            0 <= i < s0.visited@.len(),
        ensures
            s1.depth_at(i) == s0.depth_at(i),
        decreases i,
    {
        let n = s0.visited@.len() as int;
        assert(s1.visited@[i] == s0.visited@[i]);
        assert(s1.predecessor@[i] == s0.predecessor@[i]);
        s0.lemma_depth_parent(i);
        s1.lemma_depth_parent(i);
        if i > 0 {
            let j0 = s0.parent_index(i);
            let j1 = s1.parent_index(i);
            assert(s1.visited@[j0] == s0.visited@[j0]);
            assert(j0 == j1);
            Self::lemma_depth_prefix(s0, s1, j0);
        }
    }

    /// The path down the traversal tree to the `i`th discovered vertex: a
    /// walk from the starting vertex whose number of steps is the vertex's
    /// depth.
    proof fn lemma_tree_walk(&self, i: int) -> (p: Seq<usize>)
        requires
            self.tree_ok(),
            0 <= i < self.visited@.len(),
        ensures
            is_walk(self.graph.model().adj(), p),
            p[0] == self.visited@[0],
            p.last() == self.visited@[i],
            p.len() == self.depth_at(i) + 1,
        decreases i,
    {
        self.lemma_depth_parent(i);
        if i == 0 {
            let p = seq![self.visited@[0]];
            assert(is_walk(self.graph.model().adj(), p));
            p
        } else {
            let j = self.parent_index(i);
            let q = self.lemma_tree_walk(j);
            let p = q.push(self.visited@[i]);
            assert forall|k: int| 0 <= k < p.len() - 1 implies #[trigger] (self.graph.model().adj())(p[k], p[k + 1]) by {
                if k < q.len() - 1 {
                    assert(p[k] == q[k] && p[k + 1] == q[k + 1]);
                } else {
                    assert(p[k] == self.visited@[j]);
                }
            }
            p
        }
    }

    /// Along a walk from the starting vertex, as long as the walk is no
    /// longer than the depth of the next vertex to explore, every vertex has
    /// been discovered, at a depth no greater than its number of steps.
    proof fn lemma_walk_discovered(&self, p: Seq<usize>, k: int)
        requires
            self.wf(),
            is_walk(self.graph.model().adj(), p),
            p[0] == self.visited@[0],
            0 <= k < p.len(),
            self.explored@ < self.visited@.len() ==> k <= self.depth_at(self.explored@ as int),
        ensures
            self.visited@.contains(p[k]),
            self.tree_depth(p[k]) <= k,
        decreases k,
    {
        let vis = self.visited@;
        let e = self.explored@ as int;
        if k == 0 {
            assert(vis[0] == p[0]);
            assert(vis.index_of(p[0]) == 0);
            self.lemma_depth_parent(0);
        } else {
            self.lemma_walk_discovered(p, k - 1);
            let j = vis.index_of(p[k - 1]);
            assert(vis[j] == p[k - 1]);
            if j >= e {
                assert(self.depth_at(e) <= self.depth_at(j));
            }
            assert(j < e);
            assert((self.graph.model().adj())(p[k - 1], p[k - 1 + 1]));
            assert(self.graph.model().adjacent(vis[j], p[k]));
        }
    }

    /// Breadth-first traversal discovers every vertex by a shortest path:
    /// the depth of a discovered vertex is the number of steps of a walk to
    /// it from the starting vertex along the traversal tree, and no walk from
    /// the starting vertex to it has fewer steps.
    pub proof fn lemma_depth_is_distance(&self, i: int)
        requires
            self.wf(),
            0 <= i < self.visited_seq().len(),
        ensures
            exists|p: Seq<usize>|
                #[trigger] is_walk(self.spec_graph().model().adj(), p) && p[0] == self.visited_seq()[0] && p.last()
                    == self.visited_seq()[i] && p.len() == self.depth_at(i) + 1,
            forall|p: Seq<usize>|
                #[trigger] is_walk(self.spec_graph().model().adj(), p) && p[0] == self.visited_seq()[0] && p.last()
                    == self.visited_seq()[i] ==> p.len() >= self.depth_at(i) + 1,
    {
        let t = self.lemma_tree_walk(i);
        assert(is_walk(self.spec_graph().model().adj(), t) && t[0] == self.visited_seq()[0] && t.last()
            == self.visited_seq()[i] && t.len() == self.depth_at(i) + 1);
        let vis = self.visited@;
        let e = self.explored@ as int;
        assert forall|p: Seq<usize>|
            #[trigger] is_walk(self.spec_graph().model().adj(), p) && p[0] == vis[0] && p.last() == vis[i] implies p.len()
                >= self.depth_at(i) + 1 by {
            if p.len() < self.depth_at(i) + 1 {
                let k = p.len() - 1;
                if e < vis.len() {
                    assert(self.depth_at(i) <= self.depth_at(e) + 1);
                }
                self.lemma_walk_discovered(p, k);
                assert(p[k] == vis[i]);
                assert(vis.index_of(vis[i]) == i);
            }
        }
    }

    /// What holds of a traversal at any time, running or finished: each
    /// vertex is discovered at most once, and only if it is in the graph and
    /// reachable from the starting vertex; the starting vertex comes first,
    /// at depth zero, with no predecessor; every other discovered vertex was
    /// discovered from an earlier one, already explored, that has an edge to
    /// it, and is one deeper than it. The vertices explored are the starting
    /// vertex followed by those returned by [`next`](Bfs::next), in order.
    pub proof fn lemma_tree(&self)
        requires
            self.wf(),
        ensures
            self.visited_seq().len() >= 1,
            self.visited_seq().no_duplicates(),
            self.predecessors().len() == self.visited_seq().len(),
            1 <= self.explored() <= self.visited_seq().len(),
            self.predecessors()[0] is None,
            self.depth_at(0) == 0,
            forall|i: int|
                0 <= i < self.visited_seq().len() ==> {
                    &&& self.spec_graph().model().has_vertex(#[trigger] self.visited_seq()[i])
                    &&& self.spec_graph().model().reachable(self.visited_seq()[0], self.visited_seq()[i])
                    &&& self.visited_seq().index_of(self.visited_seq()[i]) == i
                    &&& self.tree_depth(self.visited_seq()[i]) == self.depth_at(i)
                },
            forall|i: int|
                0 < i < self.visited_seq().len() ==> {
                    let j = #[trigger] self.parent_index(i);
                    &&& 0 <= j < i
                    &&& j < self.explored()
                    &&& self.predecessors()[i] == Some(self.visited_seq()[j])
                    &&& self.spec_graph().model().adjacent(self.visited_seq()[j], self.visited_seq()[i])
                    &&& self.depth_at(i) == self.depth_at(j) + 1
                },
    {
        let vis = self.visited@;
        assert(self.tree_ok());
        self.lemma_depth_parent(0);
        assert(self.predecessors()[0] == self.predecessor@[0].1);
        assert forall|i: int| 0 <= i < vis.len() implies {
            &&& self.spec_graph().model().has_vertex(#[trigger] self.visited_seq()[i])
            &&& self.spec_graph().model().reachable(self.visited_seq()[0], self.visited_seq()[i])
            &&& self.visited_seq().index_of(self.visited_seq()[i]) == i
            &&& self.tree_depth(self.visited_seq()[i]) == self.depth_at(i)
        } by {
            assert(vis.contains(vis[i]));
            let k = vis.index_of(vis[i]);
            assert(vis[k] == vis[i]);
            assert(k == i);
        }
        assert forall|i: int| 0 < i < vis.len() implies {
            let j = #[trigger] self.parent_index(i);
            &&& 0 <= j < i
            &&& j < self.explored()
            &&& self.predecessors()[i] == Some(self.visited_seq()[j])
            &&& self.spec_graph().model().adjacent(self.visited_seq()[j], self.visited_seq()[i])
            &&& self.depth_at(i) == self.depth_at(j) + 1
        } by {
            self.lemma_depth_parent(i);
            let j = self.parent_index(i);
            assert(self.predecessors()[i] == self.predecessor@[i].1);
            let k = choose|k: int|
                0 <= k < i && k < self.explored@ && (#[trigger] self.predecessor@[i]).1 == Some(vis[k])
                    && self.graph.model().adjacent(vis[k], vis[i]);
            assert(k == j);
        }
    }

    /// A traversal discovers each vertex at most once, and only vertices
    /// reachable from the starting vertex; once every discovered vertex has
    /// been explored (as after a call of [`next`](Bfs::next) that returned
    /// `None`), the discovered vertices are exactly the reachable ones.
    pub proof fn lemma_finished_discovers_each_reachable_once(&self)
        requires
            self.wf(),
            self.explored() == self.visited_seq().len(),
        ensures
            self.visited_seq().no_duplicates(),
            forall|x: usize|
                #[trigger] self.visited_seq().contains(x) <==> self.spec_graph().model().reachable(
                    self.visited_seq()[0],
                    x,
                ),
    {
        let g = self.graph.model();
        let vis = self.visited@;
        let s = vis.to_set();
        assert forall|x: usize, y: usize| s.contains(x) && #[trigger] g.adj()(x, y) implies s.contains(y) by {
            let k = choose|k: int| 0 <= k < vis.len() && vis[k] == x;
            assert(g.adjacent(vis[k], y));
        }
        assert forall|x: usize| #[trigger] vis.contains(x) <==> g.reachable(vis[0], x) by {
            if g.reachable(vis[0], x) {
                assert(s.contains(vis[0]));
                lemma_reaches_closed(g.adj(), s, vis[0], x);
            }
            if vis.contains(x) {
                let k = choose|k: int| 0 <= k < vis.len() && vis[k] == x;
                assert(g.reachable(vis[0], vis[k]));
            }
        }
    }

    /// Vertices are discovered, and returned, in order of depth.
    pub proof fn lemma_depth_order(&self, i: int, j: int)
        requires
            self.wf(),
            0 <= i <= j < self.visited_seq().len(),
        ensures
            self.depth_at(i) <= self.depth_at(j),
    {
    }

    /// The invariant of the traversal.
    pub closed spec fn wf(&self) -> bool {
        let g = self.graph.model();
        let vis = self.visited@;
        let pred = self.predecessor@;
        let e = self.explored@;
        &&& self.graph.wf()
        &&& vis.len() >= 1
        &&& vis.no_duplicates()
        &&& forall|i: int| 0 <= i < vis.len() ==> g.has_vertex(#[trigger] vis[i])
        &&& pred.len() == vis.len()
        &&& forall|i: int| 0 <= i < vis.len() ==> (#[trigger] pred[i]).0 == vis[i]
        &&& pred[0].1 is None
        &&& forall|i: int|
            0 < i < vis.len() ==> exists|j: int|
                0 <= j < i && j < e && (#[trigger] pred[i]).1 == Some(vis[j]) && g.adjacent(
                    vis[j],
                    vis[i],
                )
        &&& 1 <= e <= vis.len()
        &&& self.queue@ == vis.skip(e as int)
        &&& forall|i: int, w: usize|
            0 <= i < e && #[trigger] g.adjacent(vis[i], w) ==> vis.contains(w) && self.tree_depth(w)
                <= self.depth_at(i) + 1
        &&& forall|i: int| 0 <= i < vis.len() ==> g.reachable(vis[0], #[trigger] vis[i])
        &&& forall|i: int, j: int|
            0 <= i <= j < vis.len() ==> #[trigger] self.depth_at(i) <= #[trigger] self.depth_at(j)
        &&& e < vis.len() ==> forall|j: int| 0 <= j < vis.len() ==> #[trigger] self.depth_at(j) <= self.depth_at(e as int) + 1
    }

    /// Starts a traversal of `graph` from `start`, whose edges are explored at
    /// once.
    pub fn new(graph: &'a G, start: usize) -> (r: Self)
        requires
            graph.wf(),
            graph.model().has_vertex(start),
        ensures
            r.wf(),
            r.spec_graph() == graph,
            r.visited_seq()[0] == start,
            r.explored() == 1,
            r.visited_seq() == discovered(graph.model().sourced(start), seq![start]),
            r.predecessors().len() == r.visited_seq().len(),
            r.predecessors()[0] is None,
            forall|k: int| 1 <= k < r.predecessors().len() ==> #[trigger] r.predecessors()[k] == Some(start),
    {
        let mut result = Bfs {
            graph,
            queue: VecDeque::new(),
            visited: vec![start],
            predecessor: vec![(start, None)],
            explored: Ghost(0),
        };
        proof {
            lemma_reaches_refl(graph.model().adj(), start);
            assert(graph.model().reachable(start, start));
            assert(result.queue@ =~= result.visited@.skip(1));
            assert(result.visited@ =~= seq![start]);
        }
        result.explore(start);
        proof {
            assert(result.predecessor@.take(1)[0] == (start, None::<usize>));
            assert(result.predecessors()[0] == result.predecessor@[0].1);
            assert forall|k: int| 1 <= k < result.predecessors().len() implies #[trigger] result.predecessors()[k] == Some(start) by {
                assert(result.predecessors()[k] == result.predecessor@[k].1);
            }
        }
        result
    }

    /// Returns the traversal depth of the given vertex: its depth in the
    /// spanning tree of the traversal, whose root is the starting vertex.
    /// A vertex that has not been discovered has depth zero.
    pub fn depth(&self, v: usize) -> (r: usize)
        requires
            self.wf(),
        ensures
            r == self.tree_depth(v),
    {
        let mut count: usize = 0;
        let mut current = v;
        let ghost vis = self.visited@;
        proof {
            if vis.contains(v) {
                let k = vis.index_of(v);
            }
        }
        let n = self.visited.len();
        loop
            invariant
                self.wf(),
                vis == self.visited@,
                vis.len() == n,
                vis.contains(v) ==> vis.contains(current) && count + self.depth_at(vis.index_of(current)) == self.depth_at(vis.index_of(v)) && count + vis.index_of(current) <= vis.index_of(v),
                !vis.contains(v) ==> current == v && count == 0,
            ensures
                self.wf(),
                vis == self.visited@,
                vis.contains(v) ==> vis.contains(current) && count + self.depth_at(vis.index_of(current)) == self.depth_at(vis.index_of(v)),
                !vis.contains(v) ==> current == v && count == 0,
                vis.contains(current) ==> self.predecessors()[vis.index_of(current)] is None,
            decreases if vis.contains(current) { vis.index_of(current) + 1 } else { 0 },
        {
            match self.predecessor(current) {
                Some(p) => {
                    let ghost i = vis.index_of(current);
                    proof {
                        let j = choose|j: int| 0 <= j < i && j < self.explored@ && self.predecessor@[i].1 == Some(vis[j]) && self.graph.model().adjacent(vis[j], vis[i]);
                        assert(self.predecessors()[i] == Some(vis[j]));
                        let pj = self.parent_index(i);
                        assert(vis[pj] == p);
                        assert(vis.index_of(p) == pj);
                        assert(i > 0);
                    }
                    current = p;
                    count += 1;
                },
                None => break,
            }
        }
        proof {
            if vis.contains(current) {
                let i = vis.index_of(current);
                if i > 0 {
                    let j = choose|j: int| 0 <= j < i && j < self.explored@ && self.predecessor@[i].1 == Some(vis[j]) && self.graph.model().adjacent(vis[j], vis[i]);
                    assert(self.predecessors()[i] == Some(vis[j]));
                    assert(false);
                }
                assert(self.depth_at(i) == 0);
            }
        }
        count
    }

    /// Returns the vertex from which the given vertex was discovered: its
    /// parent in the spanning tree of the traversal. Returns `None` for the
    /// starting vertex and for a vertex that has not been discovered.
    pub fn predecessor(&self, v: usize) -> (r: Option<usize>)
        requires
            self.wf(),
        ensures
            self.visited_seq().contains(v) ==> r == self.predecessors()[self.visited_seq().index_of(v)],
            forall|i: int|
                0 <= i < self.visited_seq().len() && #[trigger] self.visited_seq()[i] == v ==> r
                    == self.predecessors()[i],
            !self.visited_seq().contains(v) ==> r is None,
    {
        let mut i: usize = 0;
        while i < self.predecessor.len()
            invariant
                self.wf(),
                i <= self.predecessor@.len(),
                forall|j: int| 0 <= j < i ==> self.visited@[j] != v,
            decreases self.predecessor.len() - i,
        {
            if self.predecessor[i].0 == v {
                proof {
                    assert(self.visited@[i as int] == v);
                    assert(self.visited@.index_of(v) == i);
                    assert forall|k: int|
                        0 <= k < self.visited_seq().len() && #[trigger] self.visited_seq()[k] == v implies self.predecessor[i as int].1
                            == self.predecessors()[k] by {
                        assert(k == i);
                    }
                }
                return self.predecessor[i].1;
            }
            i += 1;
        }
        None
    }

    /// Explores the edges sourced in `v`, the next vertex to explore,
    /// discovering and queueing up every vertex not discovered before.
    #[verifier::spinoff_prover]
    #[verifier::rlimit(80)]
    fn explore(&mut self, v: usize)
        requires
            ({
                let s = *old(self);
                let g = s.graph.model();
                let vis = s.visited@;
                let pred = s.predecessor@;
                let e = s.explored@;
                &&& s.graph.wf()
                &&& vis.len() >= 1
                &&& vis.no_duplicates()
                &&& forall|i: int| 0 <= i < vis.len() ==> g.has_vertex(#[trigger] vis[i])
                &&& pred.len() == vis.len()
                &&& forall|i: int| 0 <= i < vis.len() ==> (#[trigger] pred[i]).0 == vis[i]
                &&& pred[0].1 is None
                &&& forall|i: int|
                    0 < i < vis.len() ==> exists|j: int|
                        0 <= j < i && j < e && (#[trigger] pred[i]).1 == Some(vis[j]) && g.adjacent(
                            vis[j],
                            vis[i],
                        )
                &&& e < vis.len()
                &&& vis[e as int] == v
                &&& s.queue@ == vis.skip((e + 1) as int)
                &&& forall|i: int, w: usize|
                    0 <= i < e && #[trigger] g.adjacent(vis[i], w) ==> vis.contains(w) && s.tree_depth(w)
                        <= s.depth_at(i) + 1
                &&& forall|i: int| 0 <= i < vis.len() ==> g.reachable(vis[0], #[trigger] vis[i])
                &&& forall|i: int, j: int|
                    0 <= i <= j < vis.len() ==> #[trigger] s.depth_at(i) <= #[trigger] s.depth_at(j)
                &&& forall|j: int| 0 <= j < vis.len() ==> #[trigger] s.depth_at(j) <= s.depth_at(e as int) + 1
            }),
        ensures
            final(self).wf(),
            final(self).graph == old(self).graph,
            final(self).explored@ == old(self).explored@ + 1,
            final(self).visited@.len() >= old(self).visited@.len(),
            final(self).visited@.take(old(self).visited@.len() as int) == old(self).visited@,
            final(self).predecessor@.take(old(self).predecessor@.len() as int) == old(self).predecessor@,
            final(self).visited@ == discovered(old(self).graph.model().sourced(v), old(self).visited@),
            forall|k: int|
                old(self).visited@.len() <= k < final(self).visited@.len() ==> (#[trigger] final(self).predecessor@[k]).1
                    == Some(v),
    {
        let ghost g = self.graph.model();
        let ghost e = self.explored@;
        let ghost vis0 = self.visited@;
        let ghost pred0 = self.predecessor@;
        let ghost s0 = *self;
        let ghost d = s0.depth_at(e as int);
        proof {
            self.graph.lemma_wf();
        }
        let children = self.graph.edges_sourced_in(v);
        let mut i: usize = 0;
        while i < children.len()
            invariant
                self.graph.wf(),
                g == self.graph.model(),
                g.wf(),
                self.graph == old(self).graph,
                self.explored@ == e,
                e < vis0.len(),
                vis0[e as int] == v,
                deref_pairs(children@) == g.sourced(v),
                i <= children@.len(),
                self.visited@.len() >= vis0.len(),
                self.visited@.take(vis0.len() as int) == vis0,
                self.predecessor@.take(pred0.len() as int) == pred0,
                pred0.len() == vis0.len(),
                self.visited@.no_duplicates(),
                forall|k: int| 0 <= k < self.visited@.len() ==> g.has_vertex(#[trigger] self.visited@[k]),
                self.predecessor@.len() == self.visited@.len(),
                forall|k: int| 0 <= k < self.visited@.len() ==> (#[trigger] self.predecessor@[k]).0 == self.visited@[k],
                self.predecessor@[0].1 is None,
                forall|k: int|
                    0 < k < self.visited@.len() ==> exists|j: int|
                        0 <= j < k && j < e + 1 && (#[trigger] self.predecessor@[k]).1 == Some(self.visited@[j]) && g.adjacent(
                            self.visited@[j],
                            self.visited@[k],
                        ),
                self.queue@ == self.visited@.skip((e + 1) as int),
                forall|k: int, w: usize|
                    0 <= k < e && #[trigger] g.adjacent(self.visited@[k], w) ==> self.visited@.contains(w),
                forall|j: int| 0 <= j < i ==> self.visited@.contains((#[trigger] deref_pairs(children@)[j]).0),
                forall|k: int| 0 <= k < self.visited@.len() ==> g.reachable(self.visited@[0], #[trigger] self.visited@[k]),
                s0.tree_ok(),
                s0.visited@ == vis0,
                s0.predecessor@ == pred0,
                d == s0.depth_at(e as int),
                forall|k: int| 0 <= k < vis0.len() ==> #[trigger] self.depth_at(k) == s0.depth_at(k),
                forall|k: int| vis0.len() <= k < self.visited@.len() ==> #[trigger] self.depth_at(k) == d + 1,
                forall|k: int| 0 <= k < vis0.len() ==> #[trigger] s0.depth_at(k) <= d + 1,
                self.visited@ == discovered(deref_pairs(children@).take(i as int), vis0),
                forall|k: int| vis0.len() <= k < self.visited@.len() ==> (#[trigger] self.predecessor@[k]).1 == Some(v),
            decreases children.len() - i,
        {
            let child = children[i].0;
            proof {
                let s0c = deref_pairs(children@);
                assert(s0c.take(i + 1).drop_last() =~= s0c.take(i as int));
                assert(s0c.take(i + 1).last() == s0c[i as int]);
                assert(s0c[i as int].0 == child);
            }
            proof {
                assert(deref_pairs(children@)[i as int].0 == child);
                g.lemma_sourced(v, child);
                assert(g.adjacent(v, child));
                assert(g.has_vertex(child));
            }
            if !vec_contains_usize(&self.visited, child) {
                let ghost vis1 = self.visited@;
                let ghost pred1 = self.predecessor@;
                let ghost q1 = self.queue@;
                let ghost prev = *self;
                self.visited.push(child);
                self.queue.push_back(child);
                self.predecessor.push((child, Some(v)));
                proof {
                    let n = vis1.len();
                    assert(self.visited@[e as int] == v);
                    assert forall|k: int|
                        0 < k < self.visited@.len() implies exists|j: int|
                            0 <= j < k && j < e + 1 && (#[trigger] self.predecessor@[k]).1 == Some(self.visited@[j]) && g.adjacent(
                                self.visited@[j],
                                self.visited@[k],
                            ) by {
                        if k < n {
                            assert(self.predecessor@[k] == pred1[k]);
                            let j = choose|j: int| 0 <= j < k && j < e + 1 && pred1[k].1 == Some(vis1[j]) && g.adjacent(vis1[j], vis1[k]);
                            assert(self.visited@[j] == vis1[j]);
                            assert(self.visited@[k] == vis1[k]);
                        } else {
                            assert(self.predecessor@[k] == (child, Some(v)));
                            assert(self.visited@[k] == child);
                        }
                    }
                    assert(self.queue@ =~= self.visited@.skip((e + 1) as int));
                    assert(self.visited@.take(vis0.len() as int) =~= vis1.take(vis0.len() as int));
                    assert(self.predecessor@.take(pred0.len() as int) =~= pred1.take(pred0.len() as int));
                    assert forall|w: usize| vis1.contains(w) implies #[trigger] self.visited@.contains(w) by {
                        let k = choose|k: int| 0 <= k < vis1.len() && vis1[k] == w;
                        assert(self.visited@[k] == w);
                    }
                    assert(self.visited@[n as int] == child);
                    assert(self.visited@.contains(child));
                    assert(self.visited@[0] == vis1[0]);
                    assert(g.reachable(vis1[0], v));
                    lemma_reaches_step(g.adj(), vis1[0], v, child);
                    assert forall|k: int| 0 <= k < self.visited@.len() implies g.reachable(self.visited@[0], #[trigger] self.visited@[k]) by {
                        if k < n {
                            assert(self.visited@[k] == vis1[k]);
                        }
                    }
                    assert forall|k: int| 0 <= k < self.visited@.len() implies g.has_vertex(#[trigger] self.visited@[k]) by {
                        if k < n {
                            assert(self.visited@[k] == vis1[k]);
                        }
                    }
                    assert forall|k: int| 0 <= k < self.visited@.len() implies (#[trigger] self.predecessor@[k]).0 == self.visited@[k] by {
                        if k < n {
                            assert(self.predecessor@[k] == pred1[k]);
                            assert(self.visited@[k] == vis1[k]);
                        }
                    }
                    assert(self.visited@.no_duplicates()) by {
                        assert forall|a: int, b: int| 0 <= a < b < self.visited@.len() implies self.visited@[a] != self.visited@[b] by {
                            if b == n {
                                assert(self.visited@[a] == vis1[a]);
                                assert(vis1.contains(vis1[a]));
                            } else {
                                assert(self.visited@[a] == vis1[a]);
                                assert(self.visited@[b] == vis1[b]);
                            }
                        }
                    }
                    assert forall|j: int| 0 <= j < i + 1 implies self.visited@.contains((#[trigger] deref_pairs(children@)[j]).0) by {}
                    assert(prev.tree_ok());
                    assert(self.tree_ok());
                    assert(self.visited@.take(n as int) =~= prev.visited@);
                    assert(self.predecessor@.take(n as int) =~= prev.predecessor@);
                    assert forall|k: int| 0 <= k < self.visited@.len() implies #[trigger] self.depth_at(k) == (if k
                        < vis0.len() {
                        s0.depth_at(k)
                    } else {
                        d + 1
                    }) by {
                        if k < n {
                            Self::lemma_depth_prefix(prev, *self, k);
                            if k < vis0.len() {
                                assert(prev.depth_at(k) == s0.depth_at(k));
                            } else {
                                assert(prev.depth_at(k) == d + 1);
                            }
                        } else {
                            self.lemma_depth_parent(k);
                            let j = self.parent_index(k);
                            assert(self.predecessor@[k].1 == Some(self.visited@[e as int]));
                            assert(j == e);
                            Self::lemma_depth_prefix(prev, *self, e as int);
                            assert(prev.depth_at(e as int) == d);
                        }
                    }
                }
            }
            proof {
                let s0c = deref_pairs(children@);
                assert(self.visited@ == discovered(s0c.take(i + 1), vis0));
            }
            i += 1;
        }
        proof {
            assert(deref_pairs(children@).take(i as int) =~= g.sourced(v));
            let ghost pre_e = *self;
            self.explored@ = e + 1;
            let vis = self.visited@;
            assert(self.tree_ok());
            assert(self.visited@.take(vis.len() as int) =~= pre_e.visited@);
            assert(self.predecessor@.take(self.predecessor@.len() as int) =~= pre_e.predecessor@);
            assert forall|k: int| 0 <= k < vis.len() implies #[trigger] self.depth_at(k) == pre_e.depth_at(k) by {
                Self::lemma_depth_prefix(pre_e, *self, k);
            }
            assert forall|w: usize| vis0.contains(w) implies #[trigger] vis.index_of(w) == vis0.index_of(w) by {
                let k = vis0.index_of(w);
                assert(vis[k] == vis0[k]);
            }
            assert forall|k: int| 0 <= k < vis.len() implies #[trigger] self.depth_at(k) <= d + 1 by {
                if k < vis0.len() {
                    assert(self.depth_at(k) == s0.depth_at(k));
                }
            }
            assert forall|a: int, b: int| 0 <= a <= b < vis.len() implies #[trigger] self.depth_at(a) <= #[trigger] self.depth_at(b) by {
                if b < vis0.len() {
                    assert(s0.depth_at(a) <= s0.depth_at(b));
                } else if a >= vis0.len() {
                } else {
                    assert(self.depth_at(a) == s0.depth_at(a));
                }
            }
            assert(self.depth_at(e as int) == d);
            assert forall|k: int, w: usize|
                0 <= k < e && #[trigger] g.adjacent(vis[k], w) implies self.tree_depth(w) <= self.depth_at(k) + 1 by {
                assert(vis[k] == vis0[k]);
                assert(vis0.contains(w) && s0.tree_depth(w) <= s0.depth_at(k) + 1);
                assert(vis.contains(w));
                let x = vis0.index_of(w);
                assert(vis0[x] == w);
                assert(vis.index_of(w) == x);
                assert(self.depth_at(x) == s0.depth_at(x));
            }
            assert forall|w: usize| #[trigger] g.adjacent(v, w) implies self.tree_depth(w) <= d + 1 by {
                g.lemma_sourced(v, w);
                let j = choose|j: int| 0 <= j < g.sourced(v).len() && g.sourced(v)[j].0 == w;
                assert(deref_pairs(children@)[j].0 == w);
                assert(vis.contains(w));
                let x = vis.index_of(w);
                assert(self.depth_at(x) <= d + 1);
            }
            assert forall|k: int, w: usize|
                0 <= k < e + 1 && #[trigger] g.adjacent(self.visited@[k], w) implies self.visited@.contains(w) by {
                if k == e {
                    assert(self.visited@[k] == vis0[k]);
                    g.lemma_sourced(v, w);
                    let j = choose|j: int| 0 <= j < g.sourced(v).len() && g.sourced(v)[j].0 == w;
                    assert(deref_pairs(children@)[j].0 == w);
                }
            }
        }
    }

    /// Returns the next vertex of the traversal, exploring its edges, or
    /// `None` when every vertex reachable from the starting vertex has been
    /// returned.
    pub fn next(&mut self) -> (r: Option<usize>)
        requires
            old(self).wf(),
        ensures
            final(self).wf(),
            final(self).spec_graph() == old(self).spec_graph(),
            final(self).visited_seq().take(old(self).visited_seq().len() as int) == old(self).visited_seq(),
            final(self).predecessors().len() == final(self).visited_seq().len(),
            final(self).predecessors().take(old(self).predecessors().len() as int) == old(self).predecessors(),
            match r {
                Some(v) => {
                    &&& old(self).explored() < old(self).visited_seq().len()
                    &&& v == old(self).visited_seq()[old(self).explored() as int]
                    &&& final(self).explored() == old(self).explored() + 1
                    &&& final(self).visited_seq() == discovered(
                        old(self).spec_graph().model().sourced(v),
                        old(self).visited_seq(),
                    )
                    &&& forall|k: int|
                        old(self).visited_seq().len() <= k < final(self).visited_seq().len() ==> (
                        #[trigger] final(self).predecessors()[k]) == Some(v)
                },
                None => {
                    &&& final(self).visited_seq() == old(self).visited_seq()
                    &&& final(self).explored() == old(self).explored()
                    &&& old(self).explored() == old(self).visited_seq().len()
                    &&& forall|x: usize| #[trigger] old(self).spec_graph().model().reachable(old(self).visited_seq()[0], x) ==> old(self).visited_seq().contains(x)
                },
            },
    {
        let ghost e = self.explored@;
        let ghost before = *self;
        if let Some(v) = self.queue.pop_front() {
            proof {
                assert(self.visited@.skip(e as int)[0] == v);
                assert(self.queue@ =~= self.visited@.skip((e + 1) as int));
                assert(before.tree_ok());
                assert(self.tree_ok());
                assert(self.visited@.take(self.visited@.len() as int) =~= before.visited@);
                assert(self.predecessor@.take(self.predecessor@.len() as int) =~= before.predecessor@);
                assert forall|k: int| 0 <= k < self.visited@.len() implies #[trigger] self.depth_at(k) == before.depth_at(k) by {
                    Self::lemma_depth_prefix(before, *self, k);
                }
            }
            self.explore(v);
            proof {
                assert(self.predecessors().take(before.predecessors().len() as int) =~= before.predecessors());
            }
            Some(v)
        } else {
            proof {
                let g = self.graph.model();
                let vis = self.visited@;
                assert(vis.skip(e as int).len() == 0);
                let s = vis.to_set();
                assert forall|x: usize, y: usize| s.contains(x) && #[trigger] g.adj()(x, y) implies s.contains(y) by {
                    let k = choose|k: int| 0 <= k < vis.len() && vis[k] == x;
                    assert(g.adjacent(vis[k], y));
                }
                assert forall|x: usize| #[trigger] g.reachable(vis[0], x) implies vis.contains(x) by {
                    assert(s.contains(vis[0]));
                    lemma_reaches_closed(g.adj(), s, vis[0], x);
                }
                assert(before.tree_ok());
                assert(self.tree_ok());
                assert(self.visited@.take(self.visited@.len() as int) =~= before.visited@);
                assert(self.predecessor@.take(self.predecessor@.len() as int) =~= before.predecessor@);
                assert forall|k: int| 0 <= k < self.visited@.len() implies #[trigger] self.depth_at(k) == before.depth_at(k) by {
                    Self::lemma_depth_prefix(before, *self, k);
                }
                assert forall|w: usize| #[trigger] self.tree_depth(w) == before.tree_depth(w) by {}
            }
            None
        }
    }
}

/// Whether the vector contains the value.
fn vec_contains_usize(v: &Vec<usize>, x: usize) -> (r: bool)
    ensures
        r == v@.contains(x),
{
    let mut i: usize = 0;
    while i < v.len()
        invariant
            i <= v@.len(),
            forall|j: int| 0 <= j < i ==> v@[j] != x,
        decreases v.len() - i,
    {
        if v[i] == x {
            return true;
        }
        i += 1;
    }
    false
}

} // verus!
