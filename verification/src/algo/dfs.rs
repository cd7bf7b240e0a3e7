//! Depth-first traversal of a graph's vertices.
use crate::graph::Graph;
use crate::view::GraphView;
use crate::view::{deref_pairs, lemma_nodup_subseq_len, lemma_reaches_closed, lemma_reaches_refl, lemma_reaches_step, occurs};
use crate::algo::retain::UnretainedIterator;
use vstd::prelude::*;

verus! {

/// Whether `x` can be reached in `g` from one of the `roots`.
pub open spec fn reached_from<G: Graph>(g: &G, roots: Set<usize>, x: usize) -> bool {
    exists|r: usize| roots.contains(r) && #[trigger] g.model().reachable(r, x)
}

/// Whether the entry at `q` of a traversal stack was pushed by the visit of
/// its parent: the nearest entry below it marked to be exited holds a vertex
/// with an edge to it.
pub open spec fn pushed_by_parent<Vw, Ew>(g: GraphView<Vw, Ew>, st: Seq<(usize, bool)>, q: int) -> bool {
    exists|a: int|
        0 <= a < q && st[a].1 && g.adjacent(st[a].0, st[q].0) && forall|b: int| a < b < q ==> !(#[trigger] st[b]).1
}

/// Whether an entry above position `a` of a traversal stack holds `w`.
pub open spec fn pending_above(st: Seq<(usize, bool)>, a: int, w: usize) -> bool {
    exists|q: int| a < q < st.len() && st[q].0 == w
}

/// Two stacks that agree up to `q` agree on whether the entry at `q` was
/// pushed by its parent.
proof fn lemma_parent_agree<Vw, Ew>(g: GraphView<Vw, Ew>, s: Seq<(usize, bool)>, t: Seq<(usize, bool)>, q: int)
    requires
        0 <= q < s.len(),
        q < t.len(),
        forall|i: int| 0 <= i <= q ==> s[i] == t[i],
        pushed_by_parent(g, s, q),
    ensures
        pushed_by_parent(g, t, q),
{
    let a = choose|a: int|
        0 <= a < q && s[a].1 && g.adjacent(s[a].0, s[q].0) && forall|b: int| a < b < q ==> !(#[trigger] s[b]).1;
    assert(t[a] == s[a]);
    assert(t[q] == s[q]);
    assert forall|b: int| a < b < q implies !(#[trigger] t[b]).1 by {
        assert(t[b] == s[b]);
    }
}

/// The entries a visit pushes for the edges `s` leaving the visited vertex:
/// each sink not in `vis`, in order, not exit-marked.
pub open spec fn unvisited_children<Ew>(s: Seq<(usize, Ew)>, vis: Seq<usize>) -> Seq<(usize, bool)>
    decreases s.len(),
{
    if s.len() == 0 {
        Seq::empty()
    } else if vis.contains(s.last().0) {
        unvisited_children(s.drop_last(), vis)
    } else {
        unvisited_children(s.drop_last(), vis).push((s.last().0, false))
    }
}

/// The vertices on a traversal stack.
pub open spec fn stack_vertices(stack: Seq<(usize, bool)>) -> Set<usize> {
    Set::new(|x: usize| exists|i: int| 0 <= i < stack.len() && (#[trigger] stack[i]).0 == x)
}

/// The sinks of the edges `s` leaving `v`, each paired with `v`, in order:
/// the edges a visit of `v` explores.
pub open spec fn edge_pairs<Ew>(v: usize, s: Seq<(usize, Ew)>) -> Seq<(usize, usize)> {
    Seq::new(s.len(), |i: int| (v, s[i].0))
}

/// The edges `s` leaving `v`, each as `v`, its sink and its weight, in
/// order: the edges a visit of `v` explores.
pub open spec fn edge_triples<Ew>(v: usize, s: Seq<(usize, Ew)>) -> Seq<(usize, usize, Ew)> {
    Seq::new(s.len(), |i: int| (v, s[i].0, s[i].1))
}

/// The edges leaving the vertices `vis` of `g`, one vertex after the other,
/// each as source, sink and weight: what a traversal that has visited `vis`
/// has explored.
pub open spec fn explored_by<Vw, Ew>(g: GraphView<Vw, Ew>, vis: Seq<usize>) -> Seq<(usize, usize, Ew)>
    decreases vis.len(),
{
    if vis.len() == 0 {
        Seq::empty()
    } else {
        explored_by(g, vis.drop_last()) + edge_triples(vis.last(), g.sourced(vis.last()))
    }
}

/// Every edge explored is an edge of the graph, from its source to its
/// sink, with its weight.
pub proof fn lemma_explored_are_edges<Vw, Ew>(g: GraphView<Vw, Ew>, vis: Seq<usize>)
    requires
        g.wf(),
    ensures
        forall|k: int|
            0 <= k < explored_by(g, vis).len() ==> {
                let e = #[trigger] explored_by(g, vis)[k];
                g.between(e.0, e.1).contains(e.2)
            },
    decreases vis.len(),
{
    if vis.len() > 0 {
        lemma_explored_are_edges(g, vis.drop_last());
        let prev = explored_by(g, vis.drop_last());
        let v = vis.last();
        let t = edge_triples(v, g.sourced(v));
        let all = explored_by(g, vis);
        assert forall|k: int| 0 <= k < all.len() implies {
            let e = #[trigger] all[k];
            g.between(e.0, e.1).contains(e.2)
        } by {
            if k < prev.len() {
                assert(all[k] == prev[k]);
            } else {
                let i = k - prev.len();
                assert(all[k] == t[i]);
                let f = g.sourced(v)[i];
                assert(g.sourced(v).contains(f));
                g.lemma_sourced_edge(v, f.0, f.1);
            }
        }
    }
}

/// The vertices of the exit-marked entries of `st` at positions `lo..hi`,
/// topmost first: those that popping the stack from height `hi` down to
/// height `lo` exits, in the order it exits them.
pub open spec fn popped_exits(st: Seq<(usize, bool)>, lo: int, hi: int) -> Seq<usize>
    decreases hi - lo,
{
    if hi <= lo {
        Seq::empty()
    } else if st[hi - 1].1 {
        seq![st[hi - 1].0] + popped_exits(st, lo, hi - 1)
    } else {
        popped_exits(st, lo, hi - 1)
    }
}

/// Popping from `hi` down to `lo` exits what popping from `hi` down to `mid`
/// exits, then what popping on down to `lo` exits.
pub proof fn lemma_popped_exits_split(st: Seq<(usize, bool)>, lo: int, mid: int, hi: int)
    requires
        lo <= mid <= hi,
    ensures
        popped_exits(st, lo, hi) == popped_exits(st, mid, hi) + popped_exits(st, lo, mid),
    decreases hi - mid,
{
    if hi == mid {
        assert(popped_exits(st, mid, hi) =~= Seq::<usize>::empty());
        assert(popped_exits(st, lo, hi) =~= Seq::<usize>::empty() + popped_exits(st, lo, mid));
    } else {
        lemma_popped_exits_split(st, lo, mid, hi - 1);
        if st[hi - 1].1 {
            assert(popped_exits(st, lo, hi) =~= seq![st[hi - 1].0] + popped_exits(st, mid, hi - 1) + popped_exits(
                st,
                lo,
                mid,
            ));
        }
    }
}

/// Popping entries none of which is exit-marked exits nothing.
pub proof fn lemma_popped_exits_none(st: Seq<(usize, bool)>, lo: int, hi: int)
    requires
        forall|i: int| lo <= i < hi ==> !(#[trigger] st[i]).1,
    ensures
        popped_exits(st, lo, hi) == Seq::<usize>::empty(),
    decreases hi - lo,
{
    if hi > lo {
        lemma_popped_exits_none(st, lo, hi - 1);
    }
}

/// What a traversal calls as it goes, on the payload it carries: a vertex is
/// handed to `on_visit` as it is visited; each edge leaving it, to
/// `on_explore`, as its children are explored, whether or not the sink has
/// been visited; and a vertex to `on_exit` when its exit-marked entry is
/// popped off the stack, once everything reached from it is finished.
///
/// The unit type `()` does nothing on each.
pub trait DfsHooks<G: Graph> {
    /// Called as `v`, a vertex of `g`, is visited, before it is marked
    /// visited.
    fn on_visit(&mut self, g: &G, v: usize)
        requires
            g.model().has_vertex(v),
    ;

    /// Called as `v`, a vertex of `g`, is exited.
    fn on_exit(&mut self, g: &G, v: usize)
        requires
            g.model().has_vertex(v),
    ;

    /// Called for an edge of `g` from `source` to `sink` of the given weight,
    /// as `source` is visited.
    fn on_explore(&mut self, g: &G, source: usize, sink: usize, weight: &G::EdgeWeight)
        requires
            g.model().sourced(source).contains((sink, *weight)),
    ;
}

/// Hands an edge being explored to the payload's `on_explore`, recording it.
fn explore_edge<G: Graph, F: DfsHooks<G>>(
    payload: &mut F,
    explores: &mut Ghost<Seq<(usize, usize, G::EdgeWeight)>>,
    g: &G,
    source: usize,
    sink: usize,
    weight: &G::EdgeWeight,
)
    requires
        g.model().sourced(source).contains((sink, *weight)),
    ensures
        final(explores)@ == old(explores)@.push((source, sink, *weight)),
{
    payload.on_explore(g, source, sink, weight);
    *explores = Ghost(explores@.push((source, sink, *weight)));
}

impl<G: Graph> DfsHooks<G> for () {
    fn on_visit(&mut self, g: &G, v: usize) {
    }

    fn on_exit(&mut self, g: &G, v: usize) {
    }

    fn on_explore(&mut self, g: &G, source: usize, sink: usize, weight: &G::EdgeWeight) {
    }
}

/// Performs [depth-first traversal](https://mathworld.wolfram.com/Depth-FirstTraversal.html)
/// of a graph's vertices.
///
/// Even though the 's' in its name implies a search, this struct only
/// performs traversal, delegating the searching to the user.
///
/// [`next`](Dfs::next) is the primary way to use it: each call traverses the
/// graph just enough to visit the next vertex and returns it. The starting
/// vertex is visited when the traversal is created and is never returned by
/// `next`. When every vertex that can be reached has been visited, `next`
/// returns `None`.
///
/// The traversal keeps a stack of vertices, each marked with whether it is
/// being exited: an exit-marked entry is a vertex whose children have been
/// explored, which [`advance_next_exit`](Dfs::advance_next_exit) pops once
/// everything above it is finished. Traversal can be continued from further
/// vertices with [`continue_from`](Dfs::continue_from).
///
/// The traversal carries a payload, whose [`DfsHooks`] it calls as it
/// visits, explores and exits vertices.
pub struct Dfs<'a, G: Graph, F: DfsHooks<G> = ()> {
    /// The graph being traversed.
    pub graph: &'a G,
    /// The payload, whose hooks are called during the traversal.
    pub payload: F,
    visited: Vec<usize>,
    /// The vertices on the stack, and whether they are exit-marked.
    stack: Vec<(usize, bool)>,
    /// The vertices the traversal has started from.
    roots: Ghost<Set<usize>>,
    /// The vertices `on_exit` was called on, in order.
    exits: Ghost<Seq<usize>>,
    /// The edges `on_explore` was called on, as source, sink and weight, in
    /// order.
    explores: Ghost<Seq<(usize, usize, G::EdgeWeight)>>,
}

impl<'a, G: Graph, F: DfsHooks<G>> Dfs<'a, G, F> {
    /// The payload.
    pub closed spec fn spec_payload(&self) -> F {
        self.payload
    }

    /// The vertices `on_exit` has been called on, in order.
    pub closed spec fn exit_seq(&self) -> Seq<usize> {
        self.exits@
    }

    /// The edges `on_explore` has been called on, as source, sink and
    /// weight, in order. (`on_visit` has been called on the vertices of
    /// [`visited_seq`](Dfs::visited_seq), in order.)
    pub closed spec fn explore_seq(&self) -> Seq<(usize, usize, G::EdgeWeight)> {
        self.explores@
    }

    /// The graph being traversed.
    pub closed spec fn spec_graph(&self) -> &'a G {
        self.graph
    }

    /// The vertices visited so far, in visiting order.
    pub closed spec fn visited_seq(&self) -> Seq<usize> {
        self.visited@
    }

    /// The traversal stack, bottom first.
    pub closed spec fn stack_seq(&self) -> Seq<(usize, bool)> {
        self.stack@
    }

    /// The vertices the traversal started from: the first vertex and every
    /// vertex it was continued from.
    pub closed spec fn roots(&self) -> Set<usize> {
        self.roots@
    }

    /// The invariant of the traversal.
    pub closed spec fn wf(&self) -> bool {
        let g = self.graph.model();
        let vis = self.visited@;
        let st = self.stack@;
        &&& self.graph.wf()
        &&& vis.no_duplicates()
        &&& forall|i: int| 0 <= i < vis.len() ==> g.has_vertex(#[trigger] vis[i])
        &&& forall|i: int| 0 <= i < st.len() ==> g.has_vertex((#[trigger] st[i]).0)
        &&& forall|r: usize| #[trigger]
            self.roots@.contains(r) ==> g.has_vertex(r) && (vis.contains(r) || stack_vertices(
                st,
            ).contains(r))
        &&& forall|i: int| 0 <= i < vis.len() ==> reached_from(self.graph, self.roots@, #[trigger] vis[i])
        &&& forall|i: int|
            0 <= i < st.len() ==> reached_from(self.graph, self.roots@, (#[trigger] st[i]).0)
        &&& forall|u: usize, w: usize|
            vis.contains(u) && #[trigger] g.adjacent(u, w) ==> vis.contains(w) || stack_vertices(
                st,
            ).contains(w)
        &&& forall|q: int| 0 <= q < st.len() && !(#[trigger] st[q]).1 ==> pushed_by_parent(g, st, q)
        &&& forall|a: int, w: usize|
            0 <= a < st.len() && (#[trigger] st[a]).1 && vis.contains(st[a].0) && #[trigger] g.adjacent(st[a].0, w)
                ==> vis.contains(w) || pending_above(st, a, w)
        &&& self.explores@ == explored_by(g, vis)
    }

    /// A traversal calls `on_explore` exactly on the edges leaving the
    /// vertices it has visited, one visited vertex after the other, each edge
    /// with its own sink and weight.
    pub proof fn lemma_explores(&self)
        requires
            self.wf(),
        ensures
            self.explore_seq() == explored_by(self.spec_graph().model(), self.visited_seq()),
            forall|k: int|
                0 <= k < self.explore_seq().len() ==> {
                    let e = #[trigger] self.explore_seq()[k];
                    self.spec_graph().model().between(e.0, e.1).contains(e.2)
                },
    {
        self.graph.lemma_wf();
        lemma_explored_are_edges(self.graph.model(), self.visited@);
    }

    /// A finished traversal has visited every vertex reachable from its roots
    /// exactly once, and no other vertex: when no reachable vertex is left
    /// unvisited (as after a call of [`next`](Dfs::next) that returned `None`),
    /// the visited vertices are exactly the reachable ones, without repetition.
    pub proof fn lemma_finished_visits_each_reachable_once(&self)
        requires
            self.wf(),
            forall|x: usize| #[trigger] reached_from(self.spec_graph(), self.roots(), x) ==> self.visited_seq().contains(x),
        ensures
            self.visited_seq().no_duplicates(),
            forall|x: usize|
                #[trigger] self.visited_seq().contains(x) <==> reached_from(self.spec_graph(), self.roots(), x),
    {
        self.lemma_visited();
        assert forall|x: usize| #[trigger] self.visited_seq().contains(x) implies reached_from(self.spec_graph(), self.roots(), x) by {
            let i = choose|i: int| 0 <= i < self.visited_seq().len() && self.visited_seq()[i] == x;
            assert(reached_from(self.spec_graph(), self.roots(), self.visited_seq()[i]));
        }
    }

    /// What the invariant says of the visited vertices.
    pub proof fn lemma_visited(&self)
        requires
            self.wf(),
        ensures
            self.spec_graph().wf(),
            self.visited_seq().no_duplicates(),
            forall|i: int|
                0 <= i < self.visited_seq().len() ==> self.spec_graph().model().has_vertex(
                    #[trigger] self.visited_seq()[i],
                ),
            self.visited_seq().len() <= self.spec_graph().model().vertices.len(),
            forall|i: int|
                0 <= i < self.visited_seq().len() ==> reached_from(
                    self.spec_graph(),
                    self.roots(),
                    #[trigger] self.visited_seq()[i],
                ),
            forall|r: usize| #[trigger] self.roots().contains(r) ==> self.spec_graph().model().has_vertex(r),
    {
        let g = self.graph.model();
        self.graph.lemma_wf();
        assert forall|i: int| 0 <= i < self.visited@.len() implies g.vertices.contains(#[trigger] self.visited@[i]) by {
            g.lemma_vertices(self.visited@[i]);
        }
        lemma_nodup_subseq_len(self.visited@, g.vertices);
    }

    /// Prepares a traversal of `g` from `start` without visiting it: the first
    /// call to [`next`](Dfs::next) visits and returns `start`.
    pub(crate) fn starting_at(g: &'a G, start: usize, payload: F) -> (r: Self)
        requires
            g.wf(),
            g.model().has_vertex(start),
        ensures
            r.wf(),
            r.spec_graph() == g,
            r.spec_payload() == payload,
            r.visited_seq() == Seq::<usize>::empty(),
            r.stack_seq() == seq![(start, true)],
            r.roots() == set![start],
            r.exit_seq() == Seq::<usize>::empty(),
            r.explore_seq() == Seq::<(usize, usize, G::EdgeWeight)>::empty(),
    {
        let result = Dfs {
            graph: g,
            payload,
            visited: Vec::new(),
            stack: vec![(start, true)],
            roots: Ghost(Set::empty().insert(start)),
            exits: Ghost(Seq::empty()),
            explores: Ghost(Seq::empty()),
        };
        proof {
            lemma_reaches_refl(g.model().adj(), start);
            assert(g.model().reachable(start, start));
            assert(set![start].contains(start));
            assert(result.stack@[0].0 == start);
            assert(stack_vertices(result.stack@).contains(start));
            assert(reached_from(g, set![start], start));
        }
        result
    }

    /// Starts a traversal of `g` from `start`, carrying `payload`. `start` is
    /// visited at once: `on_visit` is called on it, then `on_explore` on each
    /// edge leaving it, in order; no vertex is exited. The entry of `start`,
    /// marked to be exited, is at the bottom of the stack, under its unmarked
    /// children.
    pub fn new(g: &'a G, start: usize, payload: F) -> (r: Self)
        requires
            g.wf(),
            g.model().has_vertex(start),
        ensures
            r.wf(),
            r.spec_graph() == g,
            r.visited_seq() == seq![start],
            r.exit_seq() == Seq::<usize>::empty(),
            r.explore_seq() == edge_triples(start, g.model().sourced(start)),
            r.roots() == set![start],
            r.stack_seq() == seq![(start, true)] + unvisited_children(g.model().sourced(start), seq![start]),
            r.stack_seq().len() >= 1,
            r.stack_seq()[0] == (start, true),
            forall|i: int| 1 <= i < r.stack_seq().len() ==> !(#[trigger] r.stack_seq()[i]).1,
    {
        let mut result = Dfs {
            graph: g,
            payload,
            visited: Vec::new(),
            stack: vec![(start, true)],
            roots: Ghost(Set::empty().insert(start)),
            exits: Ghost(Seq::empty()),
            explores: Ghost(Seq::empty()),
        };
        proof {
            lemma_reaches_refl(g.model().adj(), start);
            assert(g.model().reachable(start, start));
            assert(set![start].contains(start));
            assert(reached_from(g, set![start], start));
            assert(result.stack@[0].0 == start);
            assert(stack_vertices(result.stack@).contains(start));
        }
        result.visit(start);
        proof {
            assert(result.explores@ =~= edge_triples(start, g.model().sourced(start)));
        }
        result
    }

    /// Visits `v`: marks it visited and pushes its unvisited children.
    fn visit(&mut self, v: usize)
        requires
            old(self).graph.wf(),
            old(self).graph.model().has_vertex(v),
            !old(self).visited@.contains(v),
            reached_from(old(self).graph, old(self).roots@, v),
            old(self).explores@ == explored_by(old(self).graph.model(), old(self).visited@),
            ({
                &&& old(self).visited@.no_duplicates()
                &&& forall|i: int|
                    0 <= i < old(self).visited@.len() ==> old(self).graph.model().has_vertex(
                        #[trigger] old(self).visited@[i],
                    )
                &&& forall|i: int|
                    0 <= i < old(self).stack@.len() ==> old(self).graph.model().has_vertex(
                        (#[trigger] old(self).stack@[i]).0,
                    )
                &&& forall|r: usize| #[trigger]
                    old(self).roots@.contains(r) ==> old(self).graph.model().has_vertex(r) && (
                    old(self).visited@.contains(r) || r == v || stack_vertices(
                        old(self).stack@,
                    ).contains(r))
                &&& forall|i: int|
                    0 <= i < old(self).visited@.len() ==> reached_from(
                        old(self).graph,
                        old(self).roots@,
                        #[trigger] old(self).visited@[i],
                    )
                &&& forall|i: int|
                    0 <= i < old(self).stack@.len() ==> reached_from(
                        old(self).graph,
                        old(self).roots@,
                        (#[trigger] old(self).stack@[i]).0,
                    )
                &&& forall|u: usize, w: usize|
                    old(self).visited@.contains(u) && #[trigger] old(self).graph.model().adjacent(
                        u,
                        w,
                    ) ==> old(self).visited@.contains(w) || w == v || stack_vertices(
                        old(self).stack@,
                    ).contains(w)
                &&& old(self).stack@.len() > 0
                &&& old(self).stack@.last() == (v, true)
                &&& forall|q: int|
                    0 <= q < old(self).stack@.len() && !(#[trigger] old(self).stack@[q]).1 ==> pushed_by_parent(
                        old(self).graph.model(),
                        old(self).stack@,
                        q,
                    )
                &&& forall|a: int, w: usize|
                    0 <= a < old(self).stack@.len() && (#[trigger] old(self).stack@[a]).1 && old(self).visited@.contains(
                        old(self).stack@[a].0,
                    ) && #[trigger] old(self).graph.model().adjacent(old(self).stack@[a].0, w) ==> old(self).visited@.contains(w)
                        || pending_above(old(self).stack@, a, w)
            }),
        ensures
            final(self).wf(),
            final(self).graph == old(self).graph,
            final(self).roots@ == old(self).roots@,
            final(self).visited@ == old(self).visited@.push(v),
            final(self).stack@.len() >= old(self).stack@.len(),
            final(self).stack@.take(old(self).stack@.len() as int) == old(self).stack@,
            forall|i: int|
                old(self).stack@.len() <= i < final(self).stack@.len() ==> !(#[trigger] final(self).stack@[i]).1,
            final(self).stack@ == old(self).stack@ + unvisited_children(
                old(self).graph.model().sourced(v),
                final(self).visited@,
            ),
            final(self).exits == old(self).exits,
            final(self).explores@ == old(self).explores@ + edge_triples(v, old(self).graph.model().sourced(v)),
    {
        let ghost g = self.graph.model();
        let ghost old_stack = self.stack@;
        let ghost old_vis = self.visited@;
        let ghost old_explores = self.explores@;
        self.payload.on_visit(self.graph, v);
        self.visited.push(v);
        proof {
            self.graph.lemma_wf();
            assert forall|w: usize| #[trigger] self.visited@.contains(w) <==> (old_vis.contains(w) || w == v) by {
                if self.visited@.contains(w) {
                    let i = choose|i: int| 0 <= i < self.visited@.len() && self.visited@[i] == w;
                    if i < old_vis.len() {
                        assert(old_vis[i] == w);
                    }
                }
                if old_vis.contains(w) {
                    let i = choose|i: int| 0 <= i < old_vis.len() && old_vis[i] == w;
                    assert(self.visited@[i] == w);
                }
                if w == v {
                    assert(self.visited@[old_vis.len() as int] == w);
                }
            }
        }
        let children = self.graph.edges_sourced_in(v);
        proof {
            assert(edge_triples(v, deref_pairs(children@).take(0)) =~= Seq::<(usize, usize, G::EdgeWeight)>::empty());
            assert(old_explores + Seq::<(usize, usize, G::EdgeWeight)>::empty() =~= old_explores);
        }
        let mut i: usize = 0;
        while i < children.len()
            invariant
                self.graph.wf(),
                g == self.graph.model(),
                g.wf(),
                g.has_vertex(v),
                deref_pairs(children@) == g.sourced(v),
                i <= children@.len(),
                self.visited@ == old_vis.push(v),
                forall|w: usize| #[trigger] self.visited@.contains(w) <==> (old_vis.contains(w) || w == v),
                self.roots@ == old(self).roots@,
                self.graph == old(self).graph,
                reached_from(self.graph, self.roots@, v),
                self.stack@.len() >= old_stack.len(),
                self.stack@.take(old_stack.len() as int) == old_stack,
                forall|k: int| old_stack.len() <= k < self.stack@.len() ==> !(#[trigger] self.stack@[k]).1,
                forall|k: int| 0 <= k < self.stack@.len() ==> g.has_vertex((#[trigger] self.stack@[k]).0),
                forall|k: int|
                    0 <= k < self.stack@.len() ==> reached_from(self.graph, self.roots@, (#[trigger] self.stack@[k]).0),
                forall|j: int|
                    0 <= j < i ==> self.visited@.contains((#[trigger] deref_pairs(children@)[j]).0)
                        || stack_vertices(self.stack@).contains(deref_pairs(children@)[j].0),
                forall|x: usize| stack_vertices(old_stack).contains(x) ==> #[trigger] stack_vertices(self.stack@).contains(x),
                old_stack.len() > 0,
                old_stack.last() == (v, true),
                forall|q: int| 0 <= q < self.stack@.len() && !(#[trigger] self.stack@[q]).1 ==> pushed_by_parent(g, self.stack@, q),
                forall|a: int, w: usize|
                    0 <= a < self.stack@.len() && (#[trigger] self.stack@[a]).1 && old_vis.contains(self.stack@[a].0)
                        && #[trigger] g.adjacent(self.stack@[a].0, w) ==> self.visited@.contains(w) || pending_above(
                        self.stack@,
                        a,
                        w,
                    ),
                forall|j: int|
                    0 <= j < i ==> self.visited@.contains((#[trigger] deref_pairs(children@)[j]).0) || pending_above(
                        self.stack@,
                        old_stack.len() - 1,
                        deref_pairs(children@)[j].0,
                    ),
                self.stack@ == old_stack + unvisited_children(deref_pairs(children@).take(i as int), self.visited@),
                self.exits == old(self).exits,
                self.explores@ == old_explores + edge_triples(v, deref_pairs(children@).take(i as int)),
            decreases children.len() - i,
        {
            let child = children[i].0;
            proof {
                let s0 = deref_pairs(children@);
                assert(s0[i as int] == (child, *children@[i as int].1));
                assert(g.sourced(v).contains((child, *children@[i as int].1)));
            }
            explore_edge(&mut self.payload, &mut self.explores, self.graph, v, child, children[i].1);
            proof {
                let s0 = deref_pairs(children@);
                assert(edge_triples(v, s0.take(i + 1)) =~= edge_triples(v, s0.take(i as int)).push(
                    (v, child, *children@[i as int].1),
                ));
            }
            proof {
                let s0 = deref_pairs(children@);
                assert(s0.take(i + 1).drop_last() =~= s0.take(i as int));
                assert(s0.take(i + 1).last() == s0[i as int]);
                assert(s0[i as int].0 == child);
            }
            proof {
                assert(deref_pairs(children@)[i as int].0 == child);
                g.lemma_sourced(v, child);
                assert(g.adjacent(v, child));
                assert(g.has_vertex(child));
            }
            let ghost before = self.stack@;
            if !self.visited(child) {
                self.stack.push((child, false));
                proof {
                    let rr = choose|r: usize| self.roots@.contains(r) && #[trigger] g.reachable(r, v);
                    lemma_reaches_step(g.adj(), rr, v, child);
                    assert(self.graph.model().reachable(rr, child));
                    assert(reached_from(self.graph, self.roots@, child));
                    assert(self.stack@[before.len() as int].0 == child);
                    assert(stack_vertices(self.stack@).contains(child));
                    assert forall|x: usize| #[trigger] stack_vertices(before).contains(x) implies stack_vertices(self.stack@).contains(x) by {
                        let k = choose|k: int| 0 <= k < before.len() && before[k].0 == x;
                        assert(self.stack@[k].0 == x);
                    }
                    assert(self.stack@.take(old_stack.len() as int) =~= before.take(old_stack.len() as int));
                    let st = self.stack@;
                    let a = old_stack.len() - 1;
                    assert(st[a] == old_stack[a]);
                    assert forall|q: int| 0 <= q < st.len() && !(#[trigger] st[q]).1 implies pushed_by_parent(g, st, q) by {
                        if q < before.len() {
                            assert forall|k: int| 0 <= k <= q implies before[k] == st[k] by {}
                            lemma_parent_agree(g, before, st, q);
                        } else {
                            assert(st[q].0 == child);
                            assert forall|b: int| a < b < q implies !(#[trigger] st[b]).1 by {
                                assert(st[b] == before[b]);
                            }
                            assert(g.adjacent(st[a].0, st[q].0));
                        }
                    }
                    assert(pending_above(st, a, child)) by {
                        assert(st[before.len() as int].0 == child);
                    }
                    assert forall|a2: int, w: usize|
                        0 <= a2 < st.len() && (#[trigger] st[a2]).1 && old_vis.contains(st[a2].0)
                            && #[trigger] g.adjacent(st[a2].0, w) implies self.visited@.contains(w) || pending_above(st, a2, w) by {
                        assert(a2 < before.len());
                        assert(st[a2] == before[a2]);
                        if !self.visited@.contains(w) {
                            assert(pending_above(before, a2, w));
                            let q = choose|q: int| a2 < q < before.len() && before[q].0 == w;
                            assert(st[q] == before[q]);
                        }
                    }
                    assert forall|j: int|
                        0 <= j < i + 1 && !self.visited@.contains((#[trigger] deref_pairs(children@)[j]).0) implies pending_above(
                            st,
                            a,
                            deref_pairs(children@)[j].0,
                        ) by {
                        if j < i {
                            let w = deref_pairs(children@)[j].0;
                            let q = choose|q: int| a < q < before.len() && before[q].0 == w;
                            assert(st[q] == before[q]);
                        }
                    }
                }
            }
            proof {
                let s0 = deref_pairs(children@);
                assert(self.stack@ =~= old_stack + unvisited_children(s0.take(i + 1), self.visited@));
            }
            i += 1;
        }
        proof {
            assert(deref_pairs(children@).take(i as int) =~= g.sourced(v));
            assert(self.explores@ =~= old_explores + edge_triples(v, g.sourced(v)));
            assert(self.visited@.drop_last() =~= old_vis);
            assert(self.explores@ == explored_by(g, self.visited@));
            assert forall|u: usize, w: usize|
                self.visited@.contains(u) && #[trigger] g.adjacent(u, w) implies self.visited@.contains(w)
                    || stack_vertices(self.stack@).contains(w) by {
                if u == v {
                    g.lemma_sourced(v, w);
                    let j = choose|j: int| 0 <= j < g.sourced(v).len() && g.sourced(v)[j].0 == w;
                    assert(deref_pairs(children@)[j].0 == w);
                } else {
                    assert(old_vis.contains(u));
                }
            }
            assert forall|a: int, w: usize|
                0 <= a < self.stack@.len() && (#[trigger] self.stack@[a]).1 && self.visited@.contains(self.stack@[a].0)
                    && #[trigger] g.adjacent(self.stack@[a].0, w) implies self.visited@.contains(w) || pending_above(
                    self.stack@,
                    a,
                    w,
                ) by {
                if !old_vis.contains(self.stack@[a].0) {
                    assert(self.stack@[a].0 == v);
                    assert(a < old_stack.len());
                    g.lemma_sourced(v, w);
                    let j = choose|j: int| 0 <= j < g.sourced(v).len() && g.sourced(v)[j].0 == w;
                    assert(deref_pairs(children@)[j].0 == w);
                    if !self.visited@.contains(w) {
                        let q = choose|q: int| old_stack.len() - 1 < q < self.stack@.len() && self.stack@[q].0 == w;
                    }
                }
            }
            assert forall|r: usize| #[trigger] self.roots@.contains(r) implies g.has_vertex(r) && (
                self.visited@.contains(r) || stack_vertices(self.stack@).contains(r)) by {}
            assert forall|k: int| 0 <= k < self.visited@.len() implies reached_from(self.graph, self.roots@, #[trigger] self.visited@[k]) by {
                if k < old_vis.len() {
                    assert(self.visited@[k] == old_vis[k]);
                }
            }
            assert forall|k: int| 0 <= k < self.visited@.len() implies g.has_vertex(#[trigger] self.visited@[k]) by {
                if k < old_vis.len() {
                    assert(self.visited@[k] == old_vis[k]);
                }
            }
            assert(self.visited@.no_duplicates()) by {
                assert forall|a: int, b: int| 0 <= a < b < self.visited@.len() implies self.visited@[a] != self.visited@[b] by {
                    if b == old_vis.len() {
                        assert(old_vis.contains(self.visited@[a]) || a == b);
                        assert(self.visited@[a] == old_vis[a]);
                    }
                }
            }
        }
    }

    /// Returns the graph being traversed.
    pub fn graph(&self) -> (r: &'a G)
        ensures
            r == self.spec_graph(),
    {
        self.graph
    }

    /// Returns whether the given vertex has been visited.
    pub fn visited(&self, v: usize) -> (r: bool)
        ensures
            r == self.visited_seq().contains(v),
    {
        let mut i: usize = 0;
        while i < self.visited.len()
            invariant
                i <= self.visited@.len(),
                forall|j: int| 0 <= j < i ==> self.visited@[j] != v,
            decreases self.visited.len() - i,
        {
            if self.visited[i] == v {
                return true;
            }
            i += 1;
        }
        false
    }

    /// Pops the next vertex that is finished being visited off the stack,
    /// returning it.
    ///
    /// Entries at the top of the stack that are visited are popped until one
    /// that is exit-marked is found, which is returned. Returns `None` when the
    /// stack is empty or its top entry has not been visited.
    pub fn advance_next_exit(&mut self) -> (r: Option<usize>)
        requires
            old(self).wf(),
        ensures
            final(self).wf(),
            final(self).spec_graph() == old(self).spec_graph(),
            final(self).roots() == old(self).roots(),
            final(self).visited_seq() == old(self).visited_seq(),
            final(self).stack_seq().len() <= old(self).stack_seq().len(),
            final(self).stack_seq() == old(self).stack_seq().take(final(self).stack_seq().len() as int),
            forall|i: int|
                final(self).stack_seq().len() <= i < old(self).stack_seq().len() ==> old(self).visited_seq().contains((#[trigger] old(self).stack_seq()[i]).0),
            final(self).explore_seq() == old(self).explore_seq(),
            match r {
                Some(v) => final(self).exit_seq() == old(self).exit_seq().push(v),
                None => final(self).exit_seq() == old(self).exit_seq(),
            },
            match r {
                Some(v) => {
                    &&& final(self).stack_seq().len() < old(self).stack_seq().len()
                    &&& old(self).stack_seq()[final(self).stack_seq().len() as int] == (v, true)
                    &&& forall|w: usize| #[trigger]
                        old(self).spec_graph().model().adjacent(v, w) ==> old(self).visited_seq().contains(w)
                    &&& forall|i: int|
                        final(self).stack_seq().len() < i < old(self).stack_seq().len() ==> !(
                        #[trigger] old(self).stack_seq()[i]).1
                },
                None => {
                    &&& forall|i: int|
                        final(self).stack_seq().len() <= i < old(self).stack_seq().len() ==> !(
                        #[trigger] old(self).stack_seq()[i]).1
                    &&& final(self).stack_seq().len() == 0 || !old(self).visited_seq().contains(
                        final(self).stack_seq().last().0,
                    )
                },
            },
    {
        let ghost st0 = self.stack@;
        while self.stack.len() > 0
            invariant
                self.wf(),
                self.graph == old(self).graph,
                self.roots@ == old(self).roots@,
                self.visited@ == old(self).visited@,
                st0 == old(self).stack@,
                self.stack@.len() <= st0.len(),
                self.stack@ == st0.take(self.stack@.len() as int),
                forall|i: int| self.stack@.len() <= i < st0.len() ==> self.visited@.contains((#[trigger] st0[i]).0),
                forall|i: int| self.stack@.len() <= i < st0.len() ==> !(#[trigger] st0[i]).1,
                self.exits == old(self).exits,
                self.explores == old(self).explores,
            decreases self.stack.len(),
        {
            let last = self.stack[self.stack.len() - 1];
            if self.visited(last.0) {
                let ghost before = self.stack@;
                let last = self.stack.pop().unwrap();
                proof {
                    assert(self.stack@ =~= st0.take(self.stack@.len() as int));
                    assert(st0[self.stack@.len() as int] == last);
                    assert forall|x: usize| #[trigger] stack_vertices(before).contains(x) && !stack_vertices(self.stack@).contains(x) implies self.visited@.contains(x) by {
                        let k = choose|k: int| 0 <= k < before.len() && before[k].0 == x;
                        if k < self.stack@.len() {
                            assert(self.stack@[k].0 == x);
                        }
                    }
                    assert forall|k: int| 0 <= k < self.stack@.len() implies self.graph.model().has_vertex((#[trigger] self.stack@[k]).0) by {
                        assert(self.stack@[k] == before[k]);
                    }
                    assert forall|k: int| 0 <= k < self.stack@.len() implies reached_from(self.graph, self.roots@, (#[trigger] self.stack@[k]).0) by {
                        assert(self.stack@[k] == before[k]);
                    }
                }
                if last.1 {
                    proof {
                        assert(self.stack@.len() < st0.len());
                        assert(self.stack@ == st0.take(self.stack@.len() as int));
                        let a = before.len() - 1;
                        assert(before[a] == last);
                        assert forall|w: usize| #[trigger] self.graph.model().adjacent(last.0, w) implies self.visited@.contains(w) by {
                            assert(!pending_above(before, a, w));
                        }
                    }
                    self.payload.on_exit(self.graph, last.0);
                    proof {
                        self.exits@ = self.exits@.push(last.0);
                    }
                    return Some(last.0);
                }
            } else {
                return None;
            }
        }
        None
    }

    /// Continues the traversal from `v` once the current traversal is
    /// finished, unless `v` has already been visited. Returns whether it will.
    pub fn continue_from(&mut self, v: usize) -> (r: bool)
        requires
            old(self).wf(),
            old(self).spec_graph().model().has_vertex(v),
        ensures
            final(self).wf(),
            final(self).spec_graph() == old(self).spec_graph(),
            final(self).visited_seq() == old(self).visited_seq(),
            r == !old(self).visited_seq().contains(v),
            r ==> final(self).roots() == old(self).roots().insert(v) && final(self).stack_seq()
                == old(self).stack_seq().push((v, true)),
            !r ==> final(self).roots() == old(self).roots() && final(self).stack_seq() == old(self).stack_seq(),
            final(self).exit_seq() == old(self).exit_seq(),
            final(self).explore_seq() == old(self).explore_seq(),
            final(self).spec_payload() == old(self).spec_payload(),
    {
        if !self.visited(v) {
            let ghost before = self.stack@;
            let ghost old_roots = self.roots@;
            self.stack.push((v, true));
            proof {
                self.roots@ = self.roots@.insert(v);
                let g = self.graph.model();
                lemma_reaches_refl(g.adj(), v);
                assert forall|x: usize| reached_from(self.graph, old_roots, x) implies #[trigger] reached_from(self.graph, self.roots@, x) by {
                    let r = choose|r: usize| old_roots.contains(r) && #[trigger] g.reachable(r, x);
                    assert(self.roots@.contains(r));
                }
                assert(g.reachable(v, v));
                assert(self.roots@.contains(v));
                assert(reached_from(self.graph, self.roots@, v));
                assert forall|x: usize| #[trigger] stack_vertices(before).contains(x) implies stack_vertices(self.stack@).contains(x) by {
                    let k = choose|k: int| 0 <= k < before.len() && before[k].0 == x;
                    assert(self.stack@[k].0 == x);
                }
                assert(self.stack@[before.len() as int].0 == v);
                assert(stack_vertices(self.stack@).contains(v));
                assert forall|k: int| 0 <= k < self.visited@.len() implies reached_from(self.graph, self.roots@, #[trigger] self.visited@[k]) by {
                    assert(reached_from(self.graph, old_roots, self.visited@[k]));
                }
                assert forall|k: int| 0 <= k < self.stack@.len() implies reached_from(self.graph, self.roots@, (#[trigger] self.stack@[k]).0) by {
                    if k < before.len() {
                        assert(self.stack@[k] == before[k]);
                        assert(reached_from(self.graph, old_roots, before[k].0));
                    }
                }
                assert forall|k: int| 0 <= k < self.stack@.len() implies g.has_vertex((#[trigger] self.stack@[k]).0) by {
                    if k < before.len() {
                        assert(self.stack@[k] == before[k]);
                    }
                }
                let st = self.stack@;
                assert forall|q: int| 0 <= q < st.len() && !(#[trigger] st[q]).1 implies pushed_by_parent(g, st, q) by {
                    assert(q < before.len());
                    assert forall|k: int| 0 <= k <= q implies before[k] == st[k] by {}
                    lemma_parent_agree(g, before, st, q);
                }
                assert forall|a: int, w: usize|
                    0 <= a < st.len() && (#[trigger] st[a]).1 && self.visited@.contains(st[a].0)
                        && #[trigger] g.adjacent(st[a].0, w) implies self.visited@.contains(w) || pending_above(st, a, w) by {
                    assert(a < before.len());
                    assert(st[a] == before[a]);
                    if !self.visited@.contains(w) {
                        let q = choose|q: int| a < q < before.len() && before[q].0 == w;
                        assert(st[q] == before[q]);
                    }
                }
            }
            true
        } else {
            false
        }
    }

    /// Visits the next vertex and returns it, or returns `None` when every
    /// vertex reachable from where the traversal started has been visited.
    pub fn next(&mut self) -> (r: Option<usize>)
        requires
            old(self).wf(),
        ensures
            final(self).wf(),
            final(self).spec_graph() == old(self).spec_graph(),
            final(self).roots() == old(self).roots(),
            match r {
                Some(v) => {
                    &&& !old(self).visited_seq().contains(v)
                    &&& final(self).visited_seq() == old(self).visited_seq().push(v)
                    &&& reached_from(old(self).spec_graph(), old(self).roots(), v)
                },
                None => {
                    &&& final(self).visited_seq() == old(self).visited_seq()
                    &&& forall|x: usize|
                        #[trigger] reached_from(old(self).spec_graph(), old(self).roots(), x)
                            ==> old(self).visited_seq().contains(x)
                },
            },
            // The vertex visited is the topmost one on the stack not visited yet;
            // the entries above it are popped, and its entry is exit-marked.
            match r {
                Some(v) => exists|q: int|
                    {
                        &&& 0 <= q < old(self).stack_seq().len()
                        &&& old(self).stack_seq()[q].0 == v
                        &&& forall|i: int|
                            q < i < old(self).stack_seq().len() ==> old(self).visited_seq().contains(
                                (#[trigger] old(self).stack_seq()[i]).0,
                            )
                        &&& final(self).stack_seq().len() > q
                        &&& final(self).stack_seq().take(q + 1) == old(self).stack_seq().take(q + 1).update(q, (v, true))
                        &&& forall|i: int| q < i < final(self).stack_seq().len() ==> !(#[trigger] final(self).stack_seq()[i]).1
                        &&& final(self).stack_seq() == old(self).stack_seq().take(q).push((v, true)) + unvisited_children(
                            old(self).spec_graph().model().sourced(v),
                            final(self).visited_seq(),
                        )
                    },
                None => forall|i: int|
                    0 <= i < old(self).stack_seq().len() ==> old(self).visited_seq().contains(
                        (#[trigger] old(self).stack_seq()[i]).0,
                    ),
            },
            // When no exit is pending, the stack is only extended by the visit.
            old(self).stack_seq().len() == 0 || !old(self).visited_seq().contains(old(self).stack_seq().last().0)
                ==> match r {
                Some(v) => {
                    &&& old(self).stack_seq().len() > 0
                    &&& v == old(self).stack_seq().last().0
                    &&& final(self).stack_seq().len() >= old(self).stack_seq().len()
                    &&& final(self).stack_seq().take(old(self).stack_seq().len() as int)
                        == old(self).stack_seq().update(old(self).stack_seq().len() - 1, (v, true))
                    &&& forall|i: int|
                        old(self).stack_seq().len() <= i < final(self).stack_seq().len() ==> !(
                        #[trigger] final(self).stack_seq()[i]).1
                    &&& !old(self).stack_seq().last().1 ==> pushed_by_parent(
                        old(self).spec_graph().model(),
                        old(self).stack_seq(),
                        old(self).stack_seq().len() - 1,
                    )
                },
                None => old(self).stack_seq().len() == 0 && final(self).stack_seq().len() == 0,
            },
            // The vertices exited are those of the exit-marked entries popped,
            // topmost first; the edges explored are those leaving the vertex
            // visited.
            match r {
                Some(v) => {
                    &&& final(self).explore_seq() == old(self).explore_seq() + edge_triples(
                        v,
                        old(self).spec_graph().model().sourced(v),
                    )
                    &&& exists|q: int|
                        {
                            &&& 0 <= q < old(self).stack_seq().len()
                            &&& #[trigger] old(self).stack_seq()[q].0 == v
                            &&& forall|i: int|
                                q < i < old(self).stack_seq().len() ==> old(self).visited_seq().contains(
                                    (#[trigger] old(self).stack_seq()[i]).0,
                                )
                            &&& final(self).exit_seq() == old(self).exit_seq() + popped_exits(
                                old(self).stack_seq(),
                                q + 1,
                                old(self).stack_seq().len() as int,
                            )
                        }
                },
                None => {
                    &&& final(self).stack_seq().len() == 0
                    &&& final(self).explore_seq() == old(self).explore_seq()
                    &&& final(self).exit_seq() == old(self).exit_seq() + popped_exits(
                        old(self).stack_seq(),
                        0,
                        old(self).stack_seq().len() as int,
                    )
                },
            },
    {
        proof {
            let l0 = old(self).stack@.len() as int;
            assert(popped_exits(old(self).stack@, l0, l0) =~= Seq::<usize>::empty());
            assert(self.exits@ =~= old(self).exits@ + popped_exits(old(self).stack@, l0, l0));
        }
        loop
            invariant
                self.wf(),
                self.graph == old(self).graph,
                self.roots@ == old(self).roots@,
                self.visited@ == old(self).visited@,
                old(self).stack@.len() == 0 || !old(self).visited@.contains(old(self).stack@.last().0)
                    ==> self.stack@ == old(self).stack@,
                self.stack@.len() <= old(self).stack@.len(),
                self.stack@ == old(self).stack@.take(self.stack@.len() as int),
                forall|i: int|
                    self.stack@.len() <= i < old(self).stack@.len() ==> old(self).visited@.contains(
                        (#[trigger] old(self).stack@[i]).0,
                    ),
                self.exits@ == old(self).exits@ + popped_exits(
                    old(self).stack@,
                    self.stack@.len() as int,
                    old(self).stack@.len() as int,
                ),
                self.explores == old(self).explores,
            ensures
                self.wf(),
                self.graph == old(self).graph,
                self.roots@ == old(self).roots@,
                self.visited@ == old(self).visited@,
                self.stack@.len() == 0 || !self.visited@.contains(self.stack@.last().0),
                old(self).stack@.len() == 0 || !old(self).visited@.contains(old(self).stack@.last().0)
                    ==> self.stack@ == old(self).stack@,
                self.stack@.len() <= old(self).stack@.len(),
                self.stack@ == old(self).stack@.take(self.stack@.len() as int),
                forall|i: int|
                    self.stack@.len() <= i < old(self).stack@.len() ==> old(self).visited@.contains(
                        (#[trigger] old(self).stack@[i]).0,
                    ),
                self.exits@ == old(self).exits@ + popped_exits(
                    old(self).stack@,
                    self.stack@.len() as int,
                    old(self).stack@.len() as int,
                ),
                self.explores == old(self).explores,
            decreases self.stack@.len(),
        {
            let ghost before = self.stack@;
            let ghost ex0 = self.exits@;
            match self.advance_next_exit() {
                Some(x) => {
                    proof {
                        let st0 = old(self).stack@;
                        let l0 = st0.len() as int;
                        let l = before.len() as int;
                        let l1 = self.stack@.len() as int;
                        assert forall|i: int| 0 <= i < l implies #[trigger] before[i] == st0[i] by {
                            assert(before[i] == st0.take(l)[i]);
                        }
                        assert(st0[l1] == (x, true));
                        assert forall|i: int| l1 + 1 <= i < l implies !(#[trigger] st0[i]).1 by {
                            assert(before[i] == st0[i]);
                        }
                        lemma_popped_exits_none(st0, l1 + 1, l);
                        lemma_popped_exits_split(st0, l1, l1 + 1, l);
                        lemma_popped_exits_split(st0, l1, l, l0);
                        assert(popped_exits(st0, l1, l1) =~= Seq::<usize>::empty());
                        assert(popped_exits(st0, l1, l1 + 1) =~= seq![x]);
                        assert(self.exits@ =~= old(self).exits@ + popped_exits(st0, l1, l0));
                        assert(self.stack@ =~= old(self).stack@.take(self.stack@.len() as int));
                        assert forall|i: int|
                            self.stack@.len() <= i < old(self).stack@.len() implies old(self).visited@.contains(
                                (#[trigger] old(self).stack@[i]).0,
                            ) by {
                            if i < before.len() {
                                assert(before[i] == old(self).stack@[i]);
                            }
                        }
                        if old(self).stack@.len() == 0 || !old(self).visited@.contains(old(self).stack@.last().0) {
                            assert(self.visited@.contains(before[before.len() - 1].0));
                        }
                    }
                },
                None => {
                    proof {
                        let st0 = old(self).stack@;
                        let l0 = st0.len() as int;
                        let l = before.len() as int;
                        let l1 = self.stack@.len() as int;
                        assert forall|i: int| 0 <= i < l implies #[trigger] before[i] == st0[i] by {
                            assert(before[i] == st0.take(l)[i]);
                        }
                        assert forall|i: int| l1 <= i < l implies !(#[trigger] st0[i]).1 by {
                            assert(before[i] == st0[i]);
                        }
                        lemma_popped_exits_none(st0, l1, l);
                        lemma_popped_exits_split(st0, l1, l, l0);
                        assert(self.exits@ =~= old(self).exits@ + popped_exits(st0, l1, l0));
                        assert(self.stack@ =~= old(self).stack@.take(self.stack@.len() as int));
                        assert forall|i: int|
                            self.stack@.len() <= i < old(self).stack@.len() implies old(self).visited@.contains(
                                (#[trigger] old(self).stack@[i]).0,
                            ) by {
                            if i < before.len() {
                                assert(before[i] == old(self).stack@[i]);
                            }
                        }
                        if old(self).stack@.len() == 0 || !old(self).visited@.contains(old(self).stack@.last().0) {
                            if self.stack@.len() < before.len() {
                                assert(self.visited@.contains(before[before.len() - 1].0));
                            }
                            assert(self.stack@ =~= before);
                        }
                    }
                    break;
                },
            }
        }
        if self.stack.len() == 0 {
            proof {
                let g = self.graph.model();
                let s = self.visited@.to_set();
                assert forall|x: usize, y: usize| s.contains(x) && #[trigger] g.adj()(x, y) implies s.contains(y) by {
                    assert(g.adjacent(x, y));
                    assert(!stack_vertices(self.stack@).contains(y));
                }
                assert forall|x: usize| #[trigger] reached_from(self.graph, self.roots@, x) implies self.visited@.contains(x) by {
                    let r = choose|r: usize| self.roots@.contains(r) && #[trigger] g.reachable(r, x);
                    assert(!stack_vertices(self.stack@).contains(r));
                    lemma_reaches_closed(g.adj(), s, r, x);
                }
            }
            return None;
        }
        let top = self.stack.len() - 1;
        let to_return = self.stack[top].0;
        proof {
            assert(forall|i: int|
                top + 1 <= i < old(self).stack@.len() ==> old(self).visited@.contains(
                    (#[trigger] old(self).stack@[i]).0,
                ));
        }
        proof {
            assert(!self.visited@.contains(to_return));
        }
        let ghost st = self.stack@;
        self.stack.set(top, (to_return, true));
        proof {
            assert forall|x: usize| #[trigger] stack_vertices(st).contains(x) implies stack_vertices(self.stack@).contains(x) by {
                let k = choose|k: int| 0 <= k < st.len() && st[k].0 == x;
                assert(self.stack@[k].0 == x);
            }
            assert forall|k: int| 0 <= k < self.stack@.len() implies self.graph.model().has_vertex((#[trigger] self.stack@[k]).0) by {
                assert(self.stack@[k].0 == st[k].0);
            }
            assert forall|k: int| 0 <= k < self.stack@.len() implies reached_from(self.graph, self.roots@, (#[trigger] self.stack@[k]).0) by {
                assert(self.stack@[k].0 == st[k].0);
            }
            assert(reached_from(self.graph, self.roots@, st[top as int].0));
            let st1 = self.stack@;
            let g = self.graph.model();
            assert forall|q: int| 0 <= q < st1.len() && !(#[trigger] st1[q]).1 implies pushed_by_parent(g, st1, q) by {
                assert(q < top);
                assert forall|k: int| 0 <= k <= q implies st[k] == st1[k] by {}
                lemma_parent_agree(g, st, st1, q);
            }
            assert forall|a: int, w: usize|
                0 <= a < st1.len() && (#[trigger] st1[a]).1 && self.visited@.contains(st1[a].0)
                    && #[trigger] g.adjacent(st1[a].0, w) implies self.visited@.contains(w) || pending_above(st1, a, w) by {
                assert(a < top);
                assert(st1[a] == st[a]);
                if !self.visited@.contains(w) {
                    let q = choose|q: int| a < q < st.len() && st[q].0 == w;
                    assert(st1[q].0 == st[q].0);
                }
            }
        }
        self.visit(to_return);
        proof {
            let q = top as int;
            let o = old(self).stack@;
            assert(st == o.take(q + 1));
            assert(o[q].0 == to_return);
            assert(self.stack@.take(q + 1) =~= o.take(q + 1).update(q, (to_return, true)));
            assert(0 <= q < o.len() && o[q].0 == to_return);
            assert(old(self).stack_seq()[q].0 == to_return);
            assert(forall|i: int|
                q < i < old(self).stack_seq().len() ==> old(self).visited_seq().contains(
                    (#[trigger] old(self).stack_seq()[i]).0,
                ));
            assert(self.stack@.len() > q);
            assert(forall|i: int| q < i < self.stack@.len() ==> !(#[trigger] self.stack@[i]).1);
            assert(st.update(q, (to_return, true)) =~= o.take(q).push((to_return, true)));
            if old(self).stack@.len() == 0 || !old(self).visited@.contains(old(self).stack@.last().0) {
                assert(st =~= old(self).stack@);
                assert(self.stack@.take(st.len() as int) =~= st.update(top as int, (to_return, true)));
            }
        }
        Some(to_return)
    }
}


impl<'a, G: Graph> Dfs<'a, G> {
    /// Starts a traversal of `g` from `start`, with no payload, which is
    /// visited at once.
    pub fn new_simple(g: &'a G, start: usize) -> (r: Self)
        requires
            g.wf(),
            g.model().has_vertex(start),
        ensures
            r.wf(),
            r.spec_graph() == g,
            r.visited_seq() == seq![start],
            r.roots() == set![start],
            r.stack_seq() == seq![(start, true)] + unvisited_children(g.model().sourced(start), seq![start]),
            r.exit_seq() == Seq::<usize>::empty(),
            r.explore_seq() == edge_triples(start, g.model().sourced(start)),
    {
        Self::new(g, start, ())
    }
}

impl<'a, G: Graph, F: DfsHooks<G>> Dfs<'a, G, F> {
    /// A step of the traversal depends only on its graph, stack and visited
    /// vertices, not on its payload or on the hooks called: two traversals
    /// in the same such state, whatever their payloads, return the same
    /// vertex and are left in the same state. So a traversal with hooks
    /// returns the same vertices as one without.
    pub proof fn lemma_step_determined<H: DfsHooks<G>>(
        a: Self,
        b: Dfs<'a, G, H>,
        g: &G,
        ra: Option<usize>,
        rb: Option<usize>,
        a2: Self,
        b2: Dfs<'a, G, H>,
    )
        requires
            a.spec_graph() == b.spec_graph(),
            a.visited_seq() == b.visited_seq(),
            a.stack_seq() == b.stack_seq(),
            a.roots() == b.roots(),
            a.step(g, ra, &a2),
            b.step(g, rb, &b2),
        ensures
            ra == rb,
            a2.spec_graph() == b2.spec_graph(),
            a2.visited_seq() == b2.visited_seq(),
            a2.stack_seq() == b2.stack_seq(),
            a2.roots() == b2.roots(),
    {
        let st = a.stack_seq();
        let vis = a.visited_seq();
        match ra {
            Some(va) => {
                let qa = choose|q: int|
                    {
                        &&& 0 <= q < st.len()
                        &&& #[trigger] st[q].0 == va
                        &&& forall|i: int| q < i < st.len() ==> vis.contains((#[trigger] st[i]).0)
                        &&& a2.stack_seq() == st.take(q).push((va, true)) + unvisited_children(
                            a.spec_graph().model().sourced(va),
                            a2.visited_seq(),
                        )
                    };
                match rb {
                    Some(vb) => {
                        let qb = choose|q: int|
                            {
                                &&& 0 <= q < st.len()
                                &&& #[trigger] st[q].0 == vb
                                &&& forall|i: int| q < i < st.len() ==> vis.contains((#[trigger] st[i]).0)
                                &&& b2.stack_seq() == st.take(q).push((vb, true)) + unvisited_children(
                                    b.spec_graph().model().sourced(vb),
                                    b2.visited_seq(),
                                )
                            };
                        if qa < qb {
                            assert(vis.contains(st[qb].0));
                        } else if qb < qa {
                            assert(vis.contains(st[qa].0));
                        }
                        assert(qa == qb && va == vb);
                        assert(a2.visited_seq() == b2.visited_seq());
                        assert(a2.stack_seq() == b2.stack_seq());
                    },
                    None => {
                        assert(b.stack_seq()[qa] == st[qa]);
                        assert(vis.contains(st[qa].0));
                        assert(false);
                    },
                }
            },
            None => {
                if rb is None {
                    assert(a2.stack_seq() =~= b2.stack_seq());
                }
                if let Some(vb) = rb {
                    let qb = choose|q: int|
                        {
                            &&& 0 <= q < st.len()
                            &&& #[trigger] st[q].0 == vb
                            &&& forall|i: int| q < i < st.len() ==> vis.contains((#[trigger] st[i]).0)
                            &&& b2.stack_seq() == st.take(q).push((vb, true)) + unvisited_children(
                                b.spec_graph().model().sourced(vb),
                                b2.visited_seq(),
                            )
                        };
                    assert(vis.contains(st[qb].0));
                }
            },
        }
    }
}

impl<'a, G: Graph, F: DfsHooks<G>> UnretainedIterator<G> for Dfs<'a, G, F> {
    type Item = usize;

    /// The traversal runs on the graph it is given.
    open spec fn fits(&self, g: &G) -> bool {
        self.wf() && *self.spec_graph() == *g
    }

    /// One step visits the topmost vertex on the stack not visited yet,
    /// popping the entries above it, exit-marking its own and pushing its
    /// unvisited children; or, when every vertex on the stack is visited,
    /// returns `None` without visiting anything.
    open spec fn step(&self, g: &G, r: Option<usize>, next: &Self) -> bool {
        &&& next.spec_graph() == self.spec_graph()
        &&& next.roots() == self.roots()
        &&& match r {
            Some(v) => {
                &&& !self.visited_seq().contains(v)
                &&& next.visited_seq() == self.visited_seq().push(v)
                &&& reached_from(self.spec_graph(), self.roots(), v)
                &&& exists|q: int|
                    {
                        &&& 0 <= q < self.stack_seq().len()
                        &&& #[trigger] self.stack_seq()[q].0 == v
                        &&& forall|i: int|
                            q < i < self.stack_seq().len() ==> self.visited_seq().contains(
                                (#[trigger] self.stack_seq()[i]).0,
                            )
                        &&& next.stack_seq() == self.stack_seq().take(q).push((v, true)) + unvisited_children(
                            self.spec_graph().model().sourced(v),
                            next.visited_seq(),
                        )
                    }
            },
            None => {
                &&& next.stack_seq().len() == 0
                &&& next.visited_seq() == self.visited_seq()
                &&& forall|x: usize|
                    #[trigger] reached_from(self.spec_graph(), self.roots(), x) ==> self.visited_seq().contains(x)
                &&& forall|i: int|
                    0 <= i < self.stack_seq().len() ==> self.visited_seq().contains(
                        (#[trigger] self.stack_seq()[i]).0,
                    )
            },
        }
    }

    /// Visits the next vertex and returns it: see [`Dfs::next`].
    fn next(&mut self, g: &G) -> (r: Option<usize>) {
        Dfs::next(self)
    }
}

} // verus!
