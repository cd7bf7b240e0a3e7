//! Ways of traversing a graph from a starting vertex, and properties of
//! graphs found by traversing them.
use crate::algo::dfs::{edge_triples, popped_exits, reached_from, unvisited_children, Dfs, DfsHooks};
use crate::algo::retain::{Retainable, Retained, UnretainedIterator};
use crate::graph::Graph;
use vstd::prelude::*;

verus! {

/// Depth-first traversal that also returns the starting vertex.
///
/// Unlike [`Dfs`], the starting vertex is not visited when the traversal is
/// created: the first call to [`next`](DFS::next) visits and returns it. Every
/// later call returns the next vertex reachable from it, depth first, and
/// `None` once every such vertex has been returned.
///
/// The traversal carries a payload, whose [`DfsHooks`] it calls as it goes.
pub struct DFS<'a, G: Graph, F: DfsHooks<G> = ()> {
    /// The traversal state.
    pub dfs: Dfs<'a, G, F>,
}

impl<'a, G: Graph> DFS<'a, G> {
    /// Prepares a traversal of `g` from `start`, with no payload.
    pub fn new_simple(g: &'a G, start: usize) -> (r: Self)
        requires
            g.wf(),
            g.model().has_vertex(start),
        ensures
            r.dfs.wf(),
            r.dfs.spec_graph() == g,
            r.dfs.visited_seq() == Seq::<usize>::empty(),
            r.dfs.roots() == set![start],
            r.dfs.stack_seq() == seq![(start, true)],
            r.dfs.stack_seq().last() == (start, true),
            r.dfs.exit_seq() == Seq::<usize>::empty(),
            r.dfs.explore_seq() == Seq::<(usize, usize, G::EdgeWeight)>::empty(),
    {
        DFS::new(g, start, ())
    }
}

impl<'a, G: Graph, F: DfsHooks<G>> DFS<'a, G, F> {
    /// Prepares a traversal of `g` from `start`, carrying `payload`; no hook
    /// is called yet.
    pub fn new(g: &'a G, start: usize, payload: F) -> (r: Self)
        requires
            g.wf(),
            g.model().has_vertex(start),
        ensures
            r.dfs.wf(),
            r.dfs.spec_graph() == g,
            r.dfs.spec_payload() == payload,
            r.dfs.visited_seq() == Seq::<usize>::empty(),
            r.dfs.roots() == set![start],
            r.dfs.stack_seq() == seq![(start, true)],
            r.dfs.stack_seq().last() == (start, true),
            r.dfs.exit_seq() == Seq::<usize>::empty(),
            r.dfs.explore_seq() == Seq::<(usize, usize, G::EdgeWeight)>::empty(),
    {
        DFS { dfs: Dfs::starting_at(g, start, payload) }
    }

    /// Returns whether the given vertex has been visited.
    pub fn visited(&self, v: usize) -> (r: bool)
        ensures
            r == self.dfs.visited_seq().contains(v),
    {
        self.dfs.visited(v)
    }

    /// Pops the next vertex that is finished being visited off the stack,
    /// returning it. See [`Dfs::advance_next_exit`].
    pub fn advance_next_exit(&mut self) -> (r: Option<usize>)
        requires
            old(self).dfs.wf(),
        ensures
            final(self).dfs.wf(),
            final(self).dfs.spec_graph() == old(self).dfs.spec_graph(),
            final(self).dfs.roots() == old(self).dfs.roots(),
            final(self).dfs.visited_seq() == old(self).dfs.visited_seq(),
            final(self).dfs.stack_seq().len() <= old(self).dfs.stack_seq().len(),
            final(self).dfs.stack_seq() == old(self).dfs.stack_seq().take(final(self).dfs.stack_seq().len() as int),
            r matches Some(v) ==> final(self).dfs.stack_seq().len() < old(self).dfs.stack_seq().len()
                && old(self).dfs.stack_seq()[final(self).dfs.stack_seq().len() as int] == (v, true),
            r is None ==> final(self).dfs.stack_seq().len() == 0 || !old(self).dfs.visited_seq().contains(
                final(self).dfs.stack_seq().last().0,
            ),
            final(self).dfs.explore_seq() == old(self).dfs.explore_seq(),
            match r {
                Some(v) => final(self).dfs.exit_seq() == old(self).dfs.exit_seq().push(v),
                None => final(self).dfs.exit_seq() == old(self).dfs.exit_seq(),
            },
    {
        self.dfs.advance_next_exit()
    }

    /// Continues the traversal from `v` once the current traversal is
    /// finished, unless `v` has already been visited. Returns whether it will.
    pub fn continue_from(&mut self, v: usize) -> (r: bool)
        requires
            old(self).dfs.wf(),
            old(self).dfs.spec_graph().model().has_vertex(v),
        ensures
            final(self).dfs.wf(),
            final(self).dfs.spec_graph() == old(self).dfs.spec_graph(),
            final(self).dfs.visited_seq() == old(self).dfs.visited_seq(),
            r == !old(self).dfs.visited_seq().contains(v),
            r ==> final(self).dfs.roots() == old(self).dfs.roots().insert(v),
            !r ==> final(self).dfs.roots() == old(self).dfs.roots(),
            final(self).dfs.exit_seq() == old(self).dfs.exit_seq(),
            final(self).dfs.explore_seq() == old(self).dfs.explore_seq(),
    {
        self.dfs.continue_from(v)
    }

    /// Visits the next vertex and returns it, or returns `None` when every
    /// vertex reachable from where the traversal started has been visited.
    pub fn next(&mut self) -> (r: Option<usize>)
        requires
            old(self).dfs.wf(),
        ensures
            final(self).dfs.wf(),
            final(self).dfs.spec_graph() == old(self).dfs.spec_graph(),
            final(self).dfs.roots() == old(self).dfs.roots(),
            match r {
                Some(v) => {
                    &&& !old(self).dfs.visited_seq().contains(v)
                    &&& final(self).dfs.visited_seq() == old(self).dfs.visited_seq().push(v)
                    &&& reached_from(old(self).dfs.spec_graph(), old(self).dfs.roots(), v)
                },
                None => {
                    &&& final(self).dfs.visited_seq() == old(self).dfs.visited_seq()
                    &&& forall|x: usize|
                        #[trigger] reached_from(old(self).dfs.spec_graph(), old(self).dfs.roots(), x)
                            ==> old(self).dfs.visited_seq().contains(x)
                },
            },
            match r {
                Some(v) => exists|q: int|
                    {
                        &&& 0 <= q < old(self).dfs.stack_seq().len()
                        &&& old(self).dfs.stack_seq()[q].0 == v
                        &&& forall|i: int|
                            q < i < old(self).dfs.stack_seq().len() ==> old(self).dfs.visited_seq().contains(
                                (#[trigger] old(self).dfs.stack_seq()[i]).0,
                            )
                        &&& final(self).dfs.stack_seq().len() > q
                        &&& final(self).dfs.stack_seq().take(q + 1) == old(self).dfs.stack_seq().take(q + 1).update(
                            q,
                            (v, true),
                        )
                        &&& forall|i: int|
                            q < i < final(self).dfs.stack_seq().len() ==> !(#[trigger] final(self).dfs.stack_seq()[i]).1
                        &&& final(self).dfs.stack_seq() == old(self).dfs.stack_seq().take(q).push((v, true))
                            + unvisited_children(old(self).dfs.spec_graph().model().sourced(v), final(self).dfs.visited_seq())
                    },
                None => forall|i: int|
                    0 <= i < old(self).dfs.stack_seq().len() ==> old(self).dfs.visited_seq().contains(
                        (#[trigger] old(self).dfs.stack_seq()[i]).0,
                    ),
            },
            // When the top of the stack is not visited yet, it is visited next.
            old(self).dfs.stack_seq().len() == 0 || !old(self).dfs.visited_seq().contains(
                old(self).dfs.stack_seq().last().0,
            ) ==> match r {
                Some(v) => old(self).dfs.stack_seq().len() > 0 && v == old(self).dfs.stack_seq().last().0,
                None => old(self).dfs.stack_seq().len() == 0,
            },
            // The hooks called: see [`Dfs::next`].
            match r {
                Some(v) => {
                    &&& final(self).dfs.explore_seq() == old(self).dfs.explore_seq() + edge_triples(
                        v,
                        old(self).dfs.spec_graph().model().sourced(v),
                    )
                    &&& exists|q: int|
                        {
                            &&& 0 <= q < old(self).dfs.stack_seq().len()
                            &&& #[trigger] old(self).dfs.stack_seq()[q].0 == v
                            &&& forall|i: int|
                                q < i < old(self).dfs.stack_seq().len() ==> old(self).dfs.visited_seq().contains(
                                    (#[trigger] old(self).dfs.stack_seq()[i]).0,
                                )
                            &&& final(self).dfs.exit_seq() == old(self).dfs.exit_seq() + popped_exits(
                                old(self).dfs.stack_seq(),
                                q + 1,
                                old(self).dfs.stack_seq().len() as int,
                            )
                        }
                },
                None => {
                    &&& final(self).dfs.explore_seq() == old(self).dfs.explore_seq()
                    &&& final(self).dfs.exit_seq() == old(self).dfs.exit_seq() + popped_exits(
                        old(self).dfs.stack_seq(),
                        0,
                        old(self).dfs.stack_seq().len() as int,
                    )
                },
            },
    {
        self.dfs.next()
    }
}

/// Initializes a new search of `graph` from `start` using an unspecified
/// algorithm. The search never returns `start` itself.
pub fn new_search<'a, G: Graph>(graph: &'a G, start: usize) -> (r: Dfs<'a, G>)
    requires
        graph.wf(),
        graph.model().has_vertex(start),
    ensures
        r.wf(),
        r.spec_graph() == graph,
        r.visited_seq() == seq![start],
        r.roots() == set![start],
{
    Dfs::new_simple(graph, start)
}

/// Initializes a new search of `graph` from `start` using an unspecified
/// algorithm, retaining the graph.
pub fn new_search_retained<'a, G: Graph>(graph: &'a G, start: usize) -> (r: Retained<&'a G, Dfs<'a, G>>)
    requires
        graph.wf(),
        graph.model().has_vertex(start),
    ensures
        r.algo.wf(),
        r.graph == graph,
        r.algo.spec_graph() == graph,
        r.algo.visited_seq() == seq![start],
        r.algo.roots() == set![start],
{
    Dfs::new_simple(graph, start).retain(graph)
}

/// Returns whether there is a path from `source` to a different vertex
/// `sink`, both in the graph. A vertex is never found from itself, since the
/// search never returns its starting vertex.
pub fn path_exists<G: Graph>(g: &G, source: usize, sink: usize) -> (r: bool)
    requires
        g.wf(),
    ensures
        r == (g.model().has_vertex(source) && g.model().has_vertex(sink) && source != sink
            && g.model().reachable(source, sink)),
{
    if !g.contains_vertex(source) {
        return false;
    }
    if !g.contains_vertex(sink) {
        return false;
    }
    let mut search = new_search(g, source);
    loop
        invariant
            g.wf(),
            search.wf(),
            search.spec_graph() == g,
            search.roots() == set![source],
            search.visited_seq()[0] == source,
            search.visited_seq().len() >= 1,
            !search.visited_seq().contains(sink) || sink == source,
            g.model().has_vertex(source),
            g.model().has_vertex(sink),
        decreases g.model().vertices.len() - search.visited_seq().len(),
    {
        proof {
            search.lemma_visited();
        }
        let ghost before = search.visited_seq();
        match search.next() {
            Some(v) => {
                proof {
                    search.lemma_visited();
                    assert(search.visited_seq()[0] == before[0]);
                }
                if v == sink {
                    proof {
                        assert(reached_from(g, set![source], v));
                        let rt = choose|rt: usize| set![source].contains(rt) && #[trigger] g.model().reachable(rt, v);
                        assert(rt == source);
                        if v == source {
                            assert(before.contains(source));
                        }
                    }
                    return true;
                }
                proof {
                    if search.visited_seq().contains(sink) && sink != source {
                        let k = choose|k: int| 0 <= k < search.visited_seq().len() && search.visited_seq()[k] == sink;
                        if k < before.len() {
                            assert(before[k] == sink);
                        }
                    }
                }
            },
            None => {
                proof {
                    if source != sink && g.model().reachable(source, sink) {
                        assert(set![source].contains(source));
                        assert(reached_from(g, set![source], sink));
                    }
                }
                return false;
            },
        }
    }
}

/// A search algorithm that does not retain the searched graph: each step
/// is given the graph and returns the next vertex found.
pub trait Search<G: Graph>: UnretainedIterator<G, Item = usize> + Sized {
}

impl<G: Graph, T: UnretainedIterator<G, Item = usize>> Search<G> for T {
}

} // verus!
