//! Retaining the graph an algorithm runs on.
use crate::deref_graph::GraphDeref;
use vstd::prelude::*;

verus! {

/// Turns an unretained graph algorithm into a retained one: it keeps the
/// graph the algorithm runs on together with the algorithm's state.
///
/// To retain an algorithm, use [`Retainable::retain`] and provide the graph.
/// The graph may be released at any time by destructuring.
pub struct Retained<G, A> {
    /// The underlying algorithm state.
    pub algo: A,
    /// The retained graph.
    pub graph: G,
}

impl<GD: GraphDeref, A: UnretainedIterator<GD::Graph>> Retained<GD, A> {
    /// Takes the next step of the retained algorithm on the retained graph,
    /// returning what the step returns.
    pub fn next(&mut self) -> (r: Option<A::Item>)
        requires
            old(self).algo.fits(old(self).graph.deref_spec()),
        ensures
            final(self).graph == old(self).graph,
            final(self).algo.fits(final(self).graph.deref_spec()),
            old(self).algo.step(old(self).graph.deref_spec(), r, &final(self).algo),
    {
        self.algo.next(self.graph.graph())
    }
}

/// Allows all algorithms to be retained.
pub trait Retainable: Sized {
    /// Retains the given graph for the algorithm.
    fn retain<GD>(self, graph: GD) -> (r: Retained<GD, Self>)
        ensures
            r.algo == self,
            r.graph == graph,
    {
        Retained { algo: self, graph }
    }
}

impl<T> Retainable for T {
}

/// Algorithms that iterate over a graph without retaining it: each step is
/// given the graph.
pub trait UnretainedIterator<G> {
    type Item;

    /// Whether the state of the algorithm fits the graph `g`, so that a step
    /// can be taken on it.
    spec fn fits(&self, g: &G) -> bool;

    /// Whether one step of the algorithm on `g`, from this state, may return
    /// `r` and leave the state `next`.
    spec fn step(&self, g: &G, r: Option<Self::Item>, next: &Self) -> bool;

    /// Takes the next step of the algorithm on `g`.
    fn next(&mut self, g: &G) -> (r: Option<Self::Item>)
        requires
            old(self).fits(g),
        ensures
            final(self).fits(g),
            old(self).step(g, r, &*final(self)),
    ;
}

} // verus!
