//! Whether a graph is directed or not, as a type.
use vstd::prelude::*;

verus! {

/// Defines whether something is directed or not.
///
/// The marker types [`Directed`] and [`Undirected`] should be used when
/// bounding types.
pub trait Directedness: Sized {
    /// Whether the implementing type stands for directedness.
    spec fn is_directed() -> bool;

    /// Returns whether this type is directed or not.
    fn directed() -> (r: bool)
        ensures
            r == Self::is_directed(),
    ;
}

/// Marker type for something that is directed.
#[derive(Clone, Copy, Debug, PartialEq, Eq, PartialOrd, Ord)]
pub struct Directed();

impl Directedness for Directed {
    open spec fn is_directed() -> bool {
        true
    }

    fn directed() -> (r: bool) {
        true
    }
}

/// Marker type for something that is not directed.
#[derive(Clone, Copy, Debug, PartialEq, Eq, PartialOrd, Ord)]
pub struct Undirected();

impl Directedness for Undirected {
    open spec fn is_directed() -> bool {
        false
    }

    fn directed() -> (r: bool) {
        false
    }
}

} // verus!
