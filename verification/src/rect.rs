//! The rectangle that two points span.

use crate::point::Point;
use vstd::prelude::*;

verus! {

/// A rectangle, given by two opposite corners.
pub struct Rect<P: Point>(pub [P; 2]);

impl<P: Point> Rect<P> {
    /// The rectangle with the opposite corners `a` and `b`.
    pub fn new(a: P, b: P) -> (rect: Self)
        ensures
            rect.0@ == seq![a, b],
    {
        let rect = Rect([a, b]);
        proof {
            assert(rect.0@ =~= seq![a, b]);
        }
        rect
    }
}

impl<P: Point> Default for Rect<P> {
    /// The rectangle whose corners are both an origin.
    fn default() -> (rect: Self)
        ensures
            call_ensures(P::default, (), rect.0@[0]),
            call_ensures(P::default, (), rect.0@[1]),
    {
        Rect([P::default(), P::default()])
    }
}

} // verus!
