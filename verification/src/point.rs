//! Points of a space.

use vstd::prelude::*;

verus! {

/// A point of some space; a space has an origin, the default point.
pub trait Point: Default {

}

} // verus!
