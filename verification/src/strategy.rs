//! Execution strategies: compile-time tags that a traversal handle carries.

use vstd::prelude::*;

verus! {

/// The traversal recurses directly, in a single control flow.
pub struct Synchronous;

/// The traversal issues the recursion into the children of a node as units
/// that are scheduled independently and joined in child order.
pub struct Asynchronous;

} // verus!
