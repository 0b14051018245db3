//! An n-ary tree and a traversal engine over it.

pub mod fan_out;
pub mod iterator;
pub mod laws;
pub mod node;
pub mod order;
pub mod point;
pub mod rect;
pub mod relation;
pub mod strategy;
pub mod sync;
pub mod traverse;
pub mod traverse_mut;
pub mod traverse_owned;
pub mod visit;
pub mod with_order;

pub use iterator::PreorderIter;
pub use node::{Node, Tree};
pub use order::{schedule, Order, OrderFlow, Policy, Postorder, Preorder};
pub use point::Point;
pub use rect::Rect;
pub use strategy::{Asynchronous, Synchronous};
pub use traverse::{InPost, InPre, PrePost, Traverse};
pub use traverse_mut::{InPostMut, InPreMut, PrePostMut, TraverseMut};
pub use with_order::{WithOrder, WithOrderOwned};
pub use traverse_owned::{InPostOwned, InPreOwned, PrePostOwned, TraverseOwned};
