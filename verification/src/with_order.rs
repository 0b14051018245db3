//! Traversal of a borrowed tree under an order policy that the caller picks.

use crate::node::Node;
use crate::order::Order;
use crate::relation::lemma_built_up_shape;
use crate::strategy::Synchronous;
use crate::traverse::{for_each_immersion, map_in_order_immersion, mapped_in_order, Traverse};
use core::marker::PhantomData;
use vstd::prelude::*;

verus! {

/// A handle on a tree that is borrowed for reading, to be walked under the
/// policy `O`.
pub struct WithOrder<'a, O, T, S> where O: Order {
    pub node: &'a Node<T>,
    pub order: PhantomData<O>,
    pub strategy: PhantomData<S>,
}

/// A handle on a tree that it owns and that was built under the policy `O`.
pub struct WithOrderOwned<O, T, S> where O: Order {
    pub node: Node<T>,
    pub order: PhantomData<O>,
    pub strategy: PhantomData<S>,
}

impl<'a, O, T, S> From<Traverse<'a, T, S>> for WithOrder<'a, O, T, S> where O: Order {
    fn from(traverse: Traverse<'a, T, S>) -> (handle: Self) {
        WithOrder { node: traverse.node, order: PhantomData, strategy: PhantomData }
    }
}

impl<'a, O, T, S> vstd::std_specs::convert::FromSpecImpl<Traverse<'a, T, S>> for WithOrder<'a, O, T, S> where O: Order {
    open spec fn obeys_from_spec() -> bool {
        true
    }

    open spec fn from_spec(traverse: Traverse<'a, T, S>) -> Self {
        WithOrder { node: traverse.node, order: PhantomData, strategy: PhantomData }
    }
}

impl<'a, O, T, S> WithOrder<'a, O, T, S> where O: Order {
    /// The tree that the handle is bound to.
    pub fn node(&self) -> (node: &Node<T>)
        ensures
            node == self.node,
    {
        self.node
    }
}

impl<'a, O, T> WithOrder<'a, O, T, Synchronous> where O: Order {
    /// Calls `f` on every node of the tree, in the order of the policy `O`,
    /// and gives the handle back.
    pub fn for_each<F>(self, f: F) -> (handle: Self) where F: FnMut(&Node<T>)
        requires
            forall|node: Node<T>| self.node.has(node) ==> call_requires(f, (&node,)),
        ensures
            handle == self,
            forall|k: int|
                0 <= k < self.node.visits::<O>().len() ==> call_ensures(
                    f,
                    (&#[trigger] self.node.visits::<O>()[k],),
                    (),
                ),
    {
        let mut f = f;
        for_each_immersion::<O, T, F>(self.node, &mut f);
        self
    }

    /// Builds a tree of the same shape under the policy `O`: `f` is called on
    /// each node when the policy evaluates it, with the children of the new
    /// node that have been built by then.
    pub fn map<F, R>(self, f: F) -> (out: WithOrderOwned<O, R, Synchronous>) where
        F: FnMut(&Node<T>, &[Node<R>]) -> R,

        requires
            forall|node: Node<T>, built: &[Node<R>]|
                self.node.has(node) ==> call_requires(f, (&node, built)),
        ensures
            mapped_in_order::<O, T, R, F>(f, *self.node, out.node),
            out.node@.same_shape(self.node@),
    {
        let mut f = f;
        let out = map_in_order_immersion::<O, T, R, F>(self.node, &mut f);
        proof {
            lemma_built_up_shape(
                *self.node,
                out,
                |count: nat| O::position(count),
                |node: Node<T>, built: Seq<Node<R>>, value: R|
                    exists|seen: &[Node<R>]|
                        seen@ == built && #[trigger] call_ensures(f, (&node, seen), value),
            );
        }
        WithOrderOwned::new(out)
    }
}

impl<O, T, S> WithOrderOwned<O, T, S> where O: Order {
    /// A handle that owns `node`.
    pub fn new(node: Node<T>) -> (handle: Self)
        ensures
            handle.node == node,
    {
        WithOrderOwned { node, order: PhantomData, strategy: PhantomData }
    }

    /// The tree that the handle owns.
    pub fn node(&self) -> (node: &Node<T>)
        ensures
            *node == self.node,
    {
        &self.node
    }

    /// The tree that the handle owns, open to change.
    pub fn node_mut(&mut self) -> (node: &mut Node<T>)
        ensures
            *node == old(self).node,
            final(self).node == *final(node),
    {
        &mut self.node
    }

    /// Gives the tree back and ends the chain.
    pub fn take(self) -> (node: Node<T>)
        ensures
            node == self.node,
    {
        self.node
    }
}

} // verus!
