//! The traversals as methods of the node itself, and the ways from a node to
//! its traversal handles.

use crate::node::{Node, Tree};
use crate::order::{Order, Postorder, Preorder};
use crate::strategy::Synchronous;
use crate::traverse::{cascaded, for_each_immersion, reduced, Traverse};
use crate::traverse_mut::{for_each_mut_immersion, TraverseMut};
use crate::traverse_owned::TraverseOwned;
use vstd::prelude::*;

verus! {

impl<T> Node<T> {
    /// A sequential handle that borrows `self` for reading.
    pub fn traverse<'a>(&'a self) -> (handle: Traverse<'a, T, Synchronous>)
        ensures
            handle.node == self,
    {
        Traverse::new(self)
    }

    /// A sequential handle that borrows `self` for change.
    pub fn traverse_mut<'a>(&'a mut self) -> (handle: TraverseMut<'a, T, Synchronous>)
        ensures
            *handle.node == *old(self),
            *final(self) == *final(handle.node),
    {
        TraverseMut::new(self)
    }

    /// A sequential handle that owns `self`.
    pub fn into_traverse(self) -> (handle: TraverseOwned<T, Synchronous>)
        ensures
            handle.node == self,
    {
        TraverseOwned::new(self)
    }

    /// Calls `f` on every node of the tree, each before its children.
    pub fn preorder<F>(&self, f: F) where F: FnMut(&Self)
        requires
            forall|node: Node<T>| self.has(node) ==> call_requires(f, (&node,)),
        ensures
            forall|k: int|
                0 <= k < self.visits::<Preorder>().len() ==> call_ensures(
                    f,
                    (&#[trigger] self.visits::<Preorder>()[k],),
                    (),
                ),
    {
        let mut f = f;
        for_each_immersion::<Preorder, T, F>(self, &mut f);
    }

    /// Calls `f` on every node of the tree, each after its children.
    pub fn postorder<F>(&self, f: F) where F: FnMut(&Self)
        requires
            forall|node: Node<T>| self.has(node) ==> call_requires(f, (&node,)),
        ensures
            forall|k: int|
                0 <= k < self.visits::<Postorder>().len() ==> call_ensures(
                    f,
                    (&#[trigger] self.visits::<Postorder>()[k],),
                    (),
                ),
    {
        let mut f = f;
        for_each_immersion::<Postorder, T, F>(self, &mut f);
    }

    /// Calls `f` on every node of the tree, each before its children; `f`
    /// may change the value of the node.
    pub fn preorder_mut<F>(&mut self, f: F) where F: FnMut(&mut Self)
        requires
            forall|node: &mut Node<T>| call_requires(f, (node,)),
            forall|node: &mut Node<T>| #[trigger]
                call_ensures(f, (node,), ()) ==> final(node).children@ == node.children@,
        ensures
            final(self)@.same_shape(old(self)@),
            forall|value: spec_fn(Tree<T>) -> T|
                #![trigger old(self)@.visited::<Preorder>(value)]
                (forall|node: &mut Node<T>| #[trigger]
                    call_ensures(f, (node,), ()) ==> final(node).value == value(node@))
                    ==> final(self)@ == old(self)@.visited::<Preorder>(value),
    {
        let mut f = f;
        for_each_mut_immersion::<Preorder, T, F>(self, &mut f);
    }

    /// Calls `f` on every node of the tree, each after its children; `f` may
    /// change the value of the node.
    pub fn postorder_mut<F>(&mut self, f: F) where F: FnMut(&mut Self)
        requires
            forall|node: &mut Node<T>| call_requires(f, (node,)),
            forall|node: &mut Node<T>| #[trigger]
                call_ensures(f, (node,), ()) ==> final(node).children@ == node.children@,
        ensures
            final(self)@.same_shape(old(self)@),
            forall|value: spec_fn(Tree<T>) -> T|
                #![trigger old(self)@.visited::<Postorder>(value)]
                (forall|node: &mut Node<T>| #[trigger]
                    call_ensures(f, (node,), ()) ==> final(node).value == value(node@))
                    ==> final(self)@ == old(self)@.visited::<Postorder>(value),
    {
        let mut f = f;
        for_each_mut_immersion::<Postorder, T, F>(self, &mut f);
    }

    /// Folds the tree into one value: `f` is called on each node after its
    /// children, with their results in child order.
    pub fn reduce<F, R>(&self, f: F) -> (result: R) where F: FnMut(&Self, Vec<R>) -> R
        requires
            forall|node: Node<T>, results: Vec<R>|
                self.has(node) ==> call_requires(f, (&node, results)),
        ensures
            reduced(f, *self, result),
    {
        let mut f = f;
        crate::traverse::reduce_immersion(self, &mut f)
    }

    /// Folds the tree into one value: `f` is called on each node after its
    /// children, with their results in child order; `f` may change the value
    /// of the node.
    pub fn reduce_mut<F, R>(&mut self, f: F) -> (result: R) where F: FnMut(&mut Self, Vec<R>) -> R
        requires
            forall|node: &mut Node<T>, results: Vec<R>| call_requires(f, (node, results)),
            forall|node: &mut Node<T>, results: Vec<R>, out: R| #[trigger]
                call_ensures(f, (node, results), out) ==> final(node).children@
                    == node.children@,
        ensures
            final(self)@.same_shape(old(self)@),
            forall|value: spec_fn(Tree<T>, Seq<R>) -> T, folding: spec_fn(Tree<T>, Seq<R>) -> R|
                #![trigger old(self)@.folded(value, folding)]
                (forall|node: &mut Node<T>, results: Vec<R>, out: R| #[trigger]
                    call_ensures(f, (node, results), out) ==> final(node).value == value(
                        node@,
                        results@,
                    ) && out == folding(node@, results@)) ==> (final(self)@, result) == old(
                    self,
                )@.folded(value, folding),
    {
        let mut f = f;
        self.reduce_mut_immersion(&mut f)
    }

    /// As `reduce_mut`, with a visitor that the caller keeps.
    pub fn reduce_mut_immersion<F, R>(&mut self, f: &mut F) -> (result: R) where
        F: FnMut(&mut Self, Vec<R>) -> R,

        requires
            forall|node: &mut Node<T>, results: Vec<R>| call_requires(*old(f), (node, results)),
            forall|node: &mut Node<T>, results: Vec<R>, out: R| #[trigger]
                call_ensures(*old(f), (node, results), out) ==> final(node).children@
                    == node.children@,
        ensures
            *final(f) == *old(f),
            final(self)@.same_shape(old(self)@),
            forall|value: spec_fn(Tree<T>, Seq<R>) -> T, folding: spec_fn(Tree<T>, Seq<R>) -> R|
                #![trigger old(self)@.folded(value, folding)]
                (forall|node: &mut Node<T>, results: Vec<R>, out: R| #[trigger]
                    call_ensures(*old(f), (node, results), out) ==> final(node).value == value(
                        node@,
                        results@,
                    ) && out == folding(node@, results@)) ==> (final(self)@, result) == old(
                    self,
                )@.folded(value, folding),
    {
        crate::traverse_mut::reduce_mut_immersion(self, f)
    }

    /// Runs `f` down the tree: `f` is called on each node before its
    /// children, with what it returned for the parent of the node, and with
    /// `base` on the root.
    pub fn cascade<F, R>(&self, base: R, f: F) where F: FnMut(&Self, &R) -> R
        requires
            forall|node: Node<T>, handed: &R| self.has(node) ==> call_requires(f, (&node, handed)),
        ensures
            cascaded(f, *self, base),
    {
        let mut f = f;
        self.cascade_immersion(&base, &mut f);
    }

    /// As `cascade`, with a base and a visitor that the caller keeps.
    pub fn cascade_immersion<F, R>(&self, base: &R, f: &mut F) where F: FnMut(&Self, &R) -> R
        requires
            forall|node: Node<T>, handed: &R|
                self.has(node) ==> call_requires(*old(f), (&node, handed)),
        ensures
            *final(f) == *old(f),
            cascaded(*old(f), *self, *base),
    {
        crate::traverse::cascade_immersion(self, base, f);
    }

    /// Runs `f` down the tree: `f` is called on each node before its
    /// children, with what it returned for the parent of the node, and with
    /// `base` on the root; `f` may change the value of the node.
    pub fn cascade_mut<F, R>(&mut self, base: R, f: F) where F: FnMut(&mut Self, &R) -> R
        requires
            forall|node: &mut Node<T>, handed: &R| call_requires(f, (node, handed)),
            forall|node: &mut Node<T>, handed: &R, out: R| #[trigger]
                call_ensures(f, (node, handed), out) ==> final(node).children@ == node.children@,
        ensures
            final(self)@.same_shape(old(self)@),
            forall|value: spec_fn(Tree<T>, R) -> T, down: spec_fn(Tree<T>, R) -> R|
                #![trigger old(self)@.cascaded(base, value, down)]
                (forall|node: &mut Node<T>, handed: &R, out: R| #[trigger]
                    call_ensures(f, (node, handed), out) ==> final(node).value == value(
                        node@,
                        *handed,
                    ) && out == down(node@, *handed)) ==> final(self)@ == old(self)@.cascaded(
                    base,
                    value,
                    down,
                ),
    {
        let mut f = f;
        crate::traverse_mut::cascade_mut_immersion(self, &base, &mut f);
    }
}

} // verus!
