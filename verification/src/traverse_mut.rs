//! Traversal of a tree through an exclusive reference: the visitor may change
//! the value of each node, and the change is there once the call returns.
//!
//! A visitor is handed the node itself, and is required to leave its child
//! list as it is. What a traversal leaves is stated for every description of
//! the visitor by mathematical functions: where the visitor does at each node
//! what the functions say, the tree is left as the functions build it.

use crate::node::{Node, Tree};
use crate::order::{entered, ordered, schedule, Order, OrderFlow, Postorder, Preorder};
use crate::strategy::{Asynchronous, Synchronous};
use crate::traverse_owned::TraverseOwned;
use core::marker::PhantomData;
use vstd::prelude::*;

verus! {

impl<T> Tree<T> {
    /// The trees of the children of `self` after a traversal under the
    /// policy `O` in which the visitor gives each node the value `value` of
    /// the tree that it finds there.
    pub open spec fn visited_below<O: Order>(self, value: spec_fn(Tree<T>) -> T) -> Seq<Tree<T>>
        decreases self, 0nat,
    {
        Seq::new(
            self.children.len(),
            |i: int|
                if 0 <= i < self.children.len() {
                    self.children[i].visited::<O>(value)
                } else {
                    arbitrary()
                },
        )
    }

    /// What the visitor finds at `self` in such a traversal: the children
    /// before the position of the node have been visited, the others not.
    pub open spec fn found<O: Order>(self, value: spec_fn(Tree<T>) -> T) -> Tree<T>
        decreases self, 1nat,
    {
        let position = O::position(self.children.len()) as int;
        Tree {
            value: self.value,
            children: self.visited_below::<O>(value).take(position) + self.children.skip(position),
        }
    }

    /// The tree that such a traversal leaves.
    pub open spec fn visited<O: Order>(self, value: spec_fn(Tree<T>) -> T) -> Tree<T>
        decreases self, 2nat,
    {
        Tree { value: value(self.found::<O>(value)), children: self.visited_below::<O>(value) }
    }

    /// Under `Preorder` the visitor finds each node as it was.
    pub proof fn lemma_found_first(self, value: spec_fn(Tree<T>) -> T)
        ensures
            self.found::<Preorder>(value) == self,
    {
        assert(self.found::<Preorder>(value).children =~= self.children);
    }

    /// Under `Postorder` the visitor finds each node with its old value and
    /// all its children visited.
    pub proof fn lemma_found_last(self, value: spec_fn(Tree<T>) -> T)
        ensures
            self.found::<Postorder>(value) == (Tree {
                value: self.value,
                children: self.visited_below::<Postorder>(value),
            }),
    {
        assert(self.found::<Postorder>(value).children =~= self.visited_below::<Postorder>(value));
    }

    /// The tree whose values are `result` of the subtrees of `self`.
    pub open spec fn mapped<R>(self, result: spec_fn(Tree<T>) -> R) -> Tree<R>
        decreases self,
    {
        Tree {
            value: result(self),
            children: Seq::new(
                self.children.len(),
                |i: int|
                    if 0 <= i < self.children.len() {
                        self.children[i].mapped(result)
                    } else {
                        arbitrary()
                    },
            ),
        }
    }

    /// The tree that a pass from the root down builds: the value of each
    /// node is `result` of the subtree of `self` at its place and of the new
    /// value of its parent, `base` for the root.
    pub open spec fn mapped_down<R>(self, base: R, result: spec_fn(Tree<T>, R) -> R) -> Tree<R>
        decreases self,
    {
        Tree {
            value: result(self, base),
            children: Seq::new(
                self.children.len(),
                |i: int|
                    if 0 <= i < self.children.len() {
                        self.children[i].mapped_down(result(self, base), result)
                    } else {
                        arbitrary()
                    },
            ),
        }
    }

    /// The tree that a pass from the root down leaves: the visitor gives each
    /// node the value `value` of the tree that it finds there and of what it
    /// is handed, and hands `down` of the two to the children of the node;
    /// the root is handed `base`.
    pub open spec fn cascaded<R>(
        self,
        base: R,
        value: spec_fn(Tree<T>, R) -> T,
        down: spec_fn(Tree<T>, R) -> R,
    ) -> Tree<T>
        decreases self,
    {
        Tree {
            value: value(self, base),
            children: Seq::new(
                self.children.len(),
                |i: int|
                    if 0 <= i < self.children.len() {
                        self.children[i].cascaded(down(self, base), value, down)
                    } else {
                        arbitrary()
                    },
            ),
        }
    }

    /// For each child of `self`, the tree that a fold leaves of it and its
    /// result.
    pub open spec fn folded_below<R>(
        self,
        value: spec_fn(Tree<T>, Seq<R>) -> T,
        result: spec_fn(Tree<T>, Seq<R>) -> R,
    ) -> Seq<(Tree<T>, R)>
        decreases self, 0nat,
    {
        Seq::new(
            self.children.len(),
            |i: int|
                if 0 <= i < self.children.len() {
                    self.children[i].folded(value, result)
                } else {
                    arbitrary()
                },
        )
    }

    /// The tree that a fold from the leaves up leaves, and its result: the
    /// visitor gives each node the value `value` of the tree that it finds
    /// there and of the results of the children of the node, and returns
    /// `result` of the two.
    pub open spec fn folded<R>(
        self,
        value: spec_fn(Tree<T>, Seq<R>) -> T,
        result: spec_fn(Tree<T>, Seq<R>) -> R,
    ) -> (Tree<T>, R)
        decreases self, 1nat,
    {
        let below = self.folded_below(value, result);
        let children = Seq::new(below.len(), |i: int| below[i].0);
        let results = Seq::new(below.len(), |i: int| below[i].1);
        let found = Tree { value: self.value, children };
        (Tree { value: value(found, results), children }, result(found, results))
    }

    /// For each child of `self`, the tree that a rebuild leaves of it and the
    /// tree that it builds.
    pub open spec fn rebuilt_below<R>(
        self,
        value: spec_fn(Tree<T>, Seq<Tree<R>>) -> T,
        result: spec_fn(Tree<T>, Seq<Tree<R>>) -> R,
    ) -> Seq<(Tree<T>, Tree<R>)>
        decreases self, 0nat,
    {
        Seq::new(
            self.children.len(),
            |i: int|
                if 0 <= i < self.children.len() {
                    self.children[i].rebuilt(value, result)
                } else {
                    arbitrary()
                },
        )
    }

    /// The tree that a rebuild from the leaves up leaves, and the tree that
    /// it builds: the visitor gives each node the value `value` of the tree
    /// that it finds there and of the new trees of the children of the node,
    /// and the new node gets `result` of the two.
    pub open spec fn rebuilt<R>(
        self,
        value: spec_fn(Tree<T>, Seq<Tree<R>>) -> T,
        result: spec_fn(Tree<T>, Seq<Tree<R>>) -> R,
    ) -> (Tree<T>, Tree<R>)
        decreases self, 1nat,
    {
        let below = self.rebuilt_below(value, result);
        let children = Seq::new(below.len(), |i: int| below[i].0);
        let built = Seq::new(below.len(), |i: int| below[i].1);
        let found = Tree { value: self.value, children };
        (
            Tree { value: value(found, built), children },
            Tree { value: result(found, built), children: built },
        )
    }

    /// For each child of `self`, the tree that a fold both ways leaves of it
    /// and its result, where the child is handed `next`.
    pub open spec fn folded_both_below<R, U>(
        self,
        next: R,
        entering: spec_fn(Tree<T>, R) -> T,
        down: spec_fn(Tree<T>, R) -> R,
        leaving: spec_fn(Tree<T>, R, Seq<U>) -> T,
        folding: spec_fn(Tree<T>, R, Seq<U>) -> U,
    ) -> Seq<(Tree<T>, U)>
        decreases self, 0nat,
    {
        Seq::new(
            self.children.len(),
            |i: int|
                if 0 <= i < self.children.len() {
                    self.children[i].folded_both(next, entering, down, leaving, folding)
                } else {
                    arbitrary()
                },
        )
    }

    /// The tree that a fold both ways leaves, and its result. On the way
    /// down the first visitor gives each node the value `entering` of the
    /// tree that it finds there and of what it is handed, and hands `down`
    /// of the two on; the root is handed `base`. On the way up the second
    /// visitor gives each node the value `leaving` of the tree that it finds
    /// there, of what the first handed on, and of the results of the
    /// children, and returns `folding` of the three.
    pub open spec fn folded_both<R, U>(
        self,
        base: R,
        entering: spec_fn(Tree<T>, R) -> T,
        down: spec_fn(Tree<T>, R) -> R,
        leaving: spec_fn(Tree<T>, R, Seq<U>) -> T,
        folding: spec_fn(Tree<T>, R, Seq<U>) -> U,
    ) -> (Tree<T>, U)
        decreases self, 1nat,
    {
        let next = down(self, base);
        let below = self.folded_both_below(next, entering, down, leaving, folding);
        let children = Seq::new(below.len(), |i: int| below[i].0);
        let results = Seq::new(below.len(), |i: int| below[i].1);
        let found = Tree { value: entering(self, base), children };
        (Tree { value: leaving(found, next, results), children }, folding(found, next, results))
    }

    /// For each child of `self`, the tree that a rebuild both ways leaves of
    /// it and the tree that it builds, where the child is handed `next`.
    pub open spec fn rebuilt_both_below<R, U>(
        self,
        next: R,
        entering: spec_fn(Tree<T>, R) -> T,
        down: spec_fn(Tree<T>, R) -> R,
        leaving: spec_fn(Tree<T>, R, Seq<Tree<U>>) -> T,
        building: spec_fn(Tree<T>, R, Seq<Tree<U>>) -> U,
    ) -> Seq<(Tree<T>, Tree<U>)>
        decreases self, 0nat,
    {
        Seq::new(
            self.children.len(),
            |i: int|
                if 0 <= i < self.children.len() {
                    self.children[i].rebuilt_both(next, entering, down, leaving, building)
                } else {
                    arbitrary()
                },
        )
    }

    /// The tree that a rebuild both ways leaves, and the tree that it
    /// builds. The way down is that of `folded_both`. On the way up the
    /// second visitor gives each node the value `leaving` of the tree that
    /// it finds there, of what the first handed on, and of the new trees of
    /// the children, and the new node gets `building` of the three.
    pub open spec fn rebuilt_both<R, U>(
        self,
        base: R,
        entering: spec_fn(Tree<T>, R) -> T,
        down: spec_fn(Tree<T>, R) -> R,
        leaving: spec_fn(Tree<T>, R, Seq<Tree<U>>) -> T,
        building: spec_fn(Tree<T>, R, Seq<Tree<U>>) -> U,
    ) -> (Tree<T>, Tree<U>)
        decreases self, 1nat,
    {
        let next = down(self, base);
        let below = self.rebuilt_both_below(next, entering, down, leaving, building);
        let children = Seq::new(below.len(), |i: int| below[i].0);
        let built = Seq::new(below.len(), |i: int| below[i].1);
        let found = Tree { value: entering(self, base), children };
        (
            Tree { value: leaving(found, next, built), children },
            Tree { value: building(found, next, built), children: built },
        )
    }
}

/// A handle on a tree that is borrowed for change.
pub struct TraverseMut<'a, T, S> {
    pub node: &'a mut Node<T>,
    pub strategy: PhantomData<S>,
}


/// A tree borrowed for change, to be walked from each node to its children.
pub struct InPreMut<'a, T, S> {
    pub node: &'a mut Node<T>,
    pub strategy: PhantomData<S>,
}

/// A tree borrowed for change, to be walked from the children of each node
/// to the node.
pub struct InPostMut<'a, T, S> {
    pub node: &'a mut Node<T>,
    pub strategy: PhantomData<S>,
}

/// A tree borrowed for change, to be walked both ways at once, with the
/// closure that is run on the way down.
pub struct PrePostMut<'a, T, R, F, S> {
    pub node: &'a mut Node<T>,
    pub pre: F,
    pub r: PhantomData<R>,
    pub strategy: PhantomData<S>,
}

impl<'a, T, S> From<&'a mut Node<T>> for TraverseMut<'a, T, S> {
    fn from(node: &'a mut Node<T>) -> (handle: Self)
        ensures
            *handle.node == *old(node),
            *final(node) == *final(handle.node),
    {
        TraverseMut { node, strategy: PhantomData }
    }
}

impl<'a, T, S> vstd::std_specs::convert::FromSpecImpl<&'a mut Node<T>> for TraverseMut<'a, T, S> {
    open spec fn obeys_from_spec() -> bool {
        false
    }

    open spec fn from_spec(node: &'a mut Node<T>) -> Self {
        TraverseMut { node, strategy: PhantomData }
    }
}

impl<'a, T, S> TraverseMut<'a, T, S> {
    /// The tree that the handle is bound to.
    pub fn node(&self) -> (node: &Node<T>)
        ensures
            *node == *old(self.node),
    {
        &*self.node
    }

    /// The tree that the handle is bound to, open to change.
    pub fn node_mut(&mut self) -> (node: &mut Node<T>)
        ensures
            *node == *old(self).node,
            *final(self).node == *final(node),
            *final(final(self).node) == *final(old(self).node),
    {
        &mut *self.node
    }

    /// Chooses the walk from each node to its children.
    pub fn pre(self) -> (handle: InPreMut<'a, T, S>)
        ensures
            *handle.node == *old(self.node),
            *final(self.node) == *final(handle.node),
    {
        InPreMut { node: self.node, strategy: PhantomData }
    }

    /// Chooses the walk from the children of each node to the node.
    pub fn post(self) -> (handle: InPostMut<'a, T, S>)
        ensures
            *handle.node == *old(self.node),
            *final(self.node) == *final(handle.node),
    {
        InPostMut { node: self.node, strategy: PhantomData }
    }
}

impl<'a, T> TraverseMut<'a, T, Asynchronous> {
    /// Tags the handle for direct recursion; the tree is not copied.
    pub fn into_sync(self) -> (handle: TraverseMut<'a, T, Synchronous>)
        ensures
            *handle.node == *old(self.node),
            *final(self.node) == *final(handle.node),
    {
        TraverseMut { node: self.node, strategy: PhantomData }
    }
}

impl<'a, T> TraverseMut<'a, T, Synchronous> {
    /// A sequential handle on `node`.
    pub fn new(node: &'a mut Node<T>) -> (handle: Self)
        ensures
            *handle.node == *old(node),
            *final(node) == *final(handle.node),
    {
        TraverseMut { node, strategy: PhantomData }
    }

    /// Tags the handle for concurrent fan-out; the tree is not copied.
    pub fn into_async(self) -> (handle: TraverseMut<'a, T, Asynchronous>) where T: Sync + Send
        ensures
            *handle.node == *old(self.node),
            *final(self.node) == *final(handle.node),
    {
        TraverseMut { node: self.node, strategy: PhantomData }
    }

    /// Calls `f` on every node of the tree, each after its children, and
    /// gives the handle back.
    pub fn for_each<F>(self, f: F) -> (handle: Self) where F: FnMut(&mut Node<T>)
        requires
            forall|node: &mut Node<T>| call_requires(f, (node,)),
            forall|node: &mut Node<T>| #[trigger]
                call_ensures(f, (node,), ()) ==> final(node).children@ == node.children@,
        ensures
            *final(self.node) == *final(handle.node),
            handle.node@.same_shape(old(self.node)@),
            forall|value: spec_fn(Tree<T>) -> T|
                #![trigger old(self.node)@.visited::<Postorder>(value)]
                (forall|node: &mut Node<T>| #[trigger]
                    call_ensures(f, (node,), ()) ==> final(node).value == value(node@))
                    ==> handle.node@ == old(self.node)@.visited::<Postorder>(value),
    {
        let mut f = f;
        let handle = self;
        for_each_mut_immersion::<Postorder, T, F>(&mut *handle.node, &mut f);
        handle
    }

    /// Calls `f` on every node of the tree, each before its children.
    pub fn preorder<F>(&mut self, f: F) where F: FnMut(&mut Node<T>)
        requires
            forall|node: &mut Node<T>| call_requires(f, (node,)),
            forall|node: &mut Node<T>| #[trigger]
                call_ensures(f, (node,), ()) ==> final(node).children@ == node.children@,
        ensures
            *final(final(self).node) == *final(old(self).node),
            final(self).node@.same_shape(old(self).node@),
            forall|value: spec_fn(Tree<T>) -> T|
                #![trigger old(self).node@.visited::<Preorder>(value)]
                (forall|node: &mut Node<T>| #[trigger]
                    call_ensures(f, (node,), ()) ==> final(node).value == value(node@))
                    ==> final(self).node@ == old(self).node@.visited::<Preorder>(value),
    {
        let mut f = f;
        for_each_mut_immersion::<Preorder, T, F>(&mut *self.node, &mut f);
    }

    /// Calls `f` on every node of the tree, each after its children.
    pub fn postorder<F>(&mut self, f: F) where F: FnMut(&mut Node<T>)
        requires
            forall|node: &mut Node<T>| call_requires(f, (node,)),
            forall|node: &mut Node<T>| #[trigger]
                call_ensures(f, (node,), ()) ==> final(node).children@ == node.children@,
        ensures
            *final(final(self).node) == *final(old(self).node),
            final(self).node@.same_shape(old(self).node@),
            forall|value: spec_fn(Tree<T>) -> T|
                #![trigger old(self).node@.visited::<Postorder>(value)]
                (forall|node: &mut Node<T>| #[trigger]
                    call_ensures(f, (node,), ()) ==> final(node).value == value(node@))
                    ==> final(self).node@ == old(self).node@.visited::<Postorder>(value),
    {
        let mut f = f;
        for_each_mut_immersion::<Postorder, T, F>(&mut *self.node, &mut f);
    }

    /// Builds a tree of the same shape whose values are what `f` returns for
    /// the nodes of this one; `f` is called on each node before its children.
    pub fn map<F, R>(self, f: F) -> (out: TraverseOwned<R, Synchronous>) where
        F: FnMut(&mut Node<T>) -> R,

        requires
            forall|node: &mut Node<T>| call_requires(f, (node,)),
            forall|node: &mut Node<T>, out: R| #[trigger]
                call_ensures(f, (node,), out) ==> final(node).children@ == node.children@,
        ensures
            final(self.node)@.same_shape(old(self.node)@),
            out.node@.same_shape(old(self.node)@),
            forall|value: spec_fn(Tree<T>) -> T|
                #![trigger old(self.node)@.visited::<Preorder>(value)]
                (forall|node: &mut Node<T>, out: R| #[trigger]
                    call_ensures(f, (node,), out) ==> final(node).value == value(node@))
                    ==> final(self.node)@ == old(self.node)@.visited::<Preorder>(value),
            forall|result: spec_fn(Tree<T>) -> R|
                #![trigger old(self.node)@.mapped(result)]
                (forall|node: &mut Node<T>, out: R| #[trigger]
                    call_ensures(f, (node,), out) ==> out == result(node@)) ==> out.node@ == old(
                    self.node,
                )@.mapped(result),
    {
        let mut f = f;
        TraverseOwned::new(map_mut_immersion(self.node, &mut f))
    }

    /// Folds the tree into one value: `f` is called on each node after its
    /// children, with their results in child order.
    pub fn reduce<F, R>(self, f: F) -> (result: R) where F: FnMut(&mut Node<T>, Vec<R>) -> R
        requires
            forall|node: &mut Node<T>, results: Vec<R>| call_requires(f, (node, results)),
            forall|node: &mut Node<T>, results: Vec<R>, out: R| #[trigger]
                call_ensures(f, (node, results), out) ==> final(node).children@
                    == node.children@,
        ensures
            final(self.node)@.same_shape(old(self.node)@),
            forall|value: spec_fn(Tree<T>, Seq<R>) -> T, folding: spec_fn(Tree<T>, Seq<R>) -> R|
                #![trigger old(self.node)@.folded(value, folding)]
                (forall|node: &mut Node<T>, results: Vec<R>, out: R| #[trigger]
                    call_ensures(f, (node, results), out) ==> final(node).value == value(
                        node@,
                        results@,
                    ) && out == folding(node@, results@)) ==> (final(self.node)@, result) == old(
                    self.node,
                )@.folded(value, folding),
    {
        let mut f = f;
        reduce_mut_immersion(self.node, &mut f)
    }

    /// Runs `f` down the tree and gives the handle back: `f` is called on
    /// each node before its children, with what it returned for the parent
    /// of the node, and with `base` on the root.
    pub fn cascade<F, R>(self, base: R, f: F) -> (handle: Self) where
        F: FnMut(&mut Node<T>, &R) -> R,

        requires
            forall|node: &mut Node<T>, handed: &R| call_requires(f, (node, handed)),
            forall|node: &mut Node<T>, handed: &R, out: R| #[trigger]
                call_ensures(f, (node, handed), out) ==> final(node).children@ == node.children@,
        ensures
            *final(self.node) == *final(handle.node),
            handle.node@.same_shape(old(self.node)@),
            forall|value: spec_fn(Tree<T>, R) -> T, down: spec_fn(Tree<T>, R) -> R|
                #![trigger old(self.node)@.cascaded(base, value, down)]
                (forall|node: &mut Node<T>, handed: &R, out: R| #[trigger]
                    call_ensures(f, (node, handed), out) ==> final(node).value == value(
                        node@,
                        *handed,
                    ) && out == down(node@, *handed)) ==> handle.node@ == old(self.node)@.cascaded(
                    base,
                    value,
                    down,
                ),
    {
        let mut f = f;
        let handle = self;
        cascade_mut_immersion(&mut *handle.node, &base, &mut f);
        handle
    }
}

impl<'a, T> InPreMut<'a, T, Synchronous> {
    /// Builds a tree of the same shape: `pre` is called on each node before
    /// its children, with the new value of the parent of the node, and with
    /// `base` on the root.
    pub fn map<R, F>(self, base: R, pre: F) -> (out: Node<R>) where
        F: FnMut(&mut Node<T>, &R) -> R,

        requires
            forall|node: &mut Node<T>, handed: &R| call_requires(pre, (node, handed)),
            forall|node: &mut Node<T>, handed: &R, out: R| #[trigger]
                call_ensures(pre, (node, handed), out) ==> final(node).children@
                    == node.children@,
        ensures
            final(self.node)@.same_shape(old(self.node)@),
            out@.same_shape(old(self.node)@),
            forall|value: spec_fn(Tree<T>, R) -> T, result: spec_fn(Tree<T>, R) -> R|
                #![trigger old(self.node)@.cascaded(base, value, result)]
                (forall|node: &mut Node<T>, handed: &R, out: R| #[trigger]
                    call_ensures(pre, (node, handed), out) ==> final(node).value == value(
                        node@,
                        *handed,
                    ) && out == result(node@, *handed)) ==> final(self.node)@ == old(
                    self.node,
                )@.cascaded(base, value, result),
            forall|result: spec_fn(Tree<T>, R) -> R|
                #![trigger old(self.node)@.mapped_down(base, result)]
                (forall|node: &mut Node<T>, handed: &R, out: R| #[trigger]
                    call_ensures(pre, (node, handed), out) ==> out == result(node@, *handed))
                    ==> out@ == old(self.node)@.mapped_down(base, result),
    {
        let mut pre = pre;
        map_down_mut_immersion(self.node, &base, &mut pre)
    }

    /// Runs `f` down the tree and gives the handle back: `f` is called on
    /// each node before its children, with what it returned for the parent
    /// of the node, and with `base` on the root.
    pub fn cascade<F, R>(self, base: R, f: F) -> (handle: Self) where
        F: FnMut(&mut Node<T>, &R) -> R,

        requires
            forall|node: &mut Node<T>, handed: &R| call_requires(f, (node, handed)),
            forall|node: &mut Node<T>, handed: &R, out: R| #[trigger]
                call_ensures(f, (node, handed), out) ==> final(node).children@ == node.children@,
        ensures
            *final(self.node) == *final(handle.node),
            handle.node@.same_shape(old(self.node)@),
            forall|value: spec_fn(Tree<T>, R) -> T, down: spec_fn(Tree<T>, R) -> R|
                #![trigger old(self.node)@.cascaded(base, value, down)]
                (forall|node: &mut Node<T>, handed: &R, out: R| #[trigger]
                    call_ensures(f, (node, handed), out) ==> final(node).value == value(
                        node@,
                        *handed,
                    ) && out == down(node@, *handed)) ==> handle.node@ == old(self.node)@.cascaded(
                    base,
                    value,
                    down,
                ),
    {
        let mut f = f;
        let handle = self;
        cascade_mut_immersion(&mut *handle.node, &base, &mut f);
        handle
    }
}

impl<'a, T, S> InPostMut<'a, T, S> {
    /// Folds the tree into one value: `f` is called on each node after its
    /// children, with their results in child order.
    pub fn reduce<F, R>(self, f: F) -> (result: R) where F: FnMut(&mut Node<T>, Vec<R>) -> R
        requires
            forall|node: &mut Node<T>, results: Vec<R>| call_requires(f, (node, results)),
            forall|node: &mut Node<T>, results: Vec<R>, out: R| #[trigger]
                call_ensures(f, (node, results), out) ==> final(node).children@
                    == node.children@,
        ensures
            final(self.node)@.same_shape(old(self.node)@),
            forall|value: spec_fn(Tree<T>, Seq<R>) -> T, folding: spec_fn(Tree<T>, Seq<R>) -> R|
                #![trigger old(self.node)@.folded(value, folding)]
                (forall|node: &mut Node<T>, results: Vec<R>, out: R| #[trigger]
                    call_ensures(f, (node, results), out) ==> final(node).value == value(
                        node@,
                        results@,
                    ) && out == folding(node@, results@)) ==> (final(self.node)@, result) == old(
                    self.node,
                )@.folded(value, folding),
    {
        let mut f = f;
        reduce_mut_immersion(self.node, &mut f)
    }

    /// Builds a tree of the same shape: `post` is called on each node after
    /// its children, with the children of the new node.
    pub fn map<F, R>(self, post: F) -> (out: Node<R>) where
        F: FnMut(&mut Node<T>, &[Node<R>]) -> R,

        requires
            forall|node: &mut Node<T>, built: &[Node<R>]| call_requires(post, (node, built)),
            forall|node: &mut Node<T>, built: &[Node<R>], out: R| #[trigger]
                call_ensures(post, (node, built), out) ==> final(node).children@
                    == node.children@,
        ensures
            final(self.node)@.same_shape(old(self.node)@),
            out@.same_shape(old(self.node)@),
            forall|
                value: spec_fn(Tree<T>, Seq<Tree<R>>) -> T,
                result: spec_fn(Tree<T>, Seq<Tree<R>>) -> R,
            |
                #![trigger old(self.node)@.rebuilt(value, result)]
                (forall|node: &mut Node<T>, built: &[Node<R>], out: R| #[trigger]
                    call_ensures(post, (node, built), out) ==> final(node).value == value(
                        node@,
                        Node::forest(built@),
                    ) && out == result(node@, Node::forest(built@))) ==> (
                    final(self.node)@,
                    out@,
                ) == old(self.node)@.rebuilt(value, result),
    {
        let mut post = post;
        map_up_mut_immersion(self.node, &mut post)
    }

    /// Keeps `pre` to be run on each node before its children.
    pub fn with_pre<R, F>(self, pre: F) -> (handle: PrePostMut<'a, T, R, F, Synchronous>) where
        F: FnMut(&mut Node<T>, &R) -> R,

        ensures
            *handle.node == *old(self.node),
            *final(self.node) == *final(handle.node),
            handle.pre == pre,
    {
        PrePostMut { node: self.node, pre, r: PhantomData, strategy: PhantomData }
    }
}

impl<'a, T, R, F> PrePostMut<'a, T, R, F, Synchronous> where F: FnMut(&mut Node<T>, &R) -> R {
    /// Folds the tree into one value: the kept closure is called on each node
    /// before its children, with what it returned for the parent of the node
    /// and with `base` on the root; `post` is called on each node after its
    /// children, with what the kept closure returned for the node and the
    /// results of the children.
    pub fn reduce<U, P>(self, base: R, post: P) -> (result: U) where
        P: FnMut(&mut Node<T>, &R, Vec<U>) -> U,

        requires
            forall|node: &mut Node<T>, handed: &R| call_requires(self.pre, (node, handed)),
            forall|node: &mut Node<T>, handed: &R, results: Vec<U>|
                call_requires(post, (node, handed, results)),
            forall|node: &mut Node<T>, handed: &R, out: R| #[trigger]
                call_ensures(self.pre, (node, handed), out) ==> final(node).children@
                    == node.children@,
            forall|node: &mut Node<T>, handed: &R, results: Vec<U>, out: U| #[trigger]
                call_ensures(post, (node, handed, results), out) ==> final(node).children@
                    == node.children@,
        ensures
            final(self.node)@.same_shape(old(self.node)@),
            forall|
                entering: spec_fn(Tree<T>, R) -> T,
                down: spec_fn(Tree<T>, R) -> R,
                leaving: spec_fn(Tree<T>, R, Seq<U>) -> T,
                folding: spec_fn(Tree<T>, R, Seq<U>) -> U,
            |
                #![trigger old(self.node)@.folded_both(base, entering, down, leaving, folding)]
                (forall|node: &mut Node<T>, handed: &R, out: R| #[trigger]
                    call_ensures(self.pre, (node, handed), out) ==> final(node).value == entering(
                        node@,
                        *handed,
                    ) && out == down(node@, *handed)) && (forall|
                    node: &mut Node<T>,
                    handed: &R,
                    results: Vec<U>,
                    out: U,
                | #[trigger]
                    call_ensures(post, (node, handed, results), out) ==> final(node).value
                        == leaving(node@, *handed, results@) && out == folding(
                        node@,
                        *handed,
                        results@,
                    )) ==> (final(self.node)@, result) == old(self.node)@.folded_both(
                    base,
                    entering,
                    down,
                    leaving,
                    folding,
                ),
    {
        let mut pre = self.pre;
        let mut post = post;
        reduce_both_mut_immersion(self.node, &base, &mut pre, &mut post)
    }

    /// Builds a tree of the same shape: the kept closure is called on each
    /// node before its children, with what it returned for the parent of the
    /// node and with `base` on the root; `post` is called on each node after
    /// its children, with what the kept closure returned for the node and the
    /// children of the new node.
    pub fn map<U, P>(self, base: R, post: P) -> (out: Node<U>) where
        P: FnMut(&mut Node<T>, &R, &[Node<U>]) -> U,

        requires
            forall|node: &mut Node<T>, handed: &R| call_requires(self.pre, (node, handed)),
            forall|node: &mut Node<T>, handed: &R, built: &[Node<U>]|
                call_requires(post, (node, handed, built)),
            forall|node: &mut Node<T>, handed: &R, out: R| #[trigger]
                call_ensures(self.pre, (node, handed), out) ==> final(node).children@
                    == node.children@,
            forall|node: &mut Node<T>, handed: &R, built: &[Node<U>], out: U| #[trigger]
                call_ensures(post, (node, handed, built), out) ==> final(node).children@
                    == node.children@,
        ensures
            final(self.node)@.same_shape(old(self.node)@),
            out@.same_shape(old(self.node)@),
            forall|
                entering: spec_fn(Tree<T>, R) -> T,
                down: spec_fn(Tree<T>, R) -> R,
                leaving: spec_fn(Tree<T>, R, Seq<Tree<U>>) -> T,
                building: spec_fn(Tree<T>, R, Seq<Tree<U>>) -> U,
            |
                #![trigger old(self.node)@.rebuilt_both(base, entering, down, leaving, building)]
                (forall|node: &mut Node<T>, handed: &R, out: R| #[trigger]
                    call_ensures(self.pre, (node, handed), out) ==> final(node).value == entering(
                        node@,
                        *handed,
                    ) && out == down(node@, *handed)) && (forall|
                    node: &mut Node<T>,
                    handed: &R,
                    built: &[Node<U>],
                    out: U,
                | #[trigger]
                    call_ensures(post, (node, handed, built), out) ==> final(node).value
                        == leaving(node@, *handed, Node::forest(built@)) && out == building(
                        node@,
                        *handed,
                        Node::forest(built@),
                    )) ==> (final(self.node)@, out@) == old(self.node)@.rebuilt_both(
                    base,
                    entering,
                    down,
                    leaving,
                    building,
                ),
    {
        let mut pre = self.pre;
        let mut post = post;
        map_both_mut_immersion(self.node, &base, &mut pre, &mut post)
    }
}

/// Calls `f` on every node of the tree of `root`, in the order of the policy
/// `O`.
pub fn for_each_mut_immersion<O: Order, T, F>(root: &mut Node<T>, f: &mut F)
    where F: FnMut(&mut Node<T>)
    requires
        forall|node: &mut Node<T>| call_requires(*old(f), (node,)),
        forall|node: &mut Node<T>| #[trigger]
            call_ensures(*old(f), (node,), ()) ==> final(node).children@ == node.children@,
    ensures
        *final(f) == *old(f),
        final(root)@.same_shape(old(root)@),
        forall|value: spec_fn(Tree<T>) -> T|
            #![trigger old(root)@.visited::<O>(value)]
            (forall|node: &mut Node<T>| #[trigger]
                call_ensures(*old(f), (node,), ()) ==> final(node).value == value(node@))
                ==> final(root)@ == old(root)@.visited::<O>(value),
    decreases *old(root),
{
    let plan = schedule::<O, T>(root);
    let ghost count = root.children@.len();
    let ghost position = O::position(count);
    proof {
        assert(root.children.len() == count);
        O::lemma_lawful(count);
    }
    let mut step: usize = 0;
    while step < plan.len()
        invariant
            count == old(root).children@.len(),
            count == root.children@.len(),
            position == O::position(count),
            position <= count,
            plan@ == ordered(position, count),
            step <= plan.len(),
            *f == *old(f),
            forall|node: &mut Node<T>| call_requires(*f, (node,)),
            forall|node: &mut Node<T>| #[trigger]
                call_ensures(*f, (node,), ()) ==> final(node).children@ == node.children@,
            forall|i: int|
                entered(position, step as int) <= i < count
                    ==> root.children@[i] == old(root).children@[i],
            forall|i: int|
                0 <= i < entered(position, step as int)
                    ==> (#[trigger] root.children@[i])@.same_shape(old(root).children@[i]@),
            step <= position ==> root.value == old(root).value,
            forall|value: spec_fn(Tree<T>) -> T, i: int|
                #![trigger old(root)@.children[i].visited::<O>(value)]
                0 <= i < entered(position, step as int)
                    && (forall|node: &mut Node<T>| #[trigger]
                    call_ensures(*f, (node,), ()) ==> final(node).value == value(node@))
                    ==> root.children@[i]@ == old(root)@.children[i].visited::<O>(value),
            forall|value: spec_fn(Tree<T>) -> T|
                #![trigger old(root)@.found::<O>(value)]
                step > position && (forall|node: &mut Node<T>| #[trigger]
                    call_ensures(*f, (node,), ()) ==> final(node).value == value(node@))
                    ==> root.value == value(old(root)@.found::<O>(value)),
        decreases plan.len() - step,
    {
        match plan[step] {
            OrderFlow::EvaluateSelf => {
                let ghost before = *root;
                f(root);
                proof {
                    assert(root.children@ == before.children@);
                    assert forall|value: spec_fn(Tree<T>) -> T|
                        (forall|node: &mut Node<T>| #[trigger]
                            call_ensures(*f, (node,), ()) ==> final(node).value == value(node@))
                        implies root.value == value(#[trigger] old(root)@.found::<O>(value)) by {
                        let found = old(root)@.found::<O>(value);
                        assert(before@.children.len() == found.children.len());
                        assert forall|i: int| 0 <= i < count implies before@.children[i]
                            == found.children[i] by {
                            if i < position {
                                assert(before.children@[i]@ == old(root)@.children[i].visited::<O>(
                                    value,
                                ));
                            }
                        }
                        assert(before@.children =~= found.children);
                        assert(before@ == found);
                    }
                }
            },
            OrderFlow::ContinueWith(index) => {
                assert(root.children@[index as int] == old(root).children@[index as int]);
                assert(decreases_to!(*old(root) => old(root).children@[index as int]));
                for_each_mut_immersion::<O, T, F>(&mut root.children[index], f);
            },
        }
        step += 1;
    }
    proof {
        assert(step == count + 1);
        assert forall|value: spec_fn(Tree<T>) -> T|
            (forall|node: &mut Node<T>| #[trigger]
                call_ensures(*old(f), (node,), ()) ==> final(node).value == value(node@))
            implies root@ == #[trigger] old(root)@.visited::<O>(value) by {
            let want = old(root)@.visited::<O>(value);
            assert(root.value == value(old(root)@.found::<O>(value)));
            assert forall|i: int| 0 <= i < count implies root@.children[i] == want.children[i] by {
                assert(root.children@[i]@ == old(root)@.children[i].visited::<O>(value));
            }
            assert(root@.children =~= want.children);
        }
    }
}

/// Builds a tree from the tree of `root`: `f` is called on each node before
/// its children.
pub fn map_mut_immersion<T, R, F>(root: &mut Node<T>, f: &mut F) -> (out: Node<R>)
    where F: FnMut(&mut Node<T>) -> R
    requires
        forall|node: &mut Node<T>| call_requires(*old(f), (node,)),
        forall|node: &mut Node<T>, out: R| #[trigger]
            call_ensures(*old(f), (node,), out) ==> final(node).children@ == node.children@,
    ensures
        *final(f) == *old(f),
        final(root)@.same_shape(old(root)@),
        out@.same_shape(old(root)@),
        forall|value: spec_fn(Tree<T>) -> T|
            #![trigger old(root)@.visited::<Preorder>(value)]
            (forall|node: &mut Node<T>, out: R| #[trigger]
                call_ensures(*old(f), (node,), out) ==> final(node).value == value(node@))
                ==> final(root)@ == old(root)@.visited::<Preorder>(value),
        forall|result: spec_fn(Tree<T>) -> R|
            #![trigger old(root)@.mapped(result)]
            (forall|node: &mut Node<T>, out: R| #[trigger]
                call_ensures(*old(f), (node,), out) ==> out == result(node@)) ==> out@ == old(
                root,
            )@.mapped(result),
    decreases *old(root),
{
    let new_value = f(root);
    let count = root.children.len();
    let ghost entered = *root;
    let mut children: Vec<Node<R>> = Vec::with_capacity(count);
    let mut index: usize = 0;
    while index < count
        invariant
            index <= count,
            root.value == entered.value,
            count == root.children@.len(),
            count == old(root).children@.len(),
            children@.len() == index,
            *f == *old(f),
            forall|node: &mut Node<T>| call_requires(*f, (node,)),
            forall|node: &mut Node<T>, out: R| #[trigger]
                call_ensures(*f, (node,), out) ==> final(node).children@ == node.children@,
            forall|i: int| index <= i < count ==> root.children@[i] == old(root).children@[i],
            forall|i: int|
                0 <= i < index ==> (#[trigger] root.children@[i])@.same_shape(
                    old(root).children@[i]@,
                ),
            forall|i: int|
                0 <= i < index ==> (#[trigger] children@[i])@.same_shape(old(root).children@[i]@),
            forall|value: spec_fn(Tree<T>) -> T, i: int|
                #![trigger old(root)@.children[i].visited::<Preorder>(value)]
                0 <= i < index && (forall|node: &mut Node<T>, out: R| #[trigger]
                    call_ensures(*f, (node,), out) ==> final(node).value == value(node@))
                    ==> root.children@[i]@ == old(root)@.children[i].visited::<Preorder>(value),
            forall|result: spec_fn(Tree<T>) -> R, i: int|
                #![trigger old(root)@.children[i].mapped(result)]
                0 <= i < index && (forall|node: &mut Node<T>, out: R| #[trigger]
                    call_ensures(*f, (node,), out) ==> out == result(node@)) ==> children@[i]@
                    == old(root)@.children[i].mapped(result),
        decreases count - index,
    {
        assert(root.children@[index as int] == old(root).children@[index as int]);
        assert(old(root)@.children[index as int] == old(root).children@[index as int]@);
        assert(decreases_to!(*old(root) => old(root).children@[index as int]));
        let built = map_mut_immersion(&mut root.children[index], f);
        children.push(built);
        index += 1;
    }
    let out = Node { value: new_value, children };
    proof {
        assert forall|value: spec_fn(Tree<T>) -> T|
            (forall|node: &mut Node<T>, out: R| #[trigger]
                call_ensures(*old(f), (node,), out) ==> final(node).value == value(node@))
            implies root@ == #[trigger] old(root)@.visited::<Preorder>(value) by {
            let left = old(root)@.visited::<Preorder>(value);
            old(root)@.lemma_found_first(value);
            assert(entered.value == value(old(root)@));
            assert forall|i: int| 0 <= i < count implies root@.children[i]
                == left.children[i] by {
                assert(root.children@[i]@ == old(root)@.children[i].visited::<Preorder>(value));
            }
            assert(root@.children =~= left.children);
        }
        assert forall|result: spec_fn(Tree<T>) -> R|
            (forall|node: &mut Node<T>, out: R| #[trigger]
                call_ensures(*old(f), (node,), out) ==> out == result(node@)) implies out@
            == #[trigger] old(root)@.mapped(result) by {
            let built = old(root)@.mapped(result);
            assert(new_value == result(old(root)@));
            assert forall|i: int| 0 <= i < count implies out@.children[i]
                == built.children[i] by {
                assert(out.children@[i]@ == old(root)@.children[i].mapped(result));
            }
            assert(out@.children =~= built.children);
        }
    }
    out
}

/// Builds a tree from the tree of `root`: `f` is called on each node before
/// its children, with what it returned for the parent of the node.
pub fn map_down_mut_immersion<T, R, F>(root: &mut Node<T>, base: &R, f: &mut F) -> (out: Node<R>)
    where F: FnMut(&mut Node<T>, &R) -> R
    requires
        forall|node: &mut Node<T>, handed: &R| call_requires(*old(f), (node, handed)),
        forall|node: &mut Node<T>, handed: &R, out: R| #[trigger]
            call_ensures(*old(f), (node, handed), out) ==> final(node).children@ == node.children@,
    ensures
        *final(f) == *old(f),
        final(root)@.same_shape(old(root)@),
        out@.same_shape(old(root)@),
        forall|value: spec_fn(Tree<T>, R) -> T, result: spec_fn(Tree<T>, R) -> R|
            #![trigger old(root)@.cascaded(*base, value, result)]
            (forall|node: &mut Node<T>, handed: &R, out: R| #[trigger]
                call_ensures(*old(f), (node, handed), out) ==> final(node).value == value(
                    node@,
                    *handed,
                ) && out == result(node@, *handed)) ==> final(root)@ == old(root)@.cascaded(
                *base,
                value,
                result,
            ),
        forall|result: spec_fn(Tree<T>, R) -> R|
            #![trigger old(root)@.mapped_down(*base, result)]
            (forall|node: &mut Node<T>, handed: &R, out: R| #[trigger]
                call_ensures(*old(f), (node, handed), out) ==> out == result(node@, *handed))
                ==> out@ == old(root)@.mapped_down(*base, result),
    decreases *old(root),
{
    let new_value = f(root, base);
    let count = root.children.len();
    let ghost entered = *root;
    let mut children: Vec<Node<R>> = Vec::with_capacity(count);
    let mut index: usize = 0;
    while index < count
        invariant
            index <= count,
            root.value == entered.value,
            count == root.children@.len(),
            count == old(root).children@.len(),
            children@.len() == index,
            *f == *old(f),
            forall|node: &mut Node<T>, handed: &R| call_requires(*f, (node, handed)),
            forall|node: &mut Node<T>, handed: &R, out: R| #[trigger]
                call_ensures(*f, (node, handed), out) ==> final(node).children@ == node.children@,
            forall|i: int| index <= i < count ==> root.children@[i] == old(root).children@[i],
            forall|i: int|
                0 <= i < index ==> (#[trigger] root.children@[i])@.same_shape(
                    old(root).children@[i]@,
                ),
            forall|i: int|
                0 <= i < index ==> (#[trigger] children@[i])@.same_shape(old(root).children@[i]@),
            forall|value: spec_fn(Tree<T>, R) -> T, result: spec_fn(Tree<T>, R) -> R, i: int|
                #![trigger old(root)@.children[i].cascaded(new_value, value, result)]
                0 <= i < index && (forall|node: &mut Node<T>, handed: &R, out: R| #[trigger]
                    call_ensures(*f, (node, handed), out) ==> final(node).value == value(
                        node@,
                        *handed,
                    ) && out == result(node@, *handed)) ==> root.children@[i]@ == old(
                    root,
                )@.children[i].cascaded(new_value, value, result),
            forall|result: spec_fn(Tree<T>, R) -> R, i: int|
                #![trigger old(root)@.children[i].mapped_down(new_value, result)]
                0 <= i < index && (forall|node: &mut Node<T>, handed: &R, out: R| #[trigger]
                    call_ensures(*f, (node, handed), out) ==> out == result(node@, *handed))
                    ==> children@[i]@ == old(root)@.children[i].mapped_down(new_value, result),
        decreases count - index,
    {
        assert(root.children@[index as int] == old(root).children@[index as int]);
        assert(old(root)@.children[index as int] == old(root).children@[index as int]@);
        assert(decreases_to!(*old(root) => old(root).children@[index as int]));
        let built = map_down_mut_immersion(&mut root.children[index], &new_value, f);
        children.push(built);
        index += 1;
    }
    let out = Node { value: new_value, children };
    proof {
        assert forall|value: spec_fn(Tree<T>, R) -> T, result: spec_fn(Tree<T>, R) -> R|
            (forall|node: &mut Node<T>, handed: &R, out: R| #[trigger]
                call_ensures(*old(f), (node, handed), out) ==> final(node).value == value(
                    node@,
                    *handed,
                ) && out == result(node@, *handed)) implies root@ == #[trigger] old(
            root,
        )@.cascaded(*base, value, result) by {
            let left = old(root)@.cascaded(*base, value, result);
            assert(entered.value == value(old(root)@, *base));
            assert(new_value == result(old(root)@, *base));
            assert forall|i: int| 0 <= i < count implies root@.children[i]
                == left.children[i] by {
                assert(root.children@[i]@ == old(root)@.children[i].cascaded(
                    new_value,
                    value,
                    result,
                ));
            }
            assert(root@.children =~= left.children);
        }
        assert forall|result: spec_fn(Tree<T>, R) -> R|
            (forall|node: &mut Node<T>, handed: &R, out: R| #[trigger]
                call_ensures(*old(f), (node, handed), out) ==> out == result(node@, *handed))
            implies out@ == #[trigger] old(root)@.mapped_down(*base, result) by {
            let built = old(root)@.mapped_down(*base, result);
            assert(new_value == result(old(root)@, *base));
            assert forall|i: int| 0 <= i < count implies out@.children[i]
                == built.children[i] by {
                assert(out.children@[i]@ == old(root)@.children[i].mapped_down(
                    new_value,
                    result,
                ));
            }
            assert(out@.children =~= built.children);
        }
    }
    out
}

/// Folds the tree of `root`: `f` is called on each node after its children,
/// with their results in child order.
pub fn reduce_mut_immersion<T, R, F>(root: &mut Node<T>, f: &mut F) -> (result: R)
    where F: FnMut(&mut Node<T>, Vec<R>) -> R
    requires
        forall|node: &mut Node<T>, results: Vec<R>| call_requires(*old(f), (node, results)),
        forall|node: &mut Node<T>, results: Vec<R>, out: R| #[trigger]
            call_ensures(*old(f), (node, results), out) ==> final(node).children@
                == node.children@,
    ensures
        *final(f) == *old(f),
        final(root)@.same_shape(old(root)@),
        forall|value: spec_fn(Tree<T>, Seq<R>) -> T, folding: spec_fn(Tree<T>, Seq<R>) -> R|
            #![trigger old(root)@.folded(value, folding)]
            (forall|node: &mut Node<T>, results: Vec<R>, out: R| #[trigger]
                call_ensures(*old(f), (node, results), out) ==> final(node).value == value(
                    node@,
                    results@,
                ) && out == folding(node@, results@)) ==> (final(root)@, result) == old(
                root,
            )@.folded(value, folding),
    decreases *old(root),
{
    let count = root.children.len();
    let mut results: Vec<R> = Vec::with_capacity(count);
    let mut index: usize = 0;
    while index < count
        invariant
            index <= count,
            count == root.children@.len(),
            count == old(root).children@.len(),
            results@.len() == index,
            root.value == old(root).value,
            *f == *old(f),
            forall|node: &mut Node<T>, results: Vec<R>| call_requires(*f, (node, results)),
            forall|node: &mut Node<T>, results: Vec<R>, out: R| #[trigger]
                call_ensures(*f, (node, results), out) ==> final(node).children@
                    == node.children@,
            forall|i: int| index <= i < count ==> root.children@[i] == old(root).children@[i],
            forall|i: int|
                0 <= i < index ==> (#[trigger] root.children@[i])@.same_shape(
                    old(root).children@[i]@,
                ),
            forall|value: spec_fn(Tree<T>, Seq<R>) -> T, folding: spec_fn(Tree<T>, Seq<R>) -> R, i: int|
                #![trigger old(root)@.children[i].folded(value, folding)]
                0 <= i < index && (forall|node: &mut Node<T>, results: Vec<R>, out: R| #[trigger]
                    call_ensures(*f, (node, results), out) ==> final(node).value == value(
                        node@,
                        results@,
                    ) && out == folding(node@, results@)) ==> (root.children@[i]@, results@[i])
                    == old(root)@.children[i].folded(value, folding),
        decreases count - index,
    {
        assert(root.children@[index as int] == old(root).children@[index as int]);
        assert(old(root)@.children[index as int] == old(root).children@[index as int]@);
        assert(decreases_to!(*old(root) => old(root).children@[index as int]));
        let result = reduce_mut_immersion(&mut root.children[index], f);
        results.push(result);
        index += 1;
    }
    let ghost found = *root;
    let ghost handed = results@;
    let result = f(root, results);
    proof {
        assert(root.children@ == found.children@);
        assert forall|value: spec_fn(Tree<T>, Seq<R>) -> T, folding: spec_fn(Tree<T>, Seq<R>) -> R|
            (forall|node: &mut Node<T>, results: Vec<R>, out: R| #[trigger]
                call_ensures(*old(f), (node, results), out) ==> final(node).value == value(
                    node@,
                    results@,
                ) && out == folding(node@, results@)) implies (root@, result) == #[trigger] old(
            root,
        )@.folded(value, folding) by {
            let below = old(root)@.folded_below(value, folding);
            let children = Seq::new(below.len(), |i: int| below[i].0);
            let wanted = Seq::new(below.len(), |i: int| below[i].1);
            assert forall|i: int| 0 <= i < count implies found@.children[i] == children[i]
                && handed[i] == wanted[i] by {
                assert((found.children@[i]@, handed[i]) == old(root)@.children[i].folded(
                    value,
                    folding,
                ));
            }
            assert(found@.children =~= children);
            assert(handed =~= wanted);
            assert(found@ == Tree { value: old(root).value, children });
            assert(root@.children =~= children);
        }
    }
    result
}

/// Runs `f` down the tree of `root`: on each node before its children, with
/// what it returned for the parent of the node.
pub fn cascade_mut_immersion<T, R, F>(root: &mut Node<T>, base: &R, f: &mut F)
    where F: FnMut(&mut Node<T>, &R) -> R
    requires
        forall|node: &mut Node<T>, handed: &R| call_requires(*old(f), (node, handed)),
        forall|node: &mut Node<T>, handed: &R, out: R| #[trigger]
            call_ensures(*old(f), (node, handed), out) ==> final(node).children@ == node.children@,
    ensures
        *final(f) == *old(f),
        final(root)@.same_shape(old(root)@),
        forall|value: spec_fn(Tree<T>, R) -> T, down: spec_fn(Tree<T>, R) -> R|
            #![trigger old(root)@.cascaded(*base, value, down)]
            (forall|node: &mut Node<T>, handed: &R, out: R| #[trigger]
                call_ensures(*old(f), (node, handed), out) ==> final(node).value == value(
                    node@,
                    *handed,
                ) && out == down(node@, *handed)) ==> final(root)@ == old(root)@.cascaded(
                *base,
                value,
                down,
            ),
    decreases *old(root),
{
    let next = f(root, base);
    let count = root.children.len();
    let ghost entered = *root;
    let mut index: usize = 0;
    while index < count
        invariant
            index <= count,
            root.value == entered.value,
            count == root.children@.len(),
            count == old(root).children@.len(),
            *f == *old(f),
            forall|node: &mut Node<T>, handed: &R| call_requires(*f, (node, handed)),
            forall|node: &mut Node<T>, handed: &R, out: R| #[trigger]
                call_ensures(*f, (node, handed), out) ==> final(node).children@ == node.children@,
            forall|i: int| index <= i < count ==> root.children@[i] == old(root).children@[i],
            forall|i: int|
                0 <= i < index ==> (#[trigger] root.children@[i])@.same_shape(
                    old(root).children@[i]@,
                ),
            forall|value: spec_fn(Tree<T>, R) -> T, down: spec_fn(Tree<T>, R) -> R, i: int|
                #![trigger old(root)@.children[i].cascaded(next, value, down)]
                0 <= i < index && (forall|node: &mut Node<T>, handed: &R, out: R| #[trigger]
                    call_ensures(*f, (node, handed), out) ==> final(node).value == value(
                        node@,
                        *handed,
                    ) && out == down(node@, *handed)) ==> root.children@[i]@ == old(
                    root,
                )@.children[i].cascaded(next, value, down),
        decreases count - index,
    {
        assert(root.children@[index as int] == old(root).children@[index as int]);
        assert(old(root)@.children[index as int] == old(root).children@[index as int]@);
        assert(decreases_to!(*old(root) => old(root).children@[index as int]));
        cascade_mut_immersion(&mut root.children[index], &next, f);
        index += 1;
    }
    proof {
        assert forall|value: spec_fn(Tree<T>, R) -> T, down: spec_fn(Tree<T>, R) -> R|
            (forall|node: &mut Node<T>, handed: &R, out: R| #[trigger]
                call_ensures(*old(f), (node, handed), out) ==> final(node).value == value(
                    node@,
                    *handed,
                ) && out == down(node@, *handed)) implies root@ == #[trigger] old(root)@.cascaded(
            *base,
            value,
            down,
        ) by {
            let left = old(root)@.cascaded(*base, value, down);
            assert(entered.value == value(old(root)@, *base));
            assert(next == down(old(root)@, *base));
            assert forall|i: int| 0 <= i < count implies root@.children[i]
                == left.children[i] by {
                assert(root.children@[i]@ == old(root)@.children[i].cascaded(next, value, down));
            }
            assert(root@.children =~= left.children);
        }
    }
}

/// Builds a tree from the tree of `root`: `f` is called on each node after
/// its children, with the children of the new node.
pub fn map_up_mut_immersion<T, R, F>(root: &mut Node<T>, f: &mut F) -> (out: Node<R>)
    where F: FnMut(&mut Node<T>, &[Node<R>]) -> R
    requires
        forall|node: &mut Node<T>, built: &[Node<R>]| call_requires(*old(f), (node, built)),
        forall|node: &mut Node<T>, built: &[Node<R>], out: R| #[trigger]
            call_ensures(*old(f), (node, built), out) ==> final(node).children@ == node.children@,
    ensures
        *final(f) == *old(f),
        final(root)@.same_shape(old(root)@),
        out@.same_shape(old(root)@),
        forall|value: spec_fn(Tree<T>, Seq<Tree<R>>) -> T, result: spec_fn(Tree<T>, Seq<Tree<R>>) -> R|
            #![trigger old(root)@.rebuilt(value, result)]
            (forall|node: &mut Node<T>, built: &[Node<R>], out: R| #[trigger]
                call_ensures(*old(f), (node, built), out) ==> final(node).value == value(
                    node@,
                    Node::forest(built@),
                ) && out == result(node@, Node::forest(built@))) ==> (final(root)@, out@) == old(
                root,
            )@.rebuilt(value, result),
    decreases *old(root),
{
    let count = root.children.len();
    let mut children: Vec<Node<R>> = Vec::with_capacity(count);
    let mut index: usize = 0;
    while index < count
        invariant
            index <= count,
            count == root.children@.len(),
            count == old(root).children@.len(),
            children@.len() == index,
            root.value == old(root).value,
            *f == *old(f),
            forall|node: &mut Node<T>, built: &[Node<R>]| call_requires(*f, (node, built)),
            forall|node: &mut Node<T>, built: &[Node<R>], out: R| #[trigger]
                call_ensures(*f, (node, built), out) ==> final(node).children@ == node.children@,
            forall|i: int| index <= i < count ==> root.children@[i] == old(root).children@[i],
            forall|i: int|
                0 <= i < index ==> (#[trigger] root.children@[i])@.same_shape(
                    old(root).children@[i]@,
                ),
            forall|i: int|
                0 <= i < index ==> (#[trigger] children@[i])@.same_shape(old(root).children@[i]@),
            forall|value: spec_fn(Tree<T>, Seq<Tree<R>>) -> T, result: spec_fn(Tree<T>, Seq<Tree<R>>) -> R, i: int|
                #![trigger old(root)@.children[i].rebuilt(value, result)]
                0 <= i < index && (forall|node: &mut Node<T>, built: &[Node<R>], out: R| #[trigger]
                    call_ensures(*f, (node, built), out) ==> final(node).value == value(
                        node@,
                        Node::forest(built@),
                    ) && out == result(node@, Node::forest(built@))) ==> (
                    root.children@[i]@,
                    children@[i]@,
                ) == old(root)@.children[i].rebuilt(value, result),
        decreases count - index,
    {
        assert(root.children@[index as int] == old(root).children@[index as int]);
        assert(old(root)@.children[index as int] == old(root).children@[index as int]@);
        assert(decreases_to!(*old(root) => old(root).children@[index as int]));
        let built = map_up_mut_immersion(&mut root.children[index], f);
        children.push(built);
        index += 1;
    }
    let ghost found = *root;
    let built = children.as_slice();
    let ghost handed = built;
    let new_value = f(root, built);
    let out = Node { value: new_value, children };
    proof {
        assert(root.children@ == found.children@);
        assert(handed@ == out.children@);
        out.lemma_tree();
        assert forall|value: spec_fn(Tree<T>, Seq<Tree<R>>) -> T, result: spec_fn(Tree<T>, Seq<Tree<R>>) -> R|
            (forall|node: &mut Node<T>, built: &[Node<R>], out: R| #[trigger]
                call_ensures(*old(f), (node, built), out) ==> final(node).value == value(
                    node@,
                    Node::forest(built@),
                ) && out == result(node@, Node::forest(built@))) implies (root@, out@)
            == #[trigger] old(root)@.rebuilt(value, result) by {
            let below = old(root)@.rebuilt_below(value, result);
            let left = Seq::new(below.len(), |i: int| below[i].0);
            let right = Seq::new(below.len(), |i: int| below[i].1);
            assert forall|i: int| 0 <= i < count implies found@.children[i] == left[i]
                && out@.children[i] == right[i] by {
                assert((found.children@[i]@, out.children@[i]@) == old(root)@.children[i].rebuilt(
                    value,
                    result,
                ));
            }
            assert(found@.children =~= left);
            assert(out@.children =~= right);
            assert(found@ == Tree { value: old(root).value, children: left });
            assert(root@.children =~= left);
        }
    }
    out
}

/// Folds the tree of `root`: `pre` is called on each node before its
/// children, with what it returned for the parent of the node; `post` is
/// called on each node after its children, with what `pre` returned for the
/// node and the results of the children.
pub fn reduce_both_mut_immersion<T, R, U, F, P>(
    root: &mut Node<T>,
    base: &R,
    pre: &mut F,
    post: &mut P,
) -> (result: U)
    where F: FnMut(&mut Node<T>, &R) -> R, P: FnMut(&mut Node<T>, &R, Vec<U>) -> U
    requires
        forall|node: &mut Node<T>, handed: &R| call_requires(*old(pre), (node, handed)),
        forall|node: &mut Node<T>, handed: &R, results: Vec<U>|
            call_requires(*old(post), (node, handed, results)),
        forall|node: &mut Node<T>, handed: &R, out: R| #[trigger]
            call_ensures(*old(pre), (node, handed), out) ==> final(node).children@
                == node.children@,
        forall|node: &mut Node<T>, handed: &R, results: Vec<U>, out: U| #[trigger]
            call_ensures(*old(post), (node, handed, results), out) ==> final(node).children@
                == node.children@,
    ensures
        *final(pre) == *old(pre),
        *final(post) == *old(post),
        final(root)@.same_shape(old(root)@),
        forall|
            entering: spec_fn(Tree<T>, R) -> T,
            down: spec_fn(Tree<T>, R) -> R,
            leaving: spec_fn(Tree<T>, R, Seq<U>) -> T,
            folding: spec_fn(Tree<T>, R, Seq<U>) -> U,
        |
            #![trigger old(root)@.folded_both(*base, entering, down, leaving, folding)]
            (forall|node: &mut Node<T>, handed: &R, out: R| #[trigger]
                call_ensures(*old(pre), (node, handed), out) ==> final(node).value == entering(
                    node@,
                    *handed,
                ) && out == down(node@, *handed)) && (forall|
                node: &mut Node<T>,
                handed: &R,
                results: Vec<U>,
                out: U,
            | #[trigger]
                call_ensures(*old(post), (node, handed, results), out) ==> final(node).value
                    == leaving(node@, *handed, results@) && out == folding(
                    node@,
                    *handed,
                    results@,
                )) ==> (final(root)@, result) == old(root)@.folded_both(
                *base,
                entering,
                down,
                leaving,
                folding,
            ),
    decreases *old(root),
{
    let next = pre(root, base);
    let count = root.children.len();
    let ghost entered = *root;
    let mut results: Vec<U> = Vec::with_capacity(count);
    let mut index: usize = 0;
    while index < count
        invariant
            index <= count,
            count == root.children@.len(),
            count == old(root).children@.len(),
            results@.len() == index,
            root.value == entered.value,
            *pre == *old(pre),
            *post == *old(post),
            forall|node: &mut Node<T>, handed: &R| call_requires(*pre, (node, handed)),
            forall|node: &mut Node<T>, handed: &R, results: Vec<U>|
                call_requires(*post, (node, handed, results)),
            forall|node: &mut Node<T>, handed: &R, out: R| #[trigger]
                call_ensures(*pre, (node, handed), out) ==> final(node).children@
                    == node.children@,
            forall|node: &mut Node<T>, handed: &R, results: Vec<U>, out: U| #[trigger]
                call_ensures(*post, (node, handed, results), out) ==> final(node).children@
                    == node.children@,
            forall|i: int| index <= i < count ==> root.children@[i] == old(root).children@[i],
            forall|i: int|
                0 <= i < index ==> (#[trigger] root.children@[i])@.same_shape(
                    old(root).children@[i]@,
                ),
            forall|
                entering: spec_fn(Tree<T>, R) -> T,
                down: spec_fn(Tree<T>, R) -> R,
                leaving: spec_fn(Tree<T>, R, Seq<U>) -> T,
                folding: spec_fn(Tree<T>, R, Seq<U>) -> U,
                i: int,
            |
                #![trigger old(root)@.children[i].folded_both(next, entering, down, leaving, folding)]
                0 <= i < index && (forall|node: &mut Node<T>, handed: &R, out: R| #[trigger]
                    call_ensures(*pre, (node, handed), out) ==> final(node).value == entering(
                        node@,
                        *handed,
                    ) && out == down(node@, *handed)) && (forall|
                    node: &mut Node<T>,
                    handed: &R,
                    results: Vec<U>,
                    out: U,
                | #[trigger]
                    call_ensures(*post, (node, handed, results), out) ==> final(node).value
                        == leaving(node@, *handed, results@) && out == folding(
                        node@,
                        *handed,
                        results@,
                    )) ==> (root.children@[i]@, results@[i]) == old(
                    root,
                )@.children[i].folded_both(next, entering, down, leaving, folding),
        decreases count - index,
    {
        assert(root.children@[index as int] == old(root).children@[index as int]);
        assert(old(root)@.children[index as int] == old(root).children@[index as int]@);
        assert(decreases_to!(*old(root) => old(root).children@[index as int]));
        let result = reduce_both_mut_immersion(&mut root.children[index], &next, pre, post);
        results.push(result);
        index += 1;
    }
    let ghost found = *root;
    let ghost handed = results@;
    let result = post(root, &next, results);
    proof {
        assert(root.children@ == found.children@);
        assert forall|
            entering: spec_fn(Tree<T>, R) -> T,
            down: spec_fn(Tree<T>, R) -> R,
            leaving: spec_fn(Tree<T>, R, Seq<U>) -> T,
            folding: spec_fn(Tree<T>, R, Seq<U>) -> U,
        |
            (forall|node: &mut Node<T>, handed: &R, out: R| #[trigger]
                call_ensures(*old(pre), (node, handed), out) ==> final(node).value == entering(
                    node@,
                    *handed,
                ) && out == down(node@, *handed)) && (forall|
                node: &mut Node<T>,
                handed: &R,
                results: Vec<U>,
                out: U,
            | #[trigger]
                call_ensures(*old(post), (node, handed, results), out) ==> final(node).value
                    == leaving(node@, *handed, results@) && out == folding(
                    node@,
                    *handed,
                    results@,
                )) implies (root@, result) == #[trigger] old(root)@.folded_both(
            *base,
            entering,
            down,
            leaving,
            folding,
        ) by {
            assert(next == down(old(root)@, *base));
            assert(entered.value == entering(old(root)@, *base));
            let below = old(root)@.folded_both_below(next, entering, down, leaving, folding);
            let children = Seq::new(below.len(), |i: int| below[i].0);
            let wanted = Seq::new(below.len(), |i: int| below[i].1);
            assert forall|i: int| 0 <= i < count implies found@.children[i] == children[i]
                && handed[i] == wanted[i] by {
                assert((found.children@[i]@, handed[i]) == old(root)@.children[i].folded_both(
                    next,
                    entering,
                    down,
                    leaving,
                    folding,
                ));
            }
            assert(found@.children =~= children);
            assert(handed =~= wanted);
            assert(found@ == Tree { value: entered.value, children });
            assert(root@.children =~= children);
        }
    }
    result
}

/// Builds a tree from the tree of `root`: `pre` is called on each node before
/// its children, with what it returned for the parent of the node; `post` is
/// called on each node after its children, with what `pre` returned for the
/// node and the children of the new node.
pub fn map_both_mut_immersion<T, R, U, F, P>(
    root: &mut Node<T>,
    base: &R,
    pre: &mut F,
    post: &mut P,
) -> (out: Node<U>)
    where F: FnMut(&mut Node<T>, &R) -> R, P: FnMut(&mut Node<T>, &R, &[Node<U>]) -> U
    requires
        forall|node: &mut Node<T>, handed: &R| call_requires(*old(pre), (node, handed)),
        forall|node: &mut Node<T>, handed: &R, built: &[Node<U>]|
            call_requires(*old(post), (node, handed, built)),
        forall|node: &mut Node<T>, handed: &R, out: R| #[trigger]
            call_ensures(*old(pre), (node, handed), out) ==> final(node).children@
                == node.children@,
        forall|node: &mut Node<T>, handed: &R, built: &[Node<U>], out: U| #[trigger]
            call_ensures(*old(post), (node, handed, built), out) ==> final(node).children@
                == node.children@,
    ensures
        *final(pre) == *old(pre),
        *final(post) == *old(post),
        final(root)@.same_shape(old(root)@),
        out@.same_shape(old(root)@),
        forall|
            entering: spec_fn(Tree<T>, R) -> T,
            down: spec_fn(Tree<T>, R) -> R,
            leaving: spec_fn(Tree<T>, R, Seq<Tree<U>>) -> T,
            building: spec_fn(Tree<T>, R, Seq<Tree<U>>) -> U,
        |
            #![trigger old(root)@.rebuilt_both(*base, entering, down, leaving, building)]
            (forall|node: &mut Node<T>, handed: &R, out: R| #[trigger]
                call_ensures(*old(pre), (node, handed), out) ==> final(node).value == entering(
                    node@,
                    *handed,
                ) && out == down(node@, *handed)) && (forall|
                node: &mut Node<T>,
                handed: &R,
                built: &[Node<U>],
                out: U,
            | #[trigger]
                call_ensures(*old(post), (node, handed, built), out) ==> final(node).value
                    == leaving(node@, *handed, Node::forest(built@)) && out == building(
                    node@,
                    *handed,
                    Node::forest(built@),
                )) ==> (final(root)@, out@) == old(root)@.rebuilt_both(
                *base,
                entering,
                down,
                leaving,
                building,
            ),
    decreases *old(root),
{
    let next = pre(root, base);
    let count = root.children.len();
    let ghost entered = *root;
    let mut children: Vec<Node<U>> = Vec::with_capacity(count);
    let mut index: usize = 0;
    while index < count
        invariant
            index <= count,
            count == root.children@.len(),
            count == old(root).children@.len(),
            children@.len() == index,
            root.value == entered.value,
            *pre == *old(pre),
            *post == *old(post),
            forall|node: &mut Node<T>, handed: &R| call_requires(*pre, (node, handed)),
            forall|node: &mut Node<T>, handed: &R, built: &[Node<U>]|
                call_requires(*post, (node, handed, built)),
            forall|node: &mut Node<T>, handed: &R, out: R| #[trigger]
                call_ensures(*pre, (node, handed), out) ==> final(node).children@
                    == node.children@,
            forall|node: &mut Node<T>, handed: &R, built: &[Node<U>], out: U| #[trigger]
                call_ensures(*post, (node, handed, built), out) ==> final(node).children@
                    == node.children@,
            forall|i: int| index <= i < count ==> root.children@[i] == old(root).children@[i],
            forall|i: int|
                0 <= i < index ==> (#[trigger] root.children@[i])@.same_shape(
                    old(root).children@[i]@,
                ),
            forall|i: int|
                0 <= i < index ==> (#[trigger] children@[i])@.same_shape(old(root).children@[i]@),
            forall|
                entering: spec_fn(Tree<T>, R) -> T,
                down: spec_fn(Tree<T>, R) -> R,
                leaving: spec_fn(Tree<T>, R, Seq<Tree<U>>) -> T,
                building: spec_fn(Tree<T>, R, Seq<Tree<U>>) -> U,
                i: int,
            |
                #![trigger old(root)@.children[i].rebuilt_both(next, entering, down, leaving, building)]
                0 <= i < index && (forall|node: &mut Node<T>, handed: &R, out: R| #[trigger]
                    call_ensures(*pre, (node, handed), out) ==> final(node).value == entering(
                        node@,
                        *handed,
                    ) && out == down(node@, *handed)) && (forall|
                    node: &mut Node<T>,
                    handed: &R,
                    built: &[Node<U>],
                    out: U,
                | #[trigger]
                    call_ensures(*post, (node, handed, built), out) ==> final(node).value
                        == leaving(node@, *handed, Node::forest(built@)) && out == building(
                        node@,
                        *handed,
                        Node::forest(built@),
                    )) ==> (root.children@[i]@, children@[i]@) == old(
                    root,
                )@.children[i].rebuilt_both(next, entering, down, leaving, building),
        decreases count - index,
    {
        assert(root.children@[index as int] == old(root).children@[index as int]);
        assert(old(root)@.children[index as int] == old(root).children@[index as int]@);
        assert(decreases_to!(*old(root) => old(root).children@[index as int]));
        let built = map_both_mut_immersion(&mut root.children[index], &next, pre, post);
        children.push(built);
        index += 1;
    }
    let ghost found = *root;
    let built = children.as_slice();
    let ghost handed = built;
    let new_value = post(root, &next, built);
    let out = Node { value: new_value, children };
    proof {
        assert(root.children@ == found.children@);
        assert(handed@ == out.children@);
        out.lemma_tree();
        assert forall|
            entering: spec_fn(Tree<T>, R) -> T,
            down: spec_fn(Tree<T>, R) -> R,
            leaving: spec_fn(Tree<T>, R, Seq<Tree<U>>) -> T,
            building: spec_fn(Tree<T>, R, Seq<Tree<U>>) -> U,
        |
            (forall|node: &mut Node<T>, handed: &R, out: R| #[trigger]
                call_ensures(*old(pre), (node, handed), out) ==> final(node).value == entering(
                    node@,
                    *handed,
                ) && out == down(node@, *handed)) && (forall|
                node: &mut Node<T>,
                handed: &R,
                built: &[Node<U>],
                out: U,
            | #[trigger]
                call_ensures(*old(post), (node, handed, built), out) ==> final(node).value
                    == leaving(node@, *handed, Node::forest(built@)) && out == building(
                    node@,
                    *handed,
                    Node::forest(built@),
                )) implies (root@, out@) == #[trigger] old(root)@.rebuilt_both(
            *base,
            entering,
            down,
            leaving,
            building,
        ) by {
            assert(next == down(old(root)@, *base));
            assert(entered.value == entering(old(root)@, *base));
            let below = old(root)@.rebuilt_both_below(next, entering, down, leaving, building);
            let left = Seq::new(below.len(), |i: int| below[i].0);
            let right = Seq::new(below.len(), |i: int| below[i].1);
            assert forall|i: int| 0 <= i < count implies found@.children[i] == left[i]
                && out@.children[i] == right[i] by {
                assert((found.children@[i]@, out.children@[i]@) == old(
                    root,
                )@.children[i].rebuilt_both(next, entering, down, leaving, building));
            }
            assert(found@.children =~= left);
            assert(out@.children =~= right);
            assert(found@ == Tree { value: entered.value, children: left });
            assert(root@.children =~= left);
        }
    }
    out
}

} // verus!
