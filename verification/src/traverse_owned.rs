//! Traversal of a tree that the handle owns: the operations consume it.

use crate::iterator::{lemma_pending_pre_fresh, pending_post_values, pending_pre, values};
use crate::node::{Node, Tree};
use crate::order::{Order, Postorder, Preorder};
use crate::relation::{
    built, built_down, built_up, folded_up, handed_down, lemma_built_down_shape,
    lemma_built_shape, lemma_built_up_shape,
};
use crate::strategy::{Asynchronous, Synchronous};
use crate::traverse_mut::cascade_mut_immersion;
use core::marker::PhantomData;
use vstd::prelude::*;

verus! {

/// A handle on a tree that it owns.
pub struct TraverseOwned<T, S> {
    pub node: Node<T>,
    pub strategy: PhantomData<S>,
}

/// An owned tree to be walked from each node to its children.
pub struct InPreOwned<T, S> {
    /// The subtrees that `next` has yet to yield, the first on top; the tree
    /// itself is at the bottom.
    pub next: Vec<Node<T>>,
    pub strategy: PhantomData<S>,
}

/// An owned tree to be walked from the children of each node to the node.
pub struct InPostOwned<T, S> {
    /// The nodes that `next` has entered and not yet yielded, each with the
    /// children that it has not entered, the deepest on top; the tree itself
    /// is at the bottom.
    pub next: Vec<Node<T>>,
    pub strategy: PhantomData<S>,
}

/// An owned tree to be walked both ways at once, with the closure that is
/// run on the way down.
pub struct PrePostOwned<T, R, F, S> {
    pub node: Node<T>,
    pub pre: F,
    pub r: PhantomData<R>,
    pub strategy: PhantomData<S>,
}

impl<T> Tree<T> {
    /// The result of a fold both ways that consumes the tree. On the way
    /// down the first visitor gives each node the value `entering` of the
    /// tree that it finds there and of what it is handed, and hands `down`
    /// of the two on; the root is handed `base`. On the way up the second
    /// visitor returns `folding` of the value of the node, of what the first
    /// handed on, and of the results of the children.
    pub open spec fn folded_owned<R, U>(
        self,
        base: R,
        entering: spec_fn(Tree<T>, R) -> T,
        down: spec_fn(Tree<T>, R) -> R,
        folding: spec_fn(T, R, Seq<U>) -> U,
    ) -> U
        decreases self, 1nat,
    {
        let next = down(self, base);
        folding(
            entering(self, base),
            next,
            self.folded_owned_below(next, entering, down, folding),
        )
    }

    /// The results of such a fold for the children of `self`, each handed
    /// `next`.
    pub open spec fn folded_owned_below<R, U>(
        self,
        next: R,
        entering: spec_fn(Tree<T>, R) -> T,
        down: spec_fn(Tree<T>, R) -> R,
        folding: spec_fn(T, R, Seq<U>) -> U,
    ) -> Seq<U>
        decreases self, 0nat,
    {
        Seq::new(
            self.children.len(),
            |i: int|
                if 0 <= i < self.children.len() {
                    self.children[i].folded_owned(next, entering, down, folding)
                } else {
                    arbitrary()
                },
        )
    }

    /// The tree that a rebuild both ways builds when it consumes the tree.
    /// The way down is that of `folded_owned`. On the way up each new node
    /// gets `building` of the value of the node, of what the first visitor
    /// handed on, and of the new trees of the children.
    pub open spec fn built_owned<R, U>(
        self,
        base: R,
        entering: spec_fn(Tree<T>, R) -> T,
        down: spec_fn(Tree<T>, R) -> R,
        building: spec_fn(T, R, Seq<Tree<U>>) -> U,
    ) -> Tree<U>
        decreases self,
    {
        let next = down(self, base);
        let children = Seq::new(
            self.children.len(),
            |i: int|
                if 0 <= i < self.children.len() {
                    self.children[i].built_owned(next, entering, down, building)
                } else {
                    arbitrary()
                },
        );
        Tree { value: building(entering(self, base), next, children), children }
    }
}

/// Whether `out` is a tree that `f` can build from `src` by value: the two
/// have the same children at every position, and the value of each node of
/// `out` is what `f` returned for the value and the children of the node of
/// `src` at its place.
pub open spec fn mapped_owned<T, R, F>(f: F, src: Node<T>, out: Node<R>) -> bool
    where F: FnMut(T, &[Node<T>]) -> R
{
    built(
        src,
        out,
        |node: Node<T>, value: R|
            exists|below: &[Node<T>]|
                below@ == node.children@ && #[trigger] call_ensures(
                    f,
                    (node.value, below),
                    value,
                ),
    )
}

/// Whether `out` is a tree that `f` can build from `src` by value when each
/// node is handed what `f` returned for its parent, and the root is handed
/// `base`.
pub open spec fn mapped_down_owned<T, R, F>(f: F, src: Node<T>, base: R, out: Node<R>) -> bool
    where F: FnMut(T, &R) -> R
{
    built_down(
        src,
        base,
        out,
        |node: Node<T>, handed: R, value: R| call_ensures(f, (node.value, &handed), value),
    )
}

/// Whether `out` is a tree that `f` can build from `src` by value when each
/// node is handed the children of the new node.
pub open spec fn mapped_up_owned<T, R, F>(f: F, src: Node<T>, out: Node<R>) -> bool
    where F: FnMut(T, &[Node<R>]) -> R
{
    built_up(
        src,
        out,
        |count: nat| count,
        |node: Node<T>, built: Seq<Node<R>>, value: R|
            exists|seen: &[Node<R>]|
                seen@ == built && #[trigger] call_ensures(f, (node.value, seen), value),
    )
}

/// Whether `result` is what `f` can fold the tree of `src` into by value:
/// `f` returned it for the value of `src` and the results of the children of
/// `src`, in child order.
pub open spec fn reduced_owned<T, R, F>(f: F, src: Node<T>, result: R) -> bool
    where F: FnMut(T, Vec<R>) -> R
{
    folded_up(
        src,
        result,
        |node: Node<T>, results: Seq<R>, value: R|
            exists|handed: Vec<R>|
                handed@ == results && #[trigger] call_ensures(f, (node.value, handed), value),
    )
}

/// As `reduced_owned`, for a visitor that borrows the results.
pub open spec fn reduced_up_owned<T, R, F>(f: F, src: Node<T>, result: R) -> bool
    where F: FnMut(T, &[R]) -> R
{
    folded_up(
        src,
        result,
        |node: Node<T>, results: Seq<R>, value: R|
            exists|handed: &[R]|
                handed@ == results && #[trigger] call_ensures(f, (node.value, handed), value),
    )
}

/// Whether `f` has been run down the tree of `src` by value: on the value of
/// `src` with `base`, and on each child with what `f` returned for its
/// parent.
pub open spec fn cascaded_owned<T, R, F>(f: F, src: Node<T>, base: R) -> bool
    where F: FnMut(T, &R) -> R
{
    handed_down(
        src,
        base,
        |node: Node<T>, handed: R, next: R| call_ensures(f, (node.value, &handed), next),
    )
}

/// Hands the value of every node of the tree of `root` to `f`, each after
/// those of its children.
pub fn for_each_owned_immersion<T, F>(root: Node<T>, f: &mut F)
    where F: FnMut(T)
    requires
        forall|node: Node<T>| root.has(node) ==> call_requires(*old(f), (node.value,)),
    ensures
        *final(f) == *old(f),
        forall|k: int|
            0 <= k < root.visits::<Postorder>().len() ==> call_ensures(
                *old(f),
                ((#[trigger] root.visits::<Postorder>()[k]).value,),
                (),
            ),
    decreases root,
{
    let ghost count = root.children@.len();
    proof {
        assert(root.children.len() == count);
        root.lemma_visits_until::<Postorder>(0);
    }
    let Node { value, children } = root;
    for child in iter: children.into_iter()
        invariant
            iter.seq() == root.children@,
            count == root.children@.len(),
            count <= usize::MAX,
            *f == *old(f),
            forall|node: Node<T>| root.has(node) ==> call_requires(*f, (node.value,)),
            forall|k: int|
                0 <= k < root.visits_until::<Postorder>(iter.index()).len() ==> call_ensures(
                    *f,
                    ((#[trigger] root.visits_until::<Postorder>(iter.index())[k]).value,),
                    (),
                ),
    {
        proof {
            root.lemma_visits_until::<Postorder>(iter.index());
        }
        assert forall|node: Node<T>| child.has(node) implies call_requires(*f, (node.value,)) by {
            assert(root.has(node));
        }
        for_each_owned_immersion(child, f);
    }
    proof {
        assert(root.has(root));
        root.lemma_visits_until::<Postorder>(count as int);
    }
    f(value)
}

/// Builds a tree from the tree of `root`: `f` is called on the value and the
/// children of each node, before the children are consumed.
pub fn map_owned_immersion<T, R, F>(root: Node<T>, f: &mut F) -> (out: Node<R>)
    where F: FnMut(T, &[Node<T>]) -> R
    requires
        forall|node: Node<T>, below: &[Node<T>]|
            root.has(node) ==> call_requires(*old(f), (node.value, below)),
    ensures
        *final(f) == *old(f),
        mapped_owned(*old(f), root, out),
    decreases root,
{
    assert(root.has(root));
    let Node { value, children } = root;
    let below = children.as_slice();
    let ghost witness = below;
    let new_value = f(value, below);
    let mut built: Vec<Node<R>> = Vec::with_capacity(children.len());
    for child in iter: children.into_iter()
        invariant
            iter.seq() == root.children@,
            built@.len() == iter.index(),
            *f == *old(f),
            forall|node: Node<T>, below: &[Node<T>]|
                root.has(node) ==> call_requires(*f, (node.value, below)),
            forall|i: int|
                0 <= i < iter.index() ==> mapped_owned(
                    *f,
                    root.children@[i],
                    #[trigger] built@[i],
                ),
    {
        assert forall|node: Node<T>| child.has(node) implies root.has(node) by {}
        let mapped = map_owned_immersion(child, f);
        built.push(mapped);
    }
    let out = Node { value: new_value, children: built };
    proof {
        assert(witness@ == root.children@);
        assert(call_ensures(*f, (root.value, witness), out.value));
    }
    out
}

/// Builds a tree from the tree of `root`: `f` is called on the value of each
/// node before its children, with what it returned for the parent of the
/// node.
pub fn map_down_owned_immersion<T, R, F>(root: Node<T>, base: &R, f: &mut F) -> (out: Node<R>)
    where F: FnMut(T, &R) -> R
    requires
        forall|node: Node<T>, handed: &R|
            root.has(node) ==> call_requires(*old(f), (node.value, handed)),
    ensures
        *final(f) == *old(f),
        mapped_down_owned(*old(f), root, *base, out),
    decreases root,
{
    assert(root.has(root));
    let Node { value, children } = root;
    let new_value = f(value, base);
    let mut built: Vec<Node<R>> = Vec::with_capacity(children.len());
    for child in iter: children.into_iter()
        invariant
            iter.seq() == root.children@,
            built@.len() == iter.index(),
            *f == *old(f),
            forall|node: Node<T>, handed: &R|
                root.has(node) ==> call_requires(*f, (node.value, handed)),
            forall|i: int|
                0 <= i < iter.index() ==> mapped_down_owned(
                    *f,
                    root.children@[i],
                    new_value,
                    #[trigger] built@[i],
                ),
    {
        assert forall|node: Node<T>| child.has(node) implies root.has(node) by {}
        let mapped = map_down_owned_immersion(child, &new_value, f);
        built.push(mapped);
    }
    Node { value: new_value, children: built }
}

/// Builds a tree from the tree of `root`: `f` is called on the value of each
/// node after its children, with the children of the new node.
pub fn map_up_owned_immersion<T, R, F>(root: Node<T>, f: &mut F) -> (out: Node<R>)
    where F: FnMut(T, &[Node<R>]) -> R
    requires
        forall|node: Node<T>, built: &[Node<R>]|
            root.has(node) ==> call_requires(*old(f), (node.value, built)),
    ensures
        *final(f) == *old(f),
        mapped_up_owned(*old(f), root, out),
    decreases root,
{
    let Node { value, children } = root;
    let mut built: Vec<Node<R>> = Vec::with_capacity(children.len());
    for child in iter: children.into_iter()
        invariant
            iter.seq() == root.children@,
            built@.len() == iter.index(),
            *f == *old(f),
            forall|node: Node<T>, built: &[Node<R>]|
                root.has(node) ==> call_requires(*f, (node.value, built)),
            forall|i: int|
                0 <= i < iter.index() ==> mapped_up_owned(
                    *f,
                    root.children@[i],
                    #[trigger] built@[i],
                ),
    {
        assert forall|node: Node<T>| child.has(node) implies root.has(node) by {}
        let mapped = map_up_owned_immersion(child, f);
        built.push(mapped);
    }
    assert(root.has(root));
    let handed = built.as_slice();
    let ghost witness = handed;
    let new_value = f(value, handed);
    let out = Node { value: new_value, children: built };
    proof {
        assert(witness@ == out.children@);
        assert(out.children@.take(out.children@.len() as int) =~= out.children@);
        assert(call_ensures(*f, (root.value, witness), out.value));
    }
    out
}

/// Folds the tree of `root`: `f` is called on the value of each node after
/// its children, with their results in child order.
pub fn reduce_owned_immersion<T, R, F>(root: Node<T>, f: &mut F) -> (result: R)
    where F: FnMut(T, Vec<R>) -> R
    requires
        forall|node: Node<T>, results: Vec<R>|
            root.has(node) ==> call_requires(*old(f), (node.value, results)),
    ensures
        *final(f) == *old(f),
        reduced_owned(*old(f), root, result),
    decreases root,
{
    let Node { value, children } = root;
    let mut results: Vec<R> = Vec::with_capacity(children.len());
    for child in iter: children.into_iter()
        invariant
            iter.seq() == root.children@,
            results@.len() == iter.index(),
            *f == *old(f),
            forall|node: Node<T>, results: Vec<R>|
                root.has(node) ==> call_requires(*f, (node.value, results)),
            forall|i: int|
                0 <= i < iter.index() ==> reduced_owned(
                    *f,
                    root.children@[i],
                    #[trigger] results@[i],
                ),
    {
        assert forall|node: Node<T>| child.has(node) implies root.has(node) by {}
        let result = reduce_owned_immersion(child, f);
        results.push(result);
    }
    assert(root.has(root));
    let ghost handed = results;
    let result = f(value, results);
    proof {
        let step = |node: Node<T>, results: Seq<R>, value: R|
            exists|handed: Vec<R>|
                handed@ == results && #[trigger] call_ensures(*f, (node.value, handed), value);
        assert(step(root, handed@, result));
    }
    result
}

/// Folds the tree of `root`: `f` is called on the value of each node after
/// its children, with a view of their results in child order.
pub fn reduce_up_owned_immersion<T, R, F>(root: Node<T>, f: &mut F) -> (result: R)
    where F: FnMut(T, &[R]) -> R
    requires
        forall|node: Node<T>, results: &[R]|
            root.has(node) ==> call_requires(*old(f), (node.value, results)),
    ensures
        *final(f) == *old(f),
        reduced_up_owned(*old(f), root, result),
    decreases root,
{
    let Node { value, children } = root;
    let mut results: Vec<R> = Vec::with_capacity(children.len());
    for child in iter: children.into_iter()
        invariant
            iter.seq() == root.children@,
            results@.len() == iter.index(),
            *f == *old(f),
            forall|node: Node<T>, results: &[R]|
                root.has(node) ==> call_requires(*f, (node.value, results)),
            forall|i: int|
                0 <= i < iter.index() ==> reduced_up_owned(
                    *f,
                    root.children@[i],
                    #[trigger] results@[i],
                ),
    {
        assert forall|node: Node<T>| child.has(node) implies root.has(node) by {}
        let result = reduce_up_owned_immersion(child, f);
        results.push(result);
    }
    assert(root.has(root));
    let handed = results.as_slice();
    let ghost witness = handed;
    let result = f(value, handed);
    proof {
        assert(witness@ == results@);
        assert(call_ensures(*f, (root.value, witness), result));
        let step = |node: Node<T>, results: Seq<R>, value: R|
            exists|handed: &[R]|
                handed@ == results && #[trigger] call_ensures(*f, (node.value, handed), value);
        assert(step(root, results@, result));
    }
    result
}

/// Runs `f` down the tree of `root`: on the value of each node before its
/// children, with what it returned for the parent of the node.
pub fn cascade_owned_immersion<T, R, F>(root: Node<T>, base: &R, f: &mut F)
    where F: FnMut(T, &R) -> R
    requires
        forall|node: Node<T>, handed: &R|
            root.has(node) ==> call_requires(*old(f), (node.value, handed)),
    ensures
        *final(f) == *old(f),
        cascaded_owned(*old(f), root, *base),
    decreases root,
{
    assert(root.has(root));
    let Node { value, children } = root;
    let next = f(value, base);
    for child in iter: children.into_iter()
        invariant
            iter.seq() == root.children@,
            *f == *old(f),
            forall|node: Node<T>, handed: &R|
                root.has(node) ==> call_requires(*f, (node.value, handed)),
            forall|i: int|
                0 <= i < iter.index() ==> cascaded_owned(*f, #[trigger] root.children@[i], next),
    {
        assert forall|node: Node<T>| child.has(node) implies root.has(node) by {}
        cascade_owned_immersion(child, &next, f);
    }
    proof {
        let step = |node: Node<T>, handed: R, next: R| call_ensures(*f, (node.value, &handed), next);
        assert(step(root, *base, next));
    }
}

impl<T, S> From<Node<T>> for TraverseOwned<T, S> {
    fn from(node: Node<T>) -> (handle: Self) {
        TraverseOwned { node, strategy: PhantomData }
    }
}

impl<T, S> vstd::std_specs::convert::FromSpecImpl<Node<T>> for TraverseOwned<T, S> {
    open spec fn obeys_from_spec() -> bool {
        true
    }

    open spec fn from_spec(node: Node<T>) -> Self {
        TraverseOwned { node, strategy: PhantomData }
    }
}

impl<T, S> TraverseOwned<T, S> {
    /// The tree that the handle owns.
    pub fn node(&self) -> (node: &Node<T>)
        ensures
            *node == self.node,
    {
        &self.node
    }

    /// The tree that the handle owns, open to change.
    pub fn node_mut(&mut self) -> (node: &mut Node<T>)
        ensures
            *node == old(self).node,
            final(self).node == *final(node),
    {
        &mut self.node
    }

    /// Gives the tree back and ends the chain.
    pub fn take(self) -> (node: Node<T>)
        ensures
            node == self.node,
    {
        self.node
    }

    /// Chooses the walk from each node to its children; as a walk value by
    /// value it has all of the tree to yield.
    pub fn pre(self) -> (handle: InPreOwned<T, S>)
        ensures
            handle.next@ == seq![self.node],
            pending_pre(handle.next@) == self.node.visits::<Preorder>(),
    {
        let mut next: Vec<Node<T>> = Vec::new();
        next.push(self.node);
        proof {
            assert(next@ =~= seq![self.node]);
            lemma_pending_pre_fresh(self.node);
        }
        InPreOwned { next, strategy: PhantomData }
    }

    /// Chooses the walk from the children of each node to the node; as a
    /// walk node by node it has all of the tree to yield.
    pub fn post(self) -> (handle: InPostOwned<T, S>)
        ensures
            handle.next@ == seq![self.node],
            pending_post_values(handle.next@) == values(self.node.visits::<Postorder>()),
    {
        let mut next: Vec<Node<T>> = Vec::new();
        next.push(self.node);
        proof {
            assert(next@ =~= seq![self.node]);
            assert(next@.last() == self.node);
            assert(next@.drop_last() =~= Seq::<Node<T>>::empty());
            assert(pending_post_values(next@.drop_last()) =~= Seq::<T>::empty());
            assert(pending_post_values(next@) =~= values(self.node.visits::<Postorder>()));
        }
        InPostOwned { next, strategy: PhantomData }
    }
}

impl<T> TraverseOwned<T, Synchronous> {
    /// A sequential handle that owns `node`.
    pub fn new(node: Node<T>) -> (handle: Self)
        ensures
            handle.node == node,
    {
        TraverseOwned { node, strategy: PhantomData }
    }

    /// Tags the handle for concurrent fan-out; the tree is not copied.
    pub fn into_async(self) -> (handle: TraverseOwned<T, Asynchronous>) where T: Sync + Send
        ensures
            handle.node == self.node,
    {
        TraverseOwned { node: self.node, strategy: PhantomData }
    }

    /// Consumes the tree and hands the value of every node to `f`, each
    /// after those of its children.
    pub fn for_each<F>(self, f: F) where F: FnMut(T)
        requires
            forall|node: Node<T>| self.node.has(node) ==> call_requires(f, (node.value,)),
        ensures
            forall|k: int|
                0 <= k < self.node.visits::<Postorder>().len() ==> call_ensures(
                    f,
                    ((#[trigger] self.node.visits::<Postorder>()[k]).value,),
                    (),
                ),
    {
        let mut f = f;
        for_each_owned_immersion(self.node, &mut f);
    }

    /// Consumes the tree and builds one of the same shape: `f` is called on
    /// the value and the children of each node, before the children are
    /// consumed.
    pub fn map<F, R>(self, f: F) -> (out: TraverseOwned<R, Synchronous>) where
        F: FnMut(T, &[Node<T>]) -> R,

        requires
            forall|node: Node<T>, below: &[Node<T>]|
                self.node.has(node) ==> call_requires(f, (node.value, below)),
        ensures
            mapped_owned(f, self.node, out.node),
            out.node@.same_shape(self.node@),
    {
        let mut f = f;
        let out = map_owned_immersion(self.node, &mut f);
        proof {
            lemma_built_shape(
                self.node,
                out,
                |node: Node<T>, value: R|
                    exists|below: &[Node<T>]|
                        below@ == node.children@ && #[trigger] call_ensures(
                            f,
                            (node.value, below),
                            value,
                        ),
            );
        }
        TraverseOwned::new(out)
    }

    /// Consumes the tree and folds it into one value: `f` is called on the
    /// value of each node after its children, with their results in child
    /// order.
    pub fn reduce<F, R>(self, f: F) -> (result: R) where F: FnMut(T, Vec<R>) -> R
        requires
            forall|node: Node<T>, results: Vec<R>|
                self.node.has(node) ==> call_requires(f, (node.value, results)),
        ensures
            reduced_owned(f, self.node, result),
    {
        let mut f = f;
        reduce_owned_immersion(self.node, &mut f)
    }

    /// Runs `f` down the tree and gives the handle back: the tree is lent to
    /// `f` node by node, each before its children, with what `f` returned
    /// for the parent of the node, and with `base` on the root.
    pub fn cascade<F, R>(self, base: R, f: F) -> (handle: Self) where
        F: FnMut(&mut Node<T>, &R) -> R,

        requires
            forall|node: &mut Node<T>, handed: &R| call_requires(f, (node, handed)),
            forall|node: &mut Node<T>, handed: &R, out: R| #[trigger]
                call_ensures(f, (node, handed), out) ==> final(node).children@ == node.children@,
        ensures
            handle.node@.same_shape(self.node@),
            forall|value: spec_fn(Tree<T>, R) -> T, down: spec_fn(Tree<T>, R) -> R|
                #![trigger self.node@.cascaded(base, value, down)]
                (forall|node: &mut Node<T>, handed: &R, out: R| #[trigger]
                    call_ensures(f, (node, handed), out) ==> final(node).value == value(
                        node@,
                        *handed,
                    ) && out == down(node@, *handed)) ==> handle.node@ == self.node@.cascaded(
                    base,
                    value,
                    down,
                ),
    {
        let mut f = f;
        let mut handle = self;
        cascade_mut_immersion(&mut handle.node, &base, &mut f);
        handle
    }
}

impl<T> InPreOwned<T, Synchronous> {
    /// Consumes the tree and builds one of the same shape: `pre` is called on
    /// the value of each node before its children, with the new value of the
    /// parent of the node, and with `base` on the root.
    pub fn map<R, F>(self, base: R, pre: F) -> (out: Node<R>) where F: FnMut(T, &R) -> R
        requires
            self.next@.len() > 0,
            forall|node: Node<T>, handed: &R|
                self.next@[0].has(node) ==> call_requires(pre, (node.value, handed)),
        ensures
            mapped_down_owned(pre, self.next@[0], base, out),
            out@.same_shape(self.next@[0]@),
    {
        let mut pre = pre;
        let mut handle = self;
        let root = handle.next.remove(0);
        let out = map_down_owned_immersion(root, &base, &mut pre);
        proof {
            lemma_built_down_shape(
                self.next@[0],
                base,
                out,
                |node: Node<T>, handed: R, value: R| call_ensures(pre, (node.value, &handed), value),
            );
        }
        out
    }

    /// Consumes the tree and runs `f` down it: on the value of each node
    /// before its children, with what `f` returned for the parent of the
    /// node, and with `base` on the root. The handle that comes back holds
    /// what was on top of the tree.
    pub fn cascade<F, R>(self, base: R, f: F) -> (handle: Self) where F: FnMut(T, &R) -> R
        requires
            self.next@.len() > 0,
            forall|node: Node<T>, handed: &R|
                self.next@[0].has(node) ==> call_requires(f, (node.value, handed)),
        ensures
            handle.next@ == self.next@.remove(0),
            cascaded_owned(f, self.next@[0], base),
    {
        let mut f = f;
        let mut handle = self;
        let root = handle.next.remove(0);
        cascade_owned_immersion(root, &base, &mut f);
        handle
    }
}

impl<T> InPostOwned<T, Synchronous> {
    /// Consumes the tree and folds it into one value: `post` is called on the
    /// value of each node after its children, with a view of their results
    /// in child order.
    pub fn reduce<R, F>(self, post: F) -> (result: R) where F: FnMut(T, &[R]) -> R
        requires
            self.next@.len() > 0,
            forall|node: Node<T>, results: &[R]|
                self.next@[0].has(node) ==> call_requires(post, (node.value, results)),
        ensures
            reduced_up_owned(post, self.next@[0], result),
    {
        let mut post = post;
        let mut handle = self;
        let root = handle.next.remove(0);
        reduce_up_owned_immersion(root, &mut post)
    }

    /// Consumes the tree and builds one of the same shape: `post` is called
    /// on the value of each node after its children, with the children of
    /// the new node.
    pub fn map<R, F>(self, post: F) -> (out: Node<R>) where F: FnMut(T, &[Node<R>]) -> R
        requires
            self.next@.len() > 0,
            forall|node: Node<T>, built: &[Node<R>]|
                self.next@[0].has(node) ==> call_requires(post, (node.value, built)),
        ensures
            mapped_up_owned(post, self.next@[0], out),
            out@.same_shape(self.next@[0]@),
    {
        let mut post = post;
        let mut handle = self;
        let root = handle.next.remove(0);
        let out = map_up_owned_immersion(root, &mut post);
        proof {
            lemma_built_up_shape(
                self.next@[0],
                out,
                |count: nat| count,
                |node: Node<T>, built: Seq<Node<R>>, value: R|
                    exists|seen: &[Node<R>]|
                        seen@ == built && #[trigger] call_ensures(post, (node.value, seen), value),
            );
        }
        out
    }

    /// Keeps `pre` to be run on each node before its children.
    pub fn with_pre<R, F>(self, pre: F) -> (handle: PrePostOwned<T, R, F, Synchronous>) where
        F: FnMut(&mut Node<T>, &R) -> R,

        requires
            self.next@.len() > 0,
        ensures
            handle.node == self.next@[0],
            handle.pre == pre,
    {
        let mut owner = self;
        let node = owner.next.remove(0);
        PrePostOwned { node, pre, r: PhantomData, strategy: PhantomData }
    }
}

impl<T, R, F> PrePostOwned<T, R, F, Synchronous> where F: FnMut(&mut Node<T>, &R) -> R {
    /// Consumes the tree and folds it into one value: the kept closure is
    /// called on each node before its children, with what it returned for the
    /// parent of the node and with `base` on the root; `post` is called on
    /// the value of each node after its children, with what the kept closure
    /// returned for the node and the results of the children.
    pub fn reduce<U, P>(self, base: R, post: P) -> (result: U) where P: FnMut(T, R, Vec<U>) -> U
        requires
            forall|node: &mut Node<T>, handed: &R| call_requires(self.pre, (node, handed)),
            forall|value: T, handed: R, results: Vec<U>|
                call_requires(post, (value, handed, results)),
            forall|node: &mut Node<T>, handed: &R, out: R| #[trigger]
                call_ensures(self.pre, (node, handed), out) ==> final(node).children@
                    == node.children@,
        ensures
            forall|
                entering: spec_fn(Tree<T>, R) -> T,
                down: spec_fn(Tree<T>, R) -> R,
                folding: spec_fn(T, R, Seq<U>) -> U,
            |
                #![trigger self.node@.folded_owned(base, entering, down, folding)]
                (forall|node: &mut Node<T>, handed: &R, out: R| #[trigger]
                    call_ensures(self.pre, (node, handed), out) ==> final(node).value == entering(
                        node@,
                        *handed,
                    ) && out == down(node@, *handed)) && (forall|
                    value: T,
                    handed: R,
                    results: Vec<U>,
                    out: U,
                | #[trigger]
                    call_ensures(post, (value, handed, results), out) ==> out == folding(
                        value,
                        handed,
                        results@,
                    )) ==> result == self.node@.folded_owned(base, entering, down, folding),
    {
        let mut pre = self.pre;
        let mut post = post;
        reduce_both_owned_immersion(self.node, &base, &mut pre, &mut post)
    }

    /// Consumes the tree and builds one of the same shape: the kept closure
    /// is called on each node before its children, with what it returned for
    /// the parent of the node and with `base` on the root; `post` is called
    /// on the value of each node after its children, with what the kept
    /// closure returned for the node and the children of the new node.
    pub fn map<U, P>(self, base: R, post: P) -> (out: Node<U>) where
        P: FnMut(T, R, &[Node<U>]) -> U,

        requires
            forall|node: &mut Node<T>, handed: &R| call_requires(self.pre, (node, handed)),
            forall|value: T, handed: R, built: &[Node<U>]|
                call_requires(post, (value, handed, built)),
            forall|node: &mut Node<T>, handed: &R, out: R| #[trigger]
                call_ensures(self.pre, (node, handed), out) ==> final(node).children@
                    == node.children@,
        ensures
            out@.same_shape(self.node@),
            forall|
                entering: spec_fn(Tree<T>, R) -> T,
                down: spec_fn(Tree<T>, R) -> R,
                building: spec_fn(T, R, Seq<Tree<U>>) -> U,
            |
                #![trigger self.node@.built_owned(base, entering, down, building)]
                (forall|node: &mut Node<T>, handed: &R, out: R| #[trigger]
                    call_ensures(self.pre, (node, handed), out) ==> final(node).value == entering(
                        node@,
                        *handed,
                    ) && out == down(node@, *handed)) && (forall|
                    value: T,
                    handed: R,
                    built: &[Node<U>],
                    out: U,
                | #[trigger]
                    call_ensures(post, (value, handed, built), out) ==> out == building(
                        value,
                        handed,
                        Node::forest(built@),
                    )) ==> out@ == self.node@.built_owned(base, entering, down, building),
    {
        let mut pre = self.pre;
        let mut post = post;
        map_both_owned_immersion(self.node, &base, &mut pre, &mut post)
    }
}

impl<T> TraverseOwned<T, Asynchronous> {
    /// Tags the handle for direct recursion; the tree is not copied.
    pub fn into_sync(self) -> (handle: TraverseOwned<T, Synchronous>)
        ensures
            handle.node == self.node,
    {
        TraverseOwned { node: self.node, strategy: PhantomData }
    }
}

/// Folds the tree of `root`: `pre` is called on each node before its
/// children, with what it returned for the parent of the node; `post` is
/// called on the value of each node after its children, with what `pre`
/// returned for the node and the results of the children.
pub fn reduce_both_owned_immersion<T, R, U, F, P>(
    root: Node<T>,
    base: &R,
    pre: &mut F,
    post: &mut P,
) -> (result: U)
    where F: FnMut(&mut Node<T>, &R) -> R, P: FnMut(T, R, Vec<U>) -> U
    requires
        forall|node: &mut Node<T>, handed: &R| call_requires(*old(pre), (node, handed)),
        forall|value: T, handed: R, results: Vec<U>|
            call_requires(*old(post), (value, handed, results)),
        forall|node: &mut Node<T>, handed: &R, out: R| #[trigger]
            call_ensures(*old(pre), (node, handed), out) ==> final(node).children@
                == node.children@,
    ensures
        *final(pre) == *old(pre),
        *final(post) == *old(post),
        forall|
            entering: spec_fn(Tree<T>, R) -> T,
            down: spec_fn(Tree<T>, R) -> R,
            folding: spec_fn(T, R, Seq<U>) -> U,
        |
            #![trigger root@.folded_owned(*base, entering, down, folding)]
            (forall|node: &mut Node<T>, handed: &R, out: R| #[trigger]
                call_ensures(*old(pre), (node, handed), out) ==> final(node).value == entering(
                    node@,
                    *handed,
                ) && out == down(node@, *handed)) && (forall|
                value: T,
                handed: R,
                results: Vec<U>,
                out: U,
            | #[trigger]
                call_ensures(*old(post), (value, handed, results), out) ==> out == folding(
                    value,
                    handed,
                    results@,
                )) ==> result == root@.folded_owned(*base, entering, down, folding),
    decreases root,
{
    let mut entered = root;
    let next = pre(&mut entered, base);
    let Node { value, children } = entered;
    let mut results: Vec<U> = Vec::with_capacity(children.len());
    for child in iter: children.into_iter()
        invariant
            iter.seq() == root.children@,
            results@.len() == iter.index(),
            *pre == *old(pre),
            *post == *old(post),
            forall|node: &mut Node<T>, handed: &R| call_requires(*pre, (node, handed)),
            forall|value: T, handed: R, results: Vec<U>|
                call_requires(*post, (value, handed, results)),
            forall|node: &mut Node<T>, handed: &R, out: R| #[trigger]
                call_ensures(*pre, (node, handed), out) ==> final(node).children@
                    == node.children@,
            forall|
                entering: spec_fn(Tree<T>, R) -> T,
                down: spec_fn(Tree<T>, R) -> R,
                folding: spec_fn(T, R, Seq<U>) -> U,
                i: int,
            |
                #![trigger root@.children[i].folded_owned(next, entering, down, folding)]
                0 <= i < iter.index() && (forall|node: &mut Node<T>, handed: &R, out: R| #[trigger]
                    call_ensures(*pre, (node, handed), out) ==> final(node).value == entering(
                        node@,
                        *handed,
                    ) && out == down(node@, *handed)) && (forall|
                    value: T,
                    handed: R,
                    results: Vec<U>,
                    out: U,
                | #[trigger]
                    call_ensures(*post, (value, handed, results), out) ==> out == folding(
                        value,
                        handed,
                        results@,
                    )) ==> results@[i] == root@.children[i].folded_owned(
                    next,
                    entering,
                    down,
                    folding,
                ),
    {
        assert(child == root.children@[iter.index()]);
        assert(root@.children[iter.index()] == child@);
        let result = reduce_both_owned_immersion(child, &next, pre, post);
        results.push(result);
    }
    let ghost handed = results@;
    let result = post(value, next, results);
    proof {
        assert forall|
            entering: spec_fn(Tree<T>, R) -> T,
            down: spec_fn(Tree<T>, R) -> R,
            folding: spec_fn(T, R, Seq<U>) -> U,
        |
            (forall|node: &mut Node<T>, handed: &R, out: R| #[trigger]
                call_ensures(*old(pre), (node, handed), out) ==> final(node).value == entering(
                    node@,
                    *handed,
                ) && out == down(node@, *handed)) && (forall|
                value: T,
                handed: R,
                results: Vec<U>,
                out: U,
            | #[trigger]
                call_ensures(*old(post), (value, handed, results), out) ==> out == folding(
                    value,
                    handed,
                    results@,
                )) implies result == #[trigger] root@.folded_owned(
            *base,
            entering,
            down,
            folding,
        ) by {
            assert(next == down(root@, *base));
            assert(value == entering(root@, *base));
            let wanted = root@.folded_owned_below(next, entering, down, folding);
            assert forall|i: int| 0 <= i < handed.len() implies handed[i] == wanted[i] by {
                assert(handed[i] == root@.children[i].folded_owned(next, entering, down, folding));
            }
            assert(handed =~= wanted);
        }
    }
    result
}

/// Builds a tree from the tree of `root`: `pre` is called on each node before
/// its children, with what it returned for the parent of the node; `post` is
/// called on the value of each node after its children, with what `pre`
/// returned for the node and the children of the new node.
pub fn map_both_owned_immersion<T, R, U, F, P>(
    root: Node<T>,
    base: &R,
    pre: &mut F,
    post: &mut P,
) -> (out: Node<U>)
    where F: FnMut(&mut Node<T>, &R) -> R, P: FnMut(T, R, &[Node<U>]) -> U
    requires
        forall|node: &mut Node<T>, handed: &R| call_requires(*old(pre), (node, handed)),
        forall|value: T, handed: R, built: &[Node<U>]|
            call_requires(*old(post), (value, handed, built)),
        forall|node: &mut Node<T>, handed: &R, out: R| #[trigger]
            call_ensures(*old(pre), (node, handed), out) ==> final(node).children@
                == node.children@,
    ensures
        *final(pre) == *old(pre),
        *final(post) == *old(post),
        out@.same_shape(root@),
        forall|
            entering: spec_fn(Tree<T>, R) -> T,
            down: spec_fn(Tree<T>, R) -> R,
            building: spec_fn(T, R, Seq<Tree<U>>) -> U,
        |
            #![trigger root@.built_owned(*base, entering, down, building)]
            (forall|node: &mut Node<T>, handed: &R, out: R| #[trigger]
                call_ensures(*old(pre), (node, handed), out) ==> final(node).value == entering(
                    node@,
                    *handed,
                ) && out == down(node@, *handed)) && (forall|
                value: T,
                handed: R,
                built: &[Node<U>],
                out: U,
            | #[trigger]
                call_ensures(*old(post), (value, handed, built), out) ==> out == building(
                    value,
                    handed,
                    Node::forest(built@),
                )) ==> out@ == root@.built_owned(*base, entering, down, building),
    decreases root,
{
    let mut entered = root;
    let next = pre(&mut entered, base);
    let Node { value, children } = entered;
    let mut built: Vec<Node<U>> = Vec::with_capacity(children.len());
    for child in iter: children.into_iter()
        invariant
            iter.seq() == root.children@,
            built@.len() == iter.index(),
            *pre == *old(pre),
            *post == *old(post),
            forall|node: &mut Node<T>, handed: &R| call_requires(*pre, (node, handed)),
            forall|value: T, handed: R, built: &[Node<U>]|
                call_requires(*post, (value, handed, built)),
            forall|node: &mut Node<T>, handed: &R, out: R| #[trigger]
                call_ensures(*pre, (node, handed), out) ==> final(node).children@
                    == node.children@,
            forall|i: int|
                0 <= i < iter.index() ==> (#[trigger] built@[i])@.same_shape(root.children@[i]@),
            forall|
                entering: spec_fn(Tree<T>, R) -> T,
                down: spec_fn(Tree<T>, R) -> R,
                building: spec_fn(T, R, Seq<Tree<U>>) -> U,
                i: int,
            |
                #![trigger root@.children[i].built_owned(next, entering, down, building)]
                0 <= i < iter.index() && (forall|node: &mut Node<T>, handed: &R, out: R| #[trigger]
                    call_ensures(*pre, (node, handed), out) ==> final(node).value == entering(
                        node@,
                        *handed,
                    ) && out == down(node@, *handed)) && (forall|
                    value: T,
                    handed: R,
                    built: &[Node<U>],
                    out: U,
                | #[trigger]
                    call_ensures(*post, (value, handed, built), out) ==> out == building(
                        value,
                        handed,
                        Node::forest(built@),
                    )) ==> built@[i]@ == root@.children[i].built_owned(
                    next,
                    entering,
                    down,
                    building,
                ),
    {
        assert(child == root.children@[iter.index()]);
        assert(root@.children[iter.index()] == child@);
        let mapped = map_both_owned_immersion(child, &next, pre, post);
        built.push(mapped);
    }
    let handed = built.as_slice();
    let ghost witness = handed;
    let new_value = post(value, next, handed);
    let out = Node { value: new_value, children: built };
    proof {
        assert(witness@ == out.children@);
        out.lemma_tree();
        assert forall|
            entering: spec_fn(Tree<T>, R) -> T,
            down: spec_fn(Tree<T>, R) -> R,
            building: spec_fn(T, R, Seq<Tree<U>>) -> U,
        |
            (forall|node: &mut Node<T>, handed: &R, out: R| #[trigger]
                call_ensures(*old(pre), (node, handed), out) ==> final(node).value == entering(
                    node@,
                    *handed,
                ) && out == down(node@, *handed)) && (forall|
                value: T,
                handed: R,
                built: &[Node<U>],
                out: U,
            | #[trigger]
                call_ensures(*old(post), (value, handed, built), out) ==> out == building(
                    value,
                    handed,
                    Node::forest(built@),
                )) implies out@ == #[trigger] root@.built_owned(
            *base,
            entering,
            down,
            building,
        ) by {
            assert(next == down(root@, *base));
            assert(value == entering(root@, *base));
            let wanted = root@.built_owned(*base, entering, down, building);
            assert forall|i: int| 0 <= i < out@.children.len() implies out@.children[i]
                == wanted.children[i] by {
                assert(out.children@[i]@ == root@.children[i].built_owned(
                    next,
                    entering,
                    down,
                    building,
                ));
            }
            assert(out@.children =~= wanted.children);
        }
    }
    out
}

} // verus!
