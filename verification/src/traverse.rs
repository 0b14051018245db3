//! Traversal of a tree through a shared reference: the source is left as it is.

use crate::iterator::{
    lemma_pending_post_fresh, lemma_pending_pre_fresh, pending_post, pending_pre, referred,
    referred_entered,
};
use crate::node::Node;
use crate::order::{ordered, schedule, Order, OrderFlow, Postorder, Preorder};
use crate::relation::{
    built, built_both, built_down, built_up, folded_both, folded_up, handed_down,
    lemma_built_both_shape, lemma_built_down_shape, lemma_built_shape, lemma_built_up_shape,
};
use crate::strategy::{Asynchronous, Synchronous};
use crate::traverse_owned::TraverseOwned;
use core::marker::PhantomData;
use vstd::prelude::*;

verus! {

/// A handle on a tree that is borrowed for reading.
pub struct Traverse<'a, T, S> {
    pub node: &'a Node<T>,
    pub strategy: PhantomData<S>,
}

/// A borrowed tree to be walked from each node to its children.
pub struct InPre<'a, T, S> {
    pub node: &'a Node<T>,
    /// The roots of the subtrees that `next` has yet to yield, the first on top.
    pub next: Vec<&'a Node<T>>,
    pub strategy: PhantomData<S>,
}

/// A borrowed tree to be walked from the children of each node to the node.
pub struct InPost<'a, T, S> {
    pub node: &'a Node<T>,
    /// The nodes that `next` has entered and not yet yielded, each with the
    /// number of its children that have been entered, the deepest on top.
    pub next: Vec<(&'a Node<T>, usize)>,
    pub strategy: PhantomData<S>,
}

/// A borrowed tree to be walked both ways at once, with the closure that is
/// run on the way down.
pub struct PrePost<'a, T, R, F, S> {
    pub node: &'a Node<T>,
    pub pre: F,
    pub r: PhantomData<R>,
    pub strategy: PhantomData<S>,
}

impl<'a, T, S> From<&'a Node<T>> for Traverse<'a, T, S> {
    fn from(node: &'a Node<T>) -> (handle: Self) {
        Traverse { node, strategy: PhantomData }
    }
}

impl<'a, T, S> vstd::std_specs::convert::FromSpecImpl<&'a Node<T>> for Traverse<'a, T, S> {
    open spec fn obeys_from_spec() -> bool {
        true
    }

    open spec fn from_spec(node: &'a Node<T>) -> Self {
        Traverse { node, strategy: PhantomData }
    }
}

impl<'a, T, S> Traverse<'a, T, S> {
    /// The tree that the handle is bound to.
    pub fn node(&self) -> (node: &Node<T>)
        ensures
            node == self.node,
    {
        self.node
    }

    /// Chooses the walk from each node to its children; as a walk node by
    /// node it has all of the tree to yield.
    pub fn pre(self) -> (handle: InPre<'a, T, S>)
        ensures
            handle.node == self.node,
            handle.next@ == seq![self.node],
            pending_pre(referred(handle.next@)) == self.node.visits::<Preorder>(),
    {
        let mut next: Vec<&'a Node<T>> = Vec::new();
        next.push(self.node);
        proof {
            assert(referred(next@) =~= seq![*self.node]);
            lemma_pending_pre_fresh(*self.node);
        }
        InPre { node: self.node, next, strategy: PhantomData }
    }

    /// Chooses the walk from the children of each node to the node; as a
    /// walk node by node it has all of the tree to yield.
    pub fn post(self) -> (handle: InPost<'a, T, S>)
        ensures
            handle.node == self.node,
            handle.next@ == seq![(self.node, 0usize)],
            pending_post(referred_entered(handle.next@)) == self.node.visits::<Postorder>(),
    {
        let mut next: Vec<(&'a Node<T>, usize)> = Vec::new();
        next.push((self.node, 0));
        proof {
            assert(referred_entered(next@) =~= seq![(*self.node, 0usize)]);
            lemma_pending_post_fresh(*self.node);
        }
        InPost { node: self.node, next, strategy: PhantomData }
    }
}

impl<'a, T> Traverse<'a, T, Asynchronous> {
    /// Tags the handle for direct recursion; the tree is not copied.
    pub fn into_sync(self) -> (handle: Traverse<'a, T, Synchronous>)
        ensures
            handle.node == self.node,
    {
        Traverse { node: self.node, strategy: PhantomData }
    }
}

impl<'a, T> Traverse<'a, T, Synchronous> {
    /// A sequential handle on `node`.
    pub fn new(node: &'a Node<T>) -> (handle: Self)
        ensures
            handle.node == node,
    {
        Traverse { node, strategy: PhantomData }
    }

    /// Tags the handle for concurrent fan-out; the tree is not copied.
    pub fn into_async(self) -> (handle: Traverse<'a, T, Asynchronous>) where T: Sync + Send
        ensures
            handle.node == self.node,
    {
        Traverse { node: self.node, strategy: PhantomData }
    }

    /// Calls `f` on every node of the tree, each after its children, and
    /// gives the handle back.
    pub fn for_each<F>(self, f: F) -> (handle: Self) where F: FnMut(&Node<T>)
        requires
            forall|node: Node<T>| self.node.has(node) ==> call_requires(f, (&node,)),
        ensures
            handle == self,
            forall|k: int|
                0 <= k < self.node.visits::<Postorder>().len() ==> call_ensures(
                    f,
                    (&#[trigger] self.node.visits::<Postorder>()[k],),
                    (),
                ),
    {
        let mut f = f;
        for_each_immersion::<Postorder, T, F>(self.node, &mut f);
        self
    }

    /// Calls `f` on every node of the tree, each before its children.
    pub fn preorder<F>(&self, f: F) where F: FnMut(&Node<T>)
        requires
            forall|node: Node<T>| self.node.has(node) ==> call_requires(f, (&node,)),
        ensures
            forall|k: int|
                0 <= k < self.node.visits::<Preorder>().len() ==> call_ensures(
                    f,
                    (&#[trigger] self.node.visits::<Preorder>()[k],),
                    (),
                ),
    {
        let mut f = f;
        for_each_immersion::<Preorder, T, F>(self.node, &mut f);
    }

    /// Calls `f` on every node of the tree, each after its children.
    pub fn postorder<F>(&self, f: F) where F: FnMut(&Node<T>)
        requires
            forall|node: Node<T>| self.node.has(node) ==> call_requires(f, (&node,)),
        ensures
            forall|k: int|
                0 <= k < self.node.visits::<Postorder>().len() ==> call_ensures(
                    f,
                    (&#[trigger] self.node.visits::<Postorder>()[k],),
                    (),
                ),
    {
        let mut f = f;
        for_each_immersion::<Postorder, T, F>(self.node, &mut f);
    }

    /// Builds a tree of the same shape whose values are what `f` returns for
    /// the nodes of this one; `f` is called on each node before its children.
    pub fn map<F, R>(self, f: F) -> (out: TraverseOwned<R, Synchronous>) where
        F: FnMut(&Node<T>) -> R,

        requires
            forall|node: Node<T>| self.node.has(node) ==> call_requires(f, (&node,)),
        ensures
            mapped(f, *self.node, out.node),
            out.node@.same_shape(self.node@),
    {
        let mut f = f;
        let out = map_immersion(self.node, &mut f);
        proof {
            lemma_built_shape(
                *self.node,
                out,
                |node: Node<T>, value: R| call_ensures(f, (&node,), value),
            );
        }
        TraverseOwned::new(out)
    }

    /// Folds the tree into one value: `f` is called on each node after its
    /// children, with their results in child order.
    pub fn reduce<F, R>(self, f: F) -> (result: R) where F: FnMut(&Node<T>, Vec<R>) -> R
        requires
            forall|node: Node<T>, results: Vec<R>|
                self.node.has(node) ==> call_requires(f, (&node, results)),
        ensures
            reduced(f, *self.node, result),
    {
        let mut f = f;
        reduce_immersion(self.node, &mut f)
    }

    /// Runs `f` down the tree and gives the handle back: `f` is called on
    /// each node before its children, with what it returned for the parent
    /// of the node, and with `base` on the root.
    pub fn cascade<F, R>(self, base: R, f: F) -> (handle: Self) where
        F: FnMut(&Node<T>, &R) -> R,

        requires
            forall|node: Node<T>, handed: &R|
                self.node.has(node) ==> call_requires(f, (&node, handed)),
        ensures
            handle == self,
            cascaded(f, *self.node, base),
    {
        let mut f = f;
        cascade_immersion(self.node, &base, &mut f);
        self
    }
}

impl<'a, T> InPre<'a, T, Synchronous> {
    /// Runs `f` down the tree and gives the handle back: `f` is called on
    /// each node before its children, with what it returned for the parent
    /// of the node, and with `base` on the root.
    pub fn cascade<F, R>(self, base: R, f: F) -> (handle: Self) where
        F: FnMut(&Node<T>, &R) -> R,

        requires
            forall|node: Node<T>, handed: &R|
                self.node.has(node) ==> call_requires(f, (&node, handed)),
        ensures
            handle == self,
            cascaded(f, *self.node, base),
    {
        let mut f = f;
        cascade_immersion(self.node, &base, &mut f);
        self
    }

    /// Builds a tree of the same shape: `pre` is called on each node before
    /// its children, with the new value of the parent of the node, and with
    /// `base` on the root.
    pub fn map<R, F>(self, base: R, pre: F) -> (out: Node<R>) where F: FnMut(&Node<T>, &R) -> R
        requires
            forall|node: Node<T>, handed: &R|
                self.node.has(node) ==> call_requires(pre, (&node, handed)),
        ensures
            mapped_down(pre, *self.node, base, out),
            out@.same_shape(self.node@),
    {
        let mut pre = pre;
        let out = map_down_immersion(self.node, &base, &mut pre);
        proof {
            lemma_built_down_shape(
                *self.node,
                base,
                out,
                |node: Node<T>, handed: R, value: R| call_ensures(pre, (&node, &handed), value),
            );
        }
        out
    }
}

impl<'a, T> InPost<'a, T, Synchronous> {
    /// Folds the tree into one value: `f` is called on each node after its
    /// children, with their results in child order.
    pub fn reduce<F, R>(self, f: F) -> (result: R) where F: FnMut(&Node<T>, Vec<R>) -> R
        requires
            forall|node: Node<T>, results: Vec<R>|
                self.node.has(node) ==> call_requires(f, (&node, results)),
        ensures
            reduced(f, *self.node, result),
    {
        let mut f = f;
        reduce_immersion(self.node, &mut f)
    }

    /// Builds a tree of the same shape: `post` is called on each node after
    /// its children, with the children of the new node.
    pub fn map<F, R>(self, post: F) -> (out: Node<R>) where
        F: FnMut(&Node<T>, &[Node<R>]) -> R,

        requires
            forall|node: Node<T>, built: &[Node<R>]|
                self.node.has(node) ==> call_requires(post, (&node, built)),
        ensures
            mapped_in_order::<Postorder, T, R, F>(post, *self.node, out),
            out@.same_shape(self.node@),
    {
        let mut post = post;
        let out = map_in_order_immersion::<Postorder, T, R, F>(self.node, &mut post);
        proof {
            lemma_built_up_shape(
                *self.node,
                out,
                |count: nat| Postorder::position(count),
                |node: Node<T>, built: Seq<Node<R>>, value: R|
                    exists|seen: &[Node<R>]|
                        seen@ == built && #[trigger] call_ensures(post, (&node, seen), value),
            );
        }
        out
    }

    /// Keeps `pre` to be run on each node before its children.
    pub fn with_pre<R, F>(self, pre: F) -> (handle: PrePost<'a, T, R, F, Synchronous>) where
        F: FnMut(&Node<T>, &R) -> R,

        ensures
            handle.node == self.node,
            handle.pre == pre,
    {
        PrePost { node: self.node, pre, r: PhantomData, strategy: PhantomData }
    }
}

impl<'a, T, R, F> PrePost<'a, T, R, F, Synchronous> where F: FnMut(&Node<T>, &R) -> R {
    /// Folds the tree into one value: the kept closure is called on each node
    /// before its children, with what it returned for the parent of the node
    /// and with `base` on the root; `post` is called on each node after its
    /// children, with what the kept closure returned for the node and the
    /// results of the children.
    pub fn reduce<U, P>(self, base: R, post: P) -> (result: U) where
        P: FnMut(&Node<T>, &R, Vec<U>) -> U,

        requires
            forall|node: Node<T>, handed: &R|
                self.node.has(node) ==> call_requires(self.pre, (&node, handed)),
            forall|node: Node<T>, handed: &R, results: Vec<U>|
                self.node.has(node) ==> call_requires(post, (&node, handed, results)),
        ensures
            reduced_both(self.pre, post, *self.node, base, result),
    {
        let mut pre = self.pre;
        let mut post = post;
        reduce_both_immersion(self.node, &base, &mut pre, &mut post)
    }

    /// Builds a tree of the same shape: the kept closure is called on each
    /// node before its children, with what it returned for the parent of the
    /// node and with `base` on the root; `post` is called on each node after
    /// its children, with what the kept closure returned for the node and the
    /// children of the new node.
    pub fn map<U, P>(self, base: R, post: P) -> (out: Node<U>) where
        P: FnMut(&Node<T>, &R, &[Node<U>]) -> U,

        requires
            forall|node: Node<T>, handed: &R|
                self.node.has(node) ==> call_requires(self.pre, (&node, handed)),
            forall|node: Node<T>, handed: &R, built: &[Node<U>]|
                self.node.has(node) ==> call_requires(post, (&node, handed, built)),
        ensures
            mapped_both(self.pre, post, *self.node, base, out),
            out@.same_shape(self.node@),
    {
        let mut pre = self.pre;
        let mut post = post;
        let out = map_both_immersion(self.node, &base, &mut pre, &mut post);
        proof {
            lemma_built_both_shape(
                *self.node,
                base,
                out,
                |node: Node<T>, handed: R, next: R| call_ensures(pre, (&node, &handed), next),
                |node: Node<T>, handed: R, built: Seq<Node<U>>, value: U|
                    exists|seen: &[Node<U>]|
                        seen@ == built && #[trigger] call_ensures(
                            post,
                            (&node, &handed, seen),
                            value,
                        ),
            );
        }
        out
    }
}

/// Whether `out` is a tree that `f` can build from `src`: the two have the same
/// children at every position, and the value of each node of `out` is what
/// `f` returned for the node of `src` at its place.
pub open spec fn mapped<T, R, F>(f: F, src: Node<T>, out: Node<R>) -> bool
    where F: FnMut(&Node<T>) -> R
{
    built(src, out, |node: Node<T>, value: R| call_ensures(f, (&node,), value))
}

/// Whether `out` is a tree that `f` can build from `src` when each node is
/// handed what `f` returned for its parent, and the root is handed `base`.
pub open spec fn mapped_down<T, R, F>(f: F, src: Node<T>, base: R, out: Node<R>) -> bool
    where F: FnMut(&Node<T>, &R) -> R
{
    built_down(
        src,
        base,
        out,
        |node: Node<T>, handed: R, value: R| call_ensures(f, (&node, &handed), value),
    )
}

/// Whether `out` is a tree that `f` can build from `src` under the policy `O`:
/// the two have the same children at every position, and the value of each
/// node of `out` is what `f` returned for the node of `src` at its place and
/// the children of `out` that were built before the node was evaluated.
pub open spec fn mapped_in_order<O: Order, T, R, F>(f: F, src: Node<T>, out: Node<R>) -> bool
    where F: FnMut(&Node<T>, &[Node<R>]) -> R
{
    built_up(
        src,
        out,
        |count: nat| O::position(count),
        |node: Node<T>, built: Seq<Node<R>>, value: R|
            exists|seen: &[Node<R>]|
                seen@ == built && #[trigger] call_ensures(f, (&node, seen), value),
    )
}

/// Whether `result` is what `f` can fold the tree of `src` into: `f` returned
/// it for `src` and the results of the children of `src`, in child order.
pub open spec fn reduced<T, R, F>(f: F, src: Node<T>, result: R) -> bool
    where F: FnMut(&Node<T>, Vec<R>) -> R
{
    folded_up(
        src,
        result,
        |node: Node<T>, results: Seq<R>, value: R|
            exists|handed: Vec<R>|
                handed@ == results && #[trigger] call_ensures(f, (&node, handed), value),
    )
}

/// Whether `f` has been run down the tree of `src`: on `src` with `base`, and
/// on each child with what `f` returned for its parent.
pub open spec fn cascaded<T, R, F>(f: F, src: Node<T>, base: R) -> bool
    where F: FnMut(&Node<T>, &R) -> R
{
    handed_down(
        src,
        base,
        |node: Node<T>, handed: R, next: R| call_ensures(f, (&node, &handed), next),
    )
}

/// Whether `result` is what `pre` and `post` can fold the tree of `src` into:
/// `pre` runs down the tree from `base`, and `post` returned `result` for
/// `src`, what `pre` returned for it, and the results of its children.
pub open spec fn reduced_both<T, R, U, F, P>(
    pre: F,
    post: P,
    src: Node<T>,
    base: R,
    result: U,
) -> bool
    where F: FnMut(&Node<T>, &R) -> R, P: FnMut(&Node<T>, &R, Vec<U>) -> U
{
    folded_both(
        src,
        base,
        result,
        |node: Node<T>, handed: R, next: R| call_ensures(pre, (&node, &handed), next),
        |node: Node<T>, handed: R, results: Seq<U>, value: U|
            exists|given: Vec<U>|
                given@ == results && #[trigger] call_ensures(post, (&node, &handed, given), value),
    )
}

/// Whether `out` is a tree that `pre` and `post` can build from `src`: `pre`
/// runs down the tree from `base`, and the value of each node of `out` is
/// what `post` returned for the node of `src` at its place, what `pre`
/// returned for it, and the children of that node of `out`.
pub open spec fn mapped_both<T, R, U, F, P>(
    pre: F,
    post: P,
    src: Node<T>,
    base: R,
    out: Node<U>,
) -> bool
    where F: FnMut(&Node<T>, &R) -> R, P: FnMut(&Node<T>, &R, &[Node<U>]) -> U
{
    built_both(
        src,
        base,
        out,
        |node: Node<T>, handed: R, next: R| call_ensures(pre, (&node, &handed), next),
        |node: Node<T>, handed: R, built: Seq<Node<U>>, value: U|
            exists|seen: &[Node<U>]|
                seen@ == built && #[trigger] call_ensures(post, (&node, &handed, seen), value),
    )
}

/// Evaluates every node of the tree of `root` with `f`, in the order of the
/// policy `O`.
pub fn for_each_immersion<O: Order, T, F>(root: &Node<T>, f: &mut F)
    where F: FnMut(&Node<T>)
    requires
        forall|node: Node<T>| root.has(node) ==> call_requires(*old(f), (&node,)),
    ensures
        *final(f) == *old(f),
        forall|k: int|
            0 <= k < root.visits::<O>().len() ==> call_ensures(
                *old(f),
                (&#[trigger] root.visits::<O>()[k],),
                (),
            ),
    decreases root,
{
    let plan = schedule::<O, T>(root);
    let ghost count = root.children@.len();
    let ghost position = O::position(count);
    proof {
        assert(root.children.len() == count);
        O::lemma_lawful(count);
        root.lemma_visits_until::<O>(0);
    }
    let mut step: usize = 0;
    while step < plan.len()
        invariant
            count == root.children@.len(),
            position == O::position(count),
            position <= count,
            plan@ == ordered(position, count),
            step <= plan.len(),
            *f == *old(f),
            forall|node: Node<T>| root.has(node) ==> call_requires(*f, (&node,)),
            forall|k: int|
                0 <= k < root.visits_until::<O>(step as int).len() ==> call_ensures(
                    *f,
                    (&#[trigger] root.visits_until::<O>(step as int)[k],),
                    (),
                ),
        decreases plan.len() - step,
    {
        let ghost done = root.visits_until::<O>(step as int);
        proof {
            assert(step <= count);
            root.lemma_visits_until::<O>(step as int);
        }
        match plan[step] {
            OrderFlow::EvaluateSelf => {
                assert(step == position);
                assert(root.has(*root));
                f(root);
            },
            OrderFlow::ContinueWith(index) => {
                assert(index < count);
                let child = &root.children[index];
                assert forall|node: Node<T>| child.has(node) implies call_requires(
                    *f,
                    (&node,),
                ) by {
                    assert(root.has(node));
                }
                for_each_immersion::<O, T, F>(child, f);
            },
        }
        step += 1;
    }
    proof {
        assert(step == count + 1);
    }
}

/// Builds a tree from the tree of `root`: `f` is called on each node before
/// its children.
pub fn map_immersion<T, R, F>(root: &Node<T>, f: &mut F) -> (out: Node<R>)
    where F: FnMut(&Node<T>) -> R
    requires
        forall|node: Node<T>| root.has(node) ==> call_requires(*old(f), (&node,)),
    ensures
        *final(f) == *old(f),
        mapped(*old(f), *root, out),
    decreases root,
{
    assert(root.has(*root));
    let value = f(root);
    let mut children: Vec<Node<R>> = Vec::with_capacity(root.children.len());
    let mut index: usize = 0;
    while index < root.children.len()
        invariant
            index <= root.children@.len(),
            children@.len() == index,
            *f == *old(f),
            forall|node: Node<T>| root.has(node) ==> call_requires(*f, (&node,)),
            forall|i: int|
                0 <= i < index ==> mapped(*f, root.children@[i], #[trigger] children@[i]),
        decreases root.children@.len() - index,
    {
        let child = &root.children[index];
        assert forall|node: Node<T>| child.has(node) implies call_requires(*f, (&node,)) by {
            assert(root.has(node));
        }
        let built = map_immersion(child, f);
        children.push(built);
        index += 1;
    }
    Node { value, children }
}

/// Builds a tree from the tree of `root`: `f` is called on each node before
/// its children, with what it returned for the parent of the node.
pub fn map_down_immersion<T, R, F>(root: &Node<T>, base: &R, f: &mut F) -> (out: Node<R>)
    where F: FnMut(&Node<T>, &R) -> R
    requires
        forall|node: Node<T>, handed: &R| root.has(node) ==> call_requires(*old(f), (&node, handed)),
    ensures
        *final(f) == *old(f),
        mapped_down(*old(f), *root, *base, out),
    decreases root,
{
    assert(root.has(*root));
    let value = f(root, base);
    let mut children: Vec<Node<R>> = Vec::with_capacity(root.children.len());
    let mut index: usize = 0;
    while index < root.children.len()
        invariant
            index <= root.children@.len(),
            children@.len() == index,
            *f == *old(f),
            forall|node: Node<T>, handed: &R| root.has(node) ==> call_requires(*f, (&node, handed)),
            forall|i: int|
                0 <= i < index ==> mapped_down(
                    *f,
                    root.children@[i],
                    value,
                    #[trigger] children@[i],
                ),
        decreases root.children@.len() - index,
    {
        let child = &root.children[index];
        assert forall|node: Node<T>, handed: &R| child.has(node) implies call_requires(
            *f,
            (&node, handed),
        ) by {
            assert(root.has(node));
        }
        let built = map_down_immersion(child, &value, f);
        children.push(built);
        index += 1;
    }
    Node { value, children }
}

/// Folds the tree of `root`: `f` is called on each node after its children,
/// with their results in child order.
pub fn reduce_immersion<T, R, F>(root: &Node<T>, f: &mut F) -> (result: R)
    where F: FnMut(&Node<T>, Vec<R>) -> R
    requires
        forall|node: Node<T>, results: Vec<R>|
            root.has(node) ==> call_requires(*old(f), (&node, results)),
    ensures
        *final(f) == *old(f),
        reduced(*old(f), *root, result),
    decreases root,
{
    let mut results: Vec<R> = Vec::with_capacity(root.children.len());
    let mut index: usize = 0;
    while index < root.children.len()
        invariant
            index <= root.children@.len(),
            results@.len() == index,
            *f == *old(f),
            forall|node: Node<T>, results: Vec<R>|
                root.has(node) ==> call_requires(*f, (&node, results)),
            forall|i: int|
                0 <= i < index ==> reduced(*f, root.children@[i], #[trigger] results@[i]),
        decreases root.children@.len() - index,
    {
        let child = &root.children[index];
        assert forall|node: Node<T>, results: Vec<R>| child.has(node) implies call_requires(
            *f,
            (&node, results),
        ) by {
            assert(root.has(node));
        }
        let result = reduce_immersion(child, f);
        results.push(result);
        index += 1;
    }
    assert(root.has(*root));
    let ghost handed = results;
    let result = f(root, results);
    proof {
        let step = |node: Node<T>, results: Seq<R>, value: R|
            exists|handed: Vec<R>|
                handed@ == results && #[trigger] call_ensures(*f, (&node, handed), value);
        assert(step(*root, handed@, result));
    }
    result
}

/// Runs `f` down the tree of `root`: on each node before its children, with
/// what it returned for the parent of the node.
pub fn cascade_immersion<T, R, F>(root: &Node<T>, base: &R, f: &mut F)
    where F: FnMut(&Node<T>, &R) -> R
    requires
        forall|node: Node<T>, handed: &R| root.has(node) ==> call_requires(*old(f), (&node, handed)),
    ensures
        *final(f) == *old(f),
        cascaded(*old(f), *root, *base),
    decreases root,
{
    assert(root.has(*root));
    let next = f(root, base);
    let mut index: usize = 0;
    while index < root.children.len()
        invariant
            index <= root.children@.len(),
            *f == *old(f),
            forall|node: Node<T>, handed: &R| root.has(node) ==> call_requires(*f, (&node, handed)),
            forall|i: int| 0 <= i < index ==> cascaded(*f, #[trigger] root.children@[i], next),
        decreases root.children@.len() - index,
    {
        let child = &root.children[index];
        assert forall|node: Node<T>, handed: &R| child.has(node) implies call_requires(
            *f,
            (&node, handed),
        ) by {
            assert(root.has(node));
        }
        cascade_immersion(child, &next, f);
        index += 1;
    }
    proof {
        let step = |node: Node<T>, handed: R, next: R| call_ensures(*f, (&node, &handed), next);
        assert(step(*root, *base, next));
    }
}

/// Builds a tree from the tree of `root` under the policy `O`: `f` is called
/// on each node when the policy evaluates it, with the children of the new
/// node that have been built by then.
pub fn map_in_order_immersion<O: Order, T, R, F>(root: &Node<T>, f: &mut F) -> (out: Node<R>)
    where F: FnMut(&Node<T>, &[Node<R>]) -> R
    requires
        forall|node: Node<T>, built: &[Node<R>]|
            root.has(node) ==> call_requires(*old(f), (&node, built)),
    ensures
        *final(f) == *old(f),
        mapped_in_order::<O, T, R, F>(*old(f), *root, out),
    decreases root,
{
    let plan = schedule::<O, T>(root);
    let ghost count = root.children@.len();
    let ghost position = O::position(count);
    proof {
        assert(root.children.len() == count);
        O::lemma_lawful(count);
        assert(root.has(*root));
    }
    let mut value: Option<R> = None;
    let mut children: Vec<Node<R>> = Vec::with_capacity(root.children.len());
    let ghost mut seen: &[Node<R>] = arbitrary();
    let mut step: usize = 0;
    while step < plan.len()
        invariant
            count == root.children@.len(),
            position == O::position(count),
            position <= count,
            plan@ == ordered(position, count),
            step <= plan.len(),
            *f == *old(f),
            root.has(*root),
            forall|node: Node<T>, built: &[Node<R>]|
                root.has(node) ==> call_requires(*f, (&node, built)),
            step <= position ==> children@.len() == step && value.is_none(),
            step > position ==> children@.len() == step - 1 && value.is_some(),
            step > position ==> seen@ == children@.take(position as int) && call_ensures(
                *f,
                (root, seen),
                value.unwrap(),
            ),
            forall|i: int|
                0 <= i < children@.len() ==> mapped_in_order::<O, T, R, F>(
                    *f,
                    root.children@[i],
                    #[trigger] children@[i],
                ),
        decreases plan.len() - step,
    {
        let ghost before = children@;
        match plan[step] {
            OrderFlow::EvaluateSelf => {
                let built = children.as_slice();
                proof {
                    seen = built;
                    assert(built@ =~= children@.take(position as int));
                }
                value = Some(f(root, built));
            },
            OrderFlow::ContinueWith(index) => {
                let child = &root.children[index];
                assert forall|node: Node<T>, built: &[Node<R>]| child.has(node) implies call_requires(
                    *f,
                    (&node, built),
                ) by {
                    assert(root.has(node));
                }
                let built = map_in_order_immersion::<O, T, R, F>(child, f);
                children.push(built);
                assert(step > position ==> children@.take(position as int) =~= before.take(
                    position as int,
                ));
            },
        }
        step += 1;
    }
    let value = match value {
        Some(value) => value,
        None => f(root, children.as_slice()),
    };
    let out = Node { value, children };
    proof {
        assert(seen@ == out.children@.take(position as int));
        assert(call_ensures(*f, (root, seen), out.value));
    }
    out
}

/// Folds the tree of `root`: `pre` is called on each node before its
/// children, with what it returned for the parent of the node; `post` is
/// called on each node after its children, with what `pre` returned for the
/// node and the results of the children.
pub fn reduce_both_immersion<T, R, U, F, P>(
    root: &Node<T>,
    base: &R,
    pre: &mut F,
    post: &mut P,
) -> (result: U)
    where F: FnMut(&Node<T>, &R) -> R, P: FnMut(&Node<T>, &R, Vec<U>) -> U
    requires
        forall|node: Node<T>, handed: &R|
            root.has(node) ==> call_requires(*old(pre), (&node, handed)),
        forall|node: Node<T>, handed: &R, results: Vec<U>|
            root.has(node) ==> call_requires(*old(post), (&node, handed, results)),
    ensures
        *final(pre) == *old(pre),
        *final(post) == *old(post),
        reduced_both(*old(pre), *old(post), *root, *base, result),
    decreases root,
{
    assert(root.has(*root));
    let next = pre(root, base);
    let mut results: Vec<U> = Vec::with_capacity(root.children.len());
    let mut index: usize = 0;
    while index < root.children.len()
        invariant
            index <= root.children@.len(),
            results@.len() == index,
            *pre == *old(pre),
            *post == *old(post),
            root.has(*root),
            forall|node: Node<T>, handed: &R|
                root.has(node) ==> call_requires(*pre, (&node, handed)),
            forall|node: Node<T>, handed: &R, results: Vec<U>|
                root.has(node) ==> call_requires(*post, (&node, handed, results)),
            forall|i: int|
                0 <= i < index ==> reduced_both(
                    *pre,
                    *post,
                    root.children@[i],
                    next,
                    #[trigger] results@[i],
                ),
        decreases root.children@.len() - index,
    {
        let child = &root.children[index];
        assert forall|node: Node<T>| child.has(node) implies root.has(node) by {}
        let result = reduce_both_immersion(child, &next, pre, post);
        results.push(result);
        index += 1;
    }
    let ghost handed = results;
    let result = post(root, &next, results);
    proof {
        let down = |node: Node<T>, handed: R, next: R| call_ensures(*pre, (&node, &handed), next);
        let up = |node: Node<T>, handed: R, results: Seq<U>, value: U|
            exists|given: Vec<U>|
                given@ == results && #[trigger] call_ensures(*post, (&node, &handed, given), value);
        assert(down(*root, *base, next));
        assert(up(*root, next, handed@, result));
    }
    result
}

/// Builds a tree from the tree of `root`: `pre` is called on each node before
/// its children, with what it returned for the parent of the node; `post` is
/// called on each node after its children, with what `pre` returned for the
/// node and the children of the new node.
pub fn map_both_immersion<T, R, U, F, P>(
    root: &Node<T>,
    base: &R,
    pre: &mut F,
    post: &mut P,
) -> (out: Node<U>)
    where F: FnMut(&Node<T>, &R) -> R, P: FnMut(&Node<T>, &R, &[Node<U>]) -> U
    requires
        forall|node: Node<T>, handed: &R|
            root.has(node) ==> call_requires(*old(pre), (&node, handed)),
        forall|node: Node<T>, handed: &R, built: &[Node<U>]|
            root.has(node) ==> call_requires(*old(post), (&node, handed, built)),
    ensures
        *final(pre) == *old(pre),
        *final(post) == *old(post),
        mapped_both(*old(pre), *old(post), *root, *base, out),
    decreases root,
{
    assert(root.has(*root));
    let next = pre(root, base);
    let mut children: Vec<Node<U>> = Vec::with_capacity(root.children.len());
    let mut index: usize = 0;
    while index < root.children.len()
        invariant
            index <= root.children@.len(),
            children@.len() == index,
            *pre == *old(pre),
            *post == *old(post),
            root.has(*root),
            forall|node: Node<T>, handed: &R|
                root.has(node) ==> call_requires(*pre, (&node, handed)),
            forall|node: Node<T>, handed: &R, built: &[Node<U>]|
                root.has(node) ==> call_requires(*post, (&node, handed, built)),
            forall|i: int|
                0 <= i < index ==> mapped_both(
                    *pre,
                    *post,
                    root.children@[i],
                    next,
                    #[trigger] children@[i],
                ),
        decreases root.children@.len() - index,
    {
        let child = &root.children[index];
        assert forall|node: Node<T>| child.has(node) implies root.has(node) by {}
        let built = map_both_immersion(child, &next, pre, post);
        children.push(built);
        index += 1;
    }
    let built = children.as_slice();
    let ghost witness = built;
    let value = post(root, &next, built);
    let out = Node { value, children };
    proof {
        assert(witness@ == out.children@);
        assert(call_ensures(*post, (root, &next, witness), out.value));
        let down = |node: Node<T>, handed: R, next: R| call_ensures(*pre, (&node, &handed), next);
        assert(down(*root, *base, next));
    }
    out
}

} // verus!
