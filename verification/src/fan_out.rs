//! Concurrent fan-out over a tree that is borrowed for reading.
//!
//! At each node the recursion into the children is issued as one unit per
//! child, and the units are joined in child order before the node goes on.
//! Where the join does not come back at once, the children are walked one
//! after the other instead: the result is the same.

use crate::laws::lemma_visits_has;
use crate::node::Node;
use crate::order::Postorder;
use crate::relation::lemma_built_shape;
use crate::strategy::Asynchronous;
use crate::traverse::{cascaded, mapped, reduced, Traverse};
use crate::traverse_owned::TraverseOwned;
use core::marker::PhantomData;
use futures::future::{join_all, lazy};
use futures::FutureExt;
use vstd::prelude::*;

verus! {

/// Runs `work` on each of `units` as a unit of its own and joins the units.
///
/// The units are made by `futures::future::lazy`, joined by
/// `futures::future::join_all`, and the join is polled once by
/// `futures::FutureExt::now_or_never`. Trusted: where the join is ready, its
/// outputs are as many as the units and come in the order of the units, and
/// each is what `work` returned for the unit at its place.
#[verifier::external_body]
fn join_units<U, R, W>(units: Vec<U>, work: &W) -> (joined: Option<Vec<R>>) where W: Fn(U) -> R
    requires
        forall|i: int| 0 <= i < units@.len() ==> call_requires(*work, (units@[i],)),
    ensures
        joined matches Some(results) ==> results@.len() == units@.len() && forall|i: int|
            0 <= i < units@.len() ==> call_ensures(*work, (units@[i],), #[trigger] results@[i]),
{
    let mut pending = Vec::with_capacity(units.len());
    for unit in units {
        pending.push(lazy(move |_| work(unit)));
    }
    join_all(pending).now_or_never()
}

/// The children of `root`, borrowed one by one.
fn units_of<'a, T>(root: &'a Node<T>) -> (units: Vec<&'a Node<T>>)
    ensures
        units@.len() == root.children@.len(),
        forall|i: int| 0 <= i < units@.len() ==> *(#[trigger] units@[i]) == root.children@[i],
{
    let mut units: Vec<&'a Node<T>> = Vec::with_capacity(root.children.len());
    let mut index: usize = 0;
    while index < root.children.len()
        invariant
            index <= root.children@.len(),
            units@.len() == index,
            forall|i: int| 0 <= i < index ==> *(#[trigger] units@[i]) == root.children@[i],
        decreases root.children@.len() - index,
    {
        units.push(&root.children[index]);
        index += 1;
    }
    units
}

/// Whether `child` is smaller than `root`, as a child of `root` is.
pub open spec fn under<T>(root: &Node<T>, child: &Node<T>) -> bool {
    decreases_to!(*root => *child)
}

/// Whether `f` accepts every node of the tree of `root`.
pub open spec fn welcome<T, F: Fn(&Node<T>)>(f: &F, root: &Node<T>) -> bool {
    forall|node: Node<T>| root.has(node) ==> call_requires(*f, (&node,))
}

/// Whether `f` has been called on every node of the tree of `root`.
pub open spec fn seen<T, F: Fn(&Node<T>)>(f: &F, root: &Node<T>) -> bool {
    forall|k: int|
        0 <= k < root.visits::<Postorder>().len() ==> call_ensures(
            *f,
            (&#[trigger] root.visits::<Postorder>()[k],),
            (),
        )
}

/// Calls `f` on every node of the tree of `root`, each after its children;
/// the subtrees of the children are walked as units of their own.
pub fn for_each_fan_out<T, F>(root: &Node<T>, f: &F) where F: Fn(&Node<T>)
    requires
        welcome(f, root),
    ensures
        seen(f, root),
    decreases root,
{
    let units = units_of(root);
    let work = |child: &Node<T>|
        requires
            under(root, child),
            welcome(f, child),
        ensures
            seen(f, child),
        { for_each_fan_out(child, f) };
    assert forall|i: int| 0 <= i < units@.len() implies call_requires(work, (units@[i],)) by {
        assert forall|node: Node<T>| units@[i].has(node) implies call_requires(*f, (&node,)) by {
            assert(root.children@[i].has(node));
            assert(root.has(node));
        }
    }
    let ghost handed = units@;
    match join_units(units, &work) {
        Some(done) => {
            assert forall|i: int| 0 <= i < root.children@.len() implies seen(
                f,
                &#[trigger] root.children@[i],
            ) by {
                assert(call_ensures(work, (handed[i],), done@[i]));
            }
        },
        None => {
            let mut index: usize = 0;
            while index < root.children.len()
                invariant
                    index <= root.children@.len(),
                    welcome(f, root),
                    forall|i: int| 0 <= i < index ==> seen(f, &#[trigger] root.children@[i]),
                decreases root.children@.len() - index,
            {
                let child = &root.children[index];
                assert forall|node: Node<T>| child.has(node) implies call_requires(
                    *f,
                    (&node,),
                ) by {
                    assert(root.has(node));
                }
                for_each_fan_out(child, f);
                index += 1;
            }
        },
    }
    assert(root.has(*root));
    f(root);
    proof {
        let visits = root.visits::<Postorder>();
        assert forall|k: int| 0 <= k < visits.len() implies call_ensures(
            *f,
            (&#[trigger] visits[k],),
            (),
        ) by {
            let node = visits[k];
            assert(visits.contains(node));
            lemma_visits_has::<Postorder, T>(*root, node);
            if node != *root {
                let i = choose|i: int|
                    0 <= i < root.children@.len() && (#[trigger] root.children@[i]).has(node);
                let child = root.children@[i];
                lemma_visits_has::<Postorder, T>(child, node);
                let m = choose|m: int|
                    0 <= m < child.visits::<Postorder>().len() && child.visits::<Postorder>()[m]
                        == node;
                assert(seen(f, &child));
                assert(call_ensures(*f, (&child.visits::<Postorder>()[m],), ()));
            }
        }
    }
}

/// Builds a tree from the tree of `root`: `f` is called on each node before
/// its children, and the subtrees of the children are built as units of
/// their own.
pub fn map_fan_out<T, R, F>(root: &Node<T>, f: &F) -> (out: Node<R>) where F: Fn(&Node<T>) -> R
    requires
        forall|node: Node<T>| root.has(node) ==> call_requires(*f, (&node,)),
    ensures
        mapped(*f, *root, out),
    decreases root,
{
    assert(root.has(*root));
    let value = f(root);
    let units = units_of(root);
    let work = |child: &Node<T>| -> (built: Node<R>)
        requires
            under(root, child),
            forall|node: Node<T>| child.has(node) ==> call_requires(*f, (&node,)),
        ensures
            mapped(*f, *child, built),
        { map_fan_out(child, f) };
    assert forall|i: int| 0 <= i < units@.len() implies call_requires(work, (units@[i],)) by {
        assert forall|node: Node<T>| units@[i].has(node) implies call_requires(*f, (&node,)) by {
            assert(root.children@[i].has(node));
            assert(root.has(node));
        }
    }
    let children = match join_units(units, &work) {
        Some(children) => children,
        None => {
            let mut children: Vec<Node<R>> = Vec::with_capacity(root.children.len());
            let mut index: usize = 0;
            while index < root.children.len()
                invariant
                    index <= root.children@.len(),
                    children@.len() == index,
                    forall|node: Node<T>| root.has(node) ==> call_requires(*f, (&node,)),
                    forall|i: int|
                        0 <= i < index ==> mapped(*f, root.children@[i], #[trigger] children@[i]),
                decreases root.children@.len() - index,
            {
                let child = &root.children[index];
                assert forall|node: Node<T>| child.has(node) implies call_requires(
                    *f,
                    (&node,),
                ) by {
                    assert(root.has(node));
                }
                let built = map_fan_out(child, f);
                children.push(built);
                index += 1;
            }
            children
        },
    };
    Node { value, children }
}

/// Folds the tree of `root`: `f` is called on each node after its children,
/// with their results in child order, and the subtrees of the children are
/// folded as units of their own.
pub fn reduce_fan_out<T, R, F>(root: &Node<T>, f: &F) -> (result: R) where
    F: Fn(&Node<T>, Vec<R>) -> R,

    requires
        forall|node: Node<T>, results: Vec<R>|
            root.has(node) ==> call_requires(*f, (&node, results)),
    ensures
        reduced(*f, *root, result),
    decreases root,
{
    let units = units_of(root);
    let work = |child: &Node<T>| -> (result: R)
        requires
            under(root, child),
            forall|node: Node<T>, results: Vec<R>|
                child.has(node) ==> call_requires(*f, (&node, results)),
        ensures
            reduced(*f, *child, result),
        { reduce_fan_out(child, f) };
    assert forall|i: int| 0 <= i < units@.len() implies call_requires(work, (units@[i],)) by {
        assert forall|node: Node<T>, results: Vec<R>| units@[i].has(node) implies call_requires(
            *f,
            (&node, results),
        ) by {
            assert(root.children@[i].has(node));
            assert(root.has(node));
        }
    }
    let results = match join_units(units, &work) {
        Some(results) => results,
        None => {
            let mut results: Vec<R> = Vec::with_capacity(root.children.len());
            let mut index: usize = 0;
            while index < root.children.len()
                invariant
                    index <= root.children@.len(),
                    results@.len() == index,
                    forall|node: Node<T>, results: Vec<R>|
                        root.has(node) ==> call_requires(*f, (&node, results)),
                    forall|i: int|
                        0 <= i < index ==> reduced(*f, root.children@[i], #[trigger] results@[i]),
                decreases root.children@.len() - index,
            {
                let child = &root.children[index];
                assert forall|node: Node<T>, results: Vec<R>| child.has(node) implies call_requires(
                    *f,
                    (&node, results),
                ) by {
                    assert(root.has(node));
                }
                let result = reduce_fan_out(child, f);
                results.push(result);
                index += 1;
            }
            results
        },
    };
    assert(root.has(*root));
    let ghost handed = results;
    let result = f(root, results);
    proof {
        let step = |node: Node<T>, results: Seq<R>, value: R|
            exists|handed: Vec<R>|
                handed@ == results && #[trigger] call_ensures(*f, (&node, handed), value);
        assert(step(*root, handed@, result));
    }
    result
}

/// Whether `f` has been run down the tree of `root` from `base`.
pub open spec fn run_down<T, R, F: Fn(&Node<T>, &R) -> R>(f: &F, root: &Node<T>, base: &R) -> bool {
    cascaded(*f, *root, *base)
}

/// Runs `f` down the tree of `root`: on each node before its children, with
/// what it returned for the parent of the node; the subtrees of the children
/// are walked as units of their own.
pub fn cascade_fan_out<T, R, F>(root: &Node<T>, base: &R, f: &F) where F: Fn(&Node<T>, &R) -> R
    requires
        forall|node: Node<T>, handed: &R| root.has(node) ==> call_requires(*f, (&node, handed)),
    ensures
        cascaded(*f, *root, *base),
    decreases root,
{
    assert(root.has(*root));
    let next = f(root, base);
    let units = units_of(root);
    let work = |child: &Node<T>|
        requires
            under(root, child),
            forall|node: Node<T>, handed: &R|
                child.has(node) ==> call_requires(*f, (&node, handed)),
        ensures
            run_down(f, child, &next),
        { cascade_fan_out(child, &next, f) };
    assert forall|i: int| 0 <= i < units@.len() implies call_requires(work, (units@[i],)) by {
        assert forall|node: Node<T>, handed: &R| units@[i].has(node) implies call_requires(
            *f,
            (&node, handed),
        ) by {
            assert(root.children@[i].has(node));
            assert(root.has(node));
        }
    }
    let ghost given = units@;
    match join_units(units, &work) {
        Some(done) => {
            assert forall|i: int| 0 <= i < root.children@.len() implies cascaded(
                *f,
                #[trigger] root.children@[i],
                next,
            ) by {
                assert(call_ensures(work, (given[i],), done@[i]));
            }
        },
        None => {
            let mut index: usize = 0;
            while index < root.children.len()
                invariant
                    index <= root.children@.len(),
                    forall|node: Node<T>, handed: &R|
                        root.has(node) ==> call_requires(*f, (&node, handed)),
                    forall|i: int|
                        0 <= i < index ==> cascaded(*f, #[trigger] root.children@[i], next),
                decreases root.children@.len() - index,
            {
                let child = &root.children[index];
                assert forall|node: Node<T>, handed: &R| child.has(node) implies call_requires(
                    *f,
                    (&node, handed),
                ) by {
                    assert(root.has(node));
                }
                cascade_fan_out(child, &next, f);
                index += 1;
            }
        },
    }
    proof {
        let step = |node: Node<T>, handed: R, next: R| call_ensures(*f, (&node, &handed), next);
        assert(step(*root, *base, next));
    }
}

impl<'a, T: Sync + Send + 'a> Traverse<'a, T, Asynchronous> {
    /// Calls `f` on every node of the tree, each after its children; the
    /// subtrees of the children of a node are walked as units of their own.
    pub fn for_each<F>(self, f: F) where F: Fn(&Node<T>) + Sync + Send
        requires
            forall|node: Node<T>| self.node.has(node) ==> call_requires(f, (&node,)),
        ensures
            forall|k: int|
                0 <= k < self.node.visits::<Postorder>().len() ==> call_ensures(
                    f,
                    (&#[trigger] self.node.visits::<Postorder>()[k],),
                    (),
                ),
    {
        for_each_fan_out(self.node, &f);
    }

    /// Builds a tree of the same shape whose values are what `f` returns for
    /// the nodes of this one; `f` is called on each node before its children,
    /// and the subtrees of the children are built as units of their own.
    pub fn map<F, R>(self, f: F) -> (out: TraverseOwned<R, Asynchronous>) where
        F: Fn(&Node<T>) -> R + Sync + Send,
        R: Sized + Sync + Send,

        requires
            forall|node: Node<T>| self.node.has(node) ==> call_requires(f, (&node,)),
        ensures
            mapped(f, *self.node, out.node),
            out.node@.same_shape(self.node@),
    {
        let out = map_fan_out(self.node, &f);
        proof {
            lemma_built_shape(
                *self.node,
                out,
                |node: Node<T>, value: R| call_ensures(f, (&node,), value),
            );
        }
        TraverseOwned { node: out, strategy: PhantomData }
    }

    /// Folds the tree into one value: `f` is called on each node after its
    /// children, with their results in child order, and the subtrees of the
    /// children are folded as units of their own.
    pub fn reduce<F, R>(self, f: F) -> (result: R) where
        F: Fn(&Node<T>, Vec<R>) -> R + Sync + Send,
        R: Sized + Sync + Send,

        requires
            forall|node: Node<T>, results: Vec<R>|
                self.node.has(node) ==> call_requires(f, (&node, results)),
        ensures
            reduced(f, *self.node, result),
    {
        reduce_fan_out(self.node, &f)
    }

    /// Runs `f` down the tree: `f` is called on each node before its
    /// children, with what it returned for the parent of the node, and with
    /// `base` on the root; the subtrees of the children are walked as units
    /// of their own.
    pub fn cascade<F, R>(&self, base: R, f: F) where
        F: Fn(&Node<T>, &R) -> R + Sync + Send,
        R: Sized + Sync + Send,

        requires
            forall|node: Node<T>, handed: &R|
                self.node.has(node) ==> call_requires(f, (&node, handed)),
        ensures
            cascaded(f, *self.node, base),
    {
        cascade_fan_out(self.node, &base, &f);
    }
}

} // verus!
