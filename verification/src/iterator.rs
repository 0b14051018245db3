//! Walks that yield the nodes of a tree one at a time, from an explicit stack.

use crate::node::{Node, Tree};
use crate::order::{Order, Postorder, Preorder};
use crate::traverse::{InPost, InPre};
use crate::traverse_owned::{InPostOwned, InPreOwned};
use vstd::prelude::*;

verus! {

/// What a walk from each node to its children has yet to yield when `stack`
/// holds the roots of the subtrees that it has not entered, the first on top.
pub open spec fn pending_pre<T>(stack: Seq<Node<T>>) -> Seq<Node<T>>
    decreases stack.len(),
{
    if stack.len() == 0 {
        Seq::empty()
    } else {
        stack.last().visits::<Preorder>() + pending_pre(stack.drop_last())
    }
}

/// The nodes that `stack` refers to.
pub open spec fn referred<'a, T>(stack: Seq<&'a Node<T>>) -> Seq<Node<T>> {
    Seq::new(stack.len(), |i: int| *stack[i])
}

impl<T> Node<T> {
    /// Under `Preorder` a node comes first, and the subtrees of its children
    /// follow in child order.
    pub proof fn lemma_visits_first(self)
        ensures
            self.visits::<Preorder>() == seq![self] + self.visits_below::<Preorder>().flatten(),
            self.visits::<Preorder>().len() > 0,
            self.visits::<Preorder>()[0] == self,
    {
        let below = self.visits_below::<Preorder>();
        assert(below.take(0) =~= Seq::<Seq<Node<T>>>::empty());
        assert(below.skip(0) =~= below);
        assert(below.take(0).flatten() =~= Seq::<Node<T>>::empty());
        assert(self.visits::<Preorder>() =~= seq![self] + below.flatten());
    }

    /// Under `Postorder` the subtrees of the children of a node come in child
    /// order, and the node comes last.
    pub proof fn lemma_visits_last(self)
        ensures
            self.visits::<Postorder>() == self.visits_below::<Postorder>().flatten() + seq![self],
            self.visits::<Postorder>().len() > 0,
            self.visits::<Postorder>().last() == self,
    {
        let below = self.visits_below::<Postorder>();
        let count = self.children@.len() as int;
        assert(below.take(count) =~= below);
        assert(below.skip(count) =~= Seq::<Seq<Node<T>>>::empty());
        assert(below.skip(count).flatten() =~= Seq::<Node<T>>::empty());
        assert(self.visits::<Postorder>() =~= below.flatten() + seq![self]);
    }
}

/// A walk over a borrowed tree from each node to its children.
pub struct PreorderIter<'a, T> {
    /// The roots of the subtrees that `next` has yet to enter, the first on
    /// top.
    pub left: Vec<&'a Node<T>>,
}

/// Takes the top of `stack` and puts its children in its place, the first on
/// top.
fn advance_pre<'a, T>(stack: &mut Vec<&'a Node<T>>) -> (yielded: Option<&'a Node<T>>)
    ensures
        match yielded {
            Some(node) => {
                &&& pending_pre(referred(old(stack)@)).len() > 0
                &&& *node == pending_pre(referred(old(stack)@))[0]
                &&& pending_pre(referred(final(stack)@)) == pending_pre(
                    referred(old(stack)@),
                ).drop_first()
            },
            None => {
                &&& pending_pre(referred(old(stack)@)).len() == 0
                &&& final(stack)@ == old(stack)@
            },
        },
{
    match stack.pop() {
        None => {
            assert(referred(old(stack)@) =~= Seq::<Node<T>>::empty());
            None
        },
        Some(current) => {
            let ghost rest = referred(stack@);
            let ghost below = current.visits_below::<Preorder>();
            let count = current.children.len();
            proof {
                assert(referred(old(stack)@).last() == *current);
                assert(referred(old(stack)@).drop_last() =~= rest);
                current.lemma_visits_first();
                assert(below.subrange(count as int, count as int) =~= Seq::<
                    Seq<Node<T>>,
                >::empty());
                assert(below.subrange(count as int, count as int).flatten() =~= Seq::<
                    Node<T>,
                >::empty());
            }
            let mut index = count;
            while index > 0
                invariant
                    index <= count,
                    count == current.children@.len(),
                    below == current.visits_below::<Preorder>(),
                    pending_pre(referred(stack@)) == below.subrange(
                        index as int,
                        count as int,
                    ).flatten() + pending_pre(rest),
                decreases index,
            {
                let ghost before = referred(stack@);
                index -= 1;
                stack.push(&current.children[index]);
                proof {
                    let now = referred(stack@);
                    assert(now.last() == current.children@[index as int]);
                    assert(now.drop_last() =~= before);
                    let wider = below.subrange(index as int, count as int);
                    assert(wider.first() == current.children@[index as int].visits::<Preorder>());
                    assert(wider.drop_first() =~= below.subrange(index + 1, count as int));
                    assert(pending_pre(now) =~= wider.flatten() + pending_pre(rest));
                }
            }
            proof {
                assert(below.subrange(0, count as int) =~= below);
                assert(pending_pre(referred(stack@)) =~= pending_pre(
                    referred(old(stack)@),
                ).drop_first());
            }
            Some(current)
        },
    }
}

impl<'a, T> PreorderIter<'a, T> {
    /// A walk that has all of the tree of `root` to yield.
    pub fn new(root: &'a Node<T>) -> (walk: Self)
        ensures
            walk.left@ == seq![root],
            pending_pre(referred(walk.left@)) == root.visits::<Preorder>(),
    {
        let mut left: Vec<&'a Node<T>> = Vec::new();
        left.push(root);
        proof {
            assert(referred(left@).last() == *root);
            assert(referred(left@).drop_last() =~= Seq::<Node<T>>::empty());
            assert(pending_pre(referred(left@).drop_last()) =~= Seq::<Node<T>>::empty());
            assert(pending_pre(referred(left@)) =~= root.visits::<Preorder>());
        }
        PreorderIter { left }
    }

    /// Yields the node that comes next: a node before its children, the
    /// children in order.
    pub fn next(&mut self) -> (yielded: Option<&'a Node<T>>)
        ensures
            match yielded {
                Some(node) => {
                    &&& pending_pre(referred(old(self).left@)).len() > 0
                    &&& *node == pending_pre(referred(old(self).left@))[0]
                    &&& pending_pre(referred(final(self).left@)) == pending_pre(
                        referred(old(self).left@),
                    ).drop_first()
                },
                None => {
                    &&& pending_pre(referred(old(self).left@)).len() == 0
                    &&& final(self).left@ == old(self).left@
                },
            },
    {
        advance_pre(&mut self.left)
    }
}

/// A stack that holds one tree has all of that tree pending.
pub proof fn lemma_pending_pre_fresh<T>(root: Node<T>)
    ensures
        pending_pre(seq![root]) == root.visits::<Preorder>(),
{
    let stack = seq![root];
    assert(stack.last() == root);
    assert(stack.drop_last() =~= Seq::<Node<T>>::empty());
    assert(pending_pre(stack.drop_last()) =~= Seq::<Node<T>>::empty());
    assert(pending_pre(stack) =~= root.visits::<Preorder>());
}

impl<'a, T, S> InPre<'a, T, S> {
    /// Yields the node that comes next: a node before its children, the
    /// children in order.
    pub fn next(&mut self) -> (yielded: Option<&'a Node<T>>)
        ensures
            final(self).node == old(self).node,
            match yielded {
                Some(node) => {
                    &&& pending_pre(referred(old(self).next@)).len() > 0
                    &&& *node == pending_pre(referred(old(self).next@))[0]
                    &&& pending_pre(referred(final(self).next@)) == pending_pre(
                        referred(old(self).next@),
                    ).drop_first()
                },
                None => {
                    &&& pending_pre(referred(old(self).next@)).len() == 0
                    &&& final(self).next@ == old(self).next@
                },
            },
    {
        advance_pre(&mut self.next)
    }

    /// All the nodes that the walk has yet to yield, in the order in which
    /// `next` yields them; for a walk that has not begun, the nodes of the
    /// tree, each before its children.
    pub fn iter(self) -> (nodes: Vec<&'a Node<T>>)
        ensures
            referred(nodes@) == pending_pre(referred(self.next@)),
    {
        let mut walk = self;
        let mut nodes: Vec<&'a Node<T>> = Vec::new();
        proof {
            assert(referred(nodes@) + pending_pre(referred(walk.next@)) =~= pending_pre(
                referred(self.next@),
            ));
        }
        loop
            invariant
                referred(nodes@) + pending_pre(referred(walk.next@)) == pending_pre(
                    referred(self.next@),
                ),
            ensures
                referred(nodes@) == pending_pre(referred(self.next@)),
            decreases pending_pre(referred(walk.next@)).len(),
        {
            let ghost before = (referred(nodes@), pending_pre(referred(walk.next@)));
            match walk.next() {
                Some(node) => {
                    nodes.push(node);
                    proof {
                        assert(referred(nodes@) =~= before.0.push(*node));
                        assert(before.0.push(before.1[0]) + before.1.drop_first() =~= before.0
                            + before.1);
                    }
                },
                None => {
                    proof {
                        assert(before.0 + before.1 =~= before.0);
                    }
                    break ;
                },
            }
        }
        nodes
    }
}

/// What a walk from the children of each node to the node has yet to yield
/// when `stack` holds the nodes that it has entered and not yet yielded, each
/// with the number of its children that have been entered, the deepest on
/// top.
pub open spec fn pending_post<T>(stack: Seq<(Node<T>, usize)>) -> Seq<Node<T>>
    decreases stack.len(),
{
    if stack.len() == 0 {
        Seq::empty()
    } else {
        let (node, entered) = stack.last();
        left_below(node, entered) + seq![node] + pending_post(stack.drop_last())
    }
}

/// The subtrees of the children of `node` from the one at `entered` on, each
/// with its root last.
pub open spec fn left_below<T>(node: Node<T>, entered: usize) -> Seq<Node<T>> {
    if entered < node.children@.len() {
        node.visits_below::<Postorder>().subrange(
            entered as int,
            node.children@.len() as int,
        ).flatten()
    } else {
        Seq::empty()
    }
}

/// The nodes and counts that `stack` refers to.
pub open spec fn referred_entered<'a, T>(stack: Seq<(&'a Node<T>, usize)>) -> Seq<
    (Node<T>, usize),
> {
    Seq::new(stack.len(), |i: int| (*stack[i].0, stack[i].1))
}

/// The height of the tree on top of `stack`, 0 where it is empty.
pub open spec fn top_height<T>(stack: Seq<Node<T>>) -> nat {
    if stack.len() == 0 {
        0
    } else {
        stack.last()@.height()
    }
}

/// A child is less tall than its parent.
pub proof fn lemma_child_height<T>(node: Node<T>, i: int)
    requires
        0 <= i < node.children@.len(),
    ensures
        node.children@[i]@.height() < node@.height(),
{
    Tree::lemma_tallest(node@.children, i);
}

/// A stack that holds one tree that has not been entered has all of that
/// tree pending.
pub proof fn lemma_pending_post_fresh<T>(root: Node<T>)
    ensures
        pending_post(seq![(root, 0usize)]) == root.visits::<Postorder>(),
{
    let stack = seq![(root, 0usize)];
    let below = root.visits_below::<Postorder>();
    root.lemma_visits_last();
    assert(stack.last() == (root, 0usize));
    assert(stack.drop_last() =~= Seq::<(Node<T>, usize)>::empty());
    assert(pending_post(stack.drop_last()) =~= Seq::<Node<T>>::empty());
    if root.children@.len() > 0 {
        assert(below.subrange(0, root.children@.len() as int) =~= below);
    } else {
        assert(below =~= Seq::<Seq<Node<T>>>::empty());
        assert(below.flatten() =~= Seq::<Node<T>>::empty());
    }
    assert(pending_post(stack) =~= root.visits::<Postorder>());
}

impl<'a, T, S> InPost<'a, T, S> {
    /// Yields the node that comes next: the children of a node in order, then
    /// the node.
    pub fn next(&mut self) -> (yielded: Option<&'a Node<T>>)
        ensures
            final(self).node == old(self).node,
            match yielded {
                Some(node) => {
                    &&& pending_post(referred_entered(old(self).next@)).len() > 0
                    &&& *node == pending_post(referred_entered(old(self).next@))[0]
                    &&& pending_post(referred_entered(final(self).next@)) == pending_post(
                        referred_entered(old(self).next@),
                    ).drop_first()
                },
                None => {
                    &&& pending_post(referred_entered(old(self).next@)).len() == 0
                    &&& final(self).next@ == old(self).next@
                },
            },
    {
        loop
            invariant
                self.node == old(self).node,
                pending_post(referred_entered(self.next@)) == pending_post(
                    referred_entered(old(self).next@),
                ),
                self.next@.len() == 0 ==> self.next@ == old(self).next@,
            decreases
                    (if self.next@.len() == 0 {
                        0
                    } else {
                        self.next@.last().0@.height()
                    }),
        {
            let ghost before = referred_entered(self.next@);
            match self.next.pop() {
                None => {
                    proof {
                        assert(before =~= Seq::<(Node<T>, usize)>::empty());
                    }
                    return None;
                },
                Some((parent, entered)) => {
                    let ghost rest = referred_entered(self.next@);
                    proof {
                        assert(before.last() == (*parent, entered));
                        assert(before.drop_last() =~= rest);
                    }
                    if entered < parent.children.len() {
                        let child = &parent.children[entered];
                        self.next.push((parent, entered + 1));
                        self.next.push((child, 0));
                        proof {
                            let count = parent.children@.len() as int;
                            let below = parent.visits_below::<Postorder>();
                            let now = referred_entered(self.next@);
                            assert(now.last() == (*child, 0usize));
                            let under = now.drop_last();
                            assert(under.last() == (*parent, (entered + 1) as usize));
                            assert(under.drop_last() =~= rest);
                            lemma_pending_post_fresh(*child);
                            child.lemma_visits_last();
                            let narrow = below.subrange(entered as int, count);
                            assert(narrow.first() == child.visits::<Postorder>());
                            if entered + 1 < count {
                                assert(narrow.drop_first() =~= below.subrange(entered + 1, count));
                            } else {
                                assert(narrow.drop_first() =~= Seq::<Seq<Node<T>>>::empty());
                                assert(narrow.drop_first().flatten() =~= Seq::<Node<T>>::empty());
                            }
                            assert(left_below(*parent, entered) =~= child.visits::<Postorder>()
                                + left_below(*parent, (entered + 1) as usize));
                            let below_child = child.visits_below::<Postorder>();
                            if child.children@.len() > 0 {
                                assert(below_child.subrange(0, child.children@.len() as int)
                                    =~= below_child);
                            } else {
                                assert(below_child =~= Seq::<Seq<Node<T>>>::empty());
                                assert(below_child.flatten() =~= Seq::<Node<T>>::empty());
                            }
                            assert(left_below(*child, 0) + seq![*child] =~= child.visits::<
                                Postorder,
                            >());
                            assert(pending_post(under) =~= left_below(
                                *parent,
                                (entered + 1) as usize,
                            ) + seq![*parent] + pending_post(rest));
                            assert(pending_post(now) =~= child.visits::<Postorder>()
                                + pending_post(under));
                            assert(pending_post(before) =~= left_below(*parent, entered)
                                + seq![*parent] + pending_post(rest));
                            assert(pending_post(now) =~= pending_post(before));
                            lemma_child_height(*parent, entered as int);
                        }
                    } else {
                        proof {
                            assert(left_below(*parent, entered) =~= Seq::<Node<T>>::empty());
                            assert(pending_post(before) =~= seq![*parent] + pending_post(rest));
                            assert(pending_post(rest) =~= pending_post(before).drop_first());
                        }
                        return Some(parent);
                    }
                },
            }
        }
    }

    /// All the nodes that the walk has yet to yield, in the order in which
    /// `next` yields them; for a walk that has not begun, the nodes of the
    /// tree, each after its children.
    pub fn iter(self) -> (nodes: Vec<&'a Node<T>>)
        ensures
            referred(nodes@) == pending_post(referred_entered(self.next@)),
    {
        let mut walk = self;
        let mut nodes: Vec<&'a Node<T>> = Vec::new();
        proof {
            assert(referred(nodes@) + pending_post(referred_entered(walk.next@)) =~= pending_post(
                referred_entered(self.next@),
            ));
        }
        loop
            invariant
                referred(nodes@) + pending_post(referred_entered(walk.next@)) == pending_post(
                    referred_entered(self.next@),
                ),
            ensures
                referred(nodes@) == pending_post(referred_entered(self.next@)),
            decreases pending_post(referred_entered(walk.next@)).len(),
        {
            let ghost before = (referred(nodes@), pending_post(referred_entered(walk.next@)));
            match walk.next() {
                Some(node) => {
                    nodes.push(node);
                    proof {
                        assert(referred(nodes@) =~= before.0.push(*node));
                        assert(before.0.push(before.1[0]) + before.1.drop_first() =~= before.0
                            + before.1);
                    }
                },
                None => {
                    proof {
                        assert(before.0 + before.1 =~= before.0);
                    }
                    break ;
                },
            }
        }
        nodes
    }
}

impl<T, S> InPreOwned<T, S> {
    /// Yields the value that comes next: that of a node before those of its
    /// children, the children in order.
    pub fn next(&mut self) -> (yielded: Option<T>)
        ensures
            match yielded {
                Some(value) => {
                    &&& pending_pre(old(self).next@).len() > 0
                    &&& value == pending_pre(old(self).next@)[0].value
                    &&& pending_pre(final(self).next@) == pending_pre(old(self).next@).drop_first()
                },
                None => {
                    &&& pending_pre(old(self).next@).len() == 0
                    &&& final(self).next@ == old(self).next@
                },
            },
    {
        match self.next.pop() {
            None => None,
            Some(current) => {
                let ghost rest = self.next@;
                let ghost below = current.visits_below::<Preorder>();
                let ghost count = current.children@.len() as int;
                proof {
                    assert(old(self).next@.last() == current);
                    assert(old(self).next@.drop_last() =~= rest);
                    current.lemma_visits_first();
                    assert(below.subrange(count, count) =~= Seq::<Seq<Node<T>>>::empty());
                    assert(below.subrange(count, count).flatten() =~= Seq::<Node<T>>::empty());
                }
                let Node { value, children } = current;
                let mut children = children;
                let mut index = children.len();
                while index > 0
                    invariant
                        index <= count,
                        count == current.children@.len(),
                        below == current.visits_below::<Preorder>(),
                        children@ == current.children@.take(index as int),
                        pending_pre(self.next@) == below.subrange(index as int, count).flatten()
                            + pending_pre(rest),
                    decreases index,
                {
                    let ghost before = self.next@;
                    index -= 1;
                    match children.pop() {
                        Some(child) => {
                            self.next.push(child);
                            proof {
                                let now = self.next@;
                                assert(child == current.children@[index as int]);
                                assert(now.last() == child);
                                assert(now.drop_last() =~= before);
                                let wider = below.subrange(index as int, count);
                                assert(wider.first() == child.visits::<Preorder>());
                                assert(wider.drop_first() =~= below.subrange(index + 1, count));
                                assert(pending_pre(now) =~= wider.flatten() + pending_pre(rest));
                                assert(children@ =~= current.children@.take(index as int));
                            }
                        },
                        None => {},
                    }
                }
                proof {
                    assert(below.subrange(0, count) =~= below);
                    assert(pending_pre(self.next@) =~= pending_pre(old(self).next@).drop_first());
                }
                Some(value)
            },
        }
    }
}

/// The values of `nodes`, in order.
pub open spec fn values<T>(nodes: Seq<Node<T>>) -> Seq<T> {
    Seq::new(nodes.len(), |i: int| nodes[i].value)
}

/// The values that a walk from the children of each node to the node has yet
/// to yield when `stack` holds the nodes that it has entered and not yet
/// yielded, each with the children that it has not entered, the deepest on
/// top.
pub open spec fn pending_post_values<T>(stack: Seq<Node<T>>) -> Seq<T>
    decreases stack.len(),
{
    if stack.len() == 0 {
        Seq::empty()
    } else {
        values(stack.last().visits::<Postorder>()) + pending_post_values(stack.drop_last())
    }
}

/// Taking the first child out of a node splits what the node has pending
/// into what the child has and what is left of the node.
pub proof fn lemma_first_child_out<T>(parent: Node<T>, left: Node<T>)
    requires
        parent.children@.len() > 0,
        left.value == parent.value,
        left.children@ == parent.children@.remove(0),
    ensures
        values(parent.visits::<Postorder>()) == values(parent.children@[0].visits::<Postorder>())
            + values(left.visits::<Postorder>()),
{
    let below = parent.visits_below::<Postorder>();
    let below_left = left.visits_below::<Postorder>();
    parent.lemma_visits_last();
    left.lemma_visits_last();
    assert(below.first() == parent.children@[0].visits::<Postorder>());
    assert(below.drop_first() =~= below_left);
    assert(below.flatten() =~= below.first() + below_left.flatten());
    assert(values(parent.visits::<Postorder>()) =~= values(
        parent.children@[0].visits::<Postorder>(),
    ) + values(left.visits::<Postorder>()));
}

impl<T, S> InPostOwned<T, S> {
    /// Yields the node that comes next, without children: the children of a
    /// node in order, then the node.
    pub fn next(&mut self) -> (yielded: Option<Node<T>>)
        ensures
            match yielded {
                Some(node) => {
                    &&& node.children@.len() == 0
                    &&& pending_post_values(old(self).next@).len() > 0
                    &&& node.value == pending_post_values(old(self).next@)[0]
                    &&& pending_post_values(final(self).next@) == pending_post_values(
                        old(self).next@,
                    ).drop_first()
                },
                None => {
                    &&& pending_post_values(old(self).next@).len() == 0
                    &&& final(self).next@ == old(self).next@
                },
            },
    {
        loop
            invariant
                pending_post_values(self.next@) == pending_post_values(old(self).next@),
                self.next@.len() == 0 ==> self.next@ == old(self).next@,
            decreases top_height(self.next@),
        {
            let ghost before = self.next@;
            match self.next.pop() {
                None => {
                    return None;
                },
                Some(parent) => {
                    let ghost rest = self.next@;
                    let ghost whole = parent;
                    proof {
                        assert(before.last() == parent);
                        assert(before.drop_last() =~= rest);
                    }
                    let mut parent = parent;
                    if parent.children.len() > 0 {
                        let child = parent.children.remove(0);
                        proof {
                            lemma_first_child_out(whole, parent);
                            lemma_child_height(whole, 0);
                        }
                        self.next.push(parent);
                        self.next.push(child);
                        proof {
                            let now = self.next@;
                            assert(now.last() == child);
                            let under = now.drop_last();
                            assert(under.last() == parent);
                            assert(under.drop_last() =~= rest);
                            assert(pending_post_values(under) =~= values(
                                parent.visits::<Postorder>(),
                            ) + pending_post_values(rest));
                            assert(pending_post_values(now) =~= values(
                                child.visits::<Postorder>(),
                            ) + pending_post_values(under));
                            assert(pending_post_values(before) =~= values(
                                whole.visits::<Postorder>(),
                            ) + pending_post_values(rest));
                            assert(pending_post_values(now) =~= pending_post_values(before));
                        }
                    } else {
                        proof {
                            let below = whole.visits_below::<Postorder>();
                            whole.lemma_visits_last();
                            assert(below =~= Seq::<Seq<Node<T>>>::empty());
                            assert(below.flatten() =~= Seq::<Node<T>>::empty());
                            assert(values(whole.visits::<Postorder>()) =~= seq![whole.value]);
                            assert(pending_post_values(before) =~= seq![whole.value]
                                + pending_post_values(rest));
                            assert(pending_post_values(rest) =~= pending_post_values(
                                before,
                            ).drop_first());
                        }
                        return Some(parent);
                    }
                },
            }
        }
    }
}

} // verus!
