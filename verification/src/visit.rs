//! The nodes of a tree, and the order in which a policy evaluates them.

use crate::node::{Node, Tree};
use crate::order::Order;
use vstd::prelude::*;

verus! {

impl<T> Node<T> {
    /// Whether `node` is `self` or one of its descendants.
    pub open spec fn has(self, node: Node<T>) -> bool
        decreases self,
    {
        node == self || exists|i: int|
            0 <= i < self.children@.len() && (#[trigger] self.children@[i]).has(node)
    }

    /// For each child of `self`, the nodes of its subtree in the order in
    /// which the policy `O` evaluates them.
    pub open spec fn visits_below<O: Order>(self) -> Seq<Seq<Node<T>>>
        decreases self, 0nat,
    {
        Seq::new(
            self.children@.len(),
            |i: int|
                if 0 <= i < self.children@.len() {
                    self.children@[i].visits::<O>()
                } else {
                    Seq::empty()
                },
        )
    }

    /// The nodes of the tree of `self` in the order in which the policy `O`
    /// evaluates them: the subtrees of the children before the position of
    /// the node, the node, the subtrees of the other children.
    pub open spec fn visits<O: Order>(self) -> Seq<Node<T>>
        decreases self, 1nat,
    {
        let below = self.visits_below::<O>();
        let position = O::position(self.children@.len()) as int;
        below.take(position).flatten() + seq![self] + below.skip(position).flatten()
    }

    /// What the loop of `self` has evaluated after `step` steps of its
    /// schedule under the policy `O`.
    pub open spec fn visits_until<O: Order>(self, step: int) -> Seq<Node<T>> {
        let below = self.visits_below::<O>();
        let position = O::position(self.children@.len()) as int;
        if step <= position {
            below.take(step).flatten()
        } else {
            below.take(position).flatten() + seq![self] + below.subrange(position, step - 1).flatten()
        }
    }

    /// The loop of `self` starts with nothing evaluated, gains the subtree of
    /// a child or the node at each step, and ends with all of `visits`.
    pub proof fn lemma_visits_until<O: Order>(self, step: int)
        requires
            self.children@.len() <= usize::MAX,
            0 <= step <= self.children@.len(),
        ensures
            self.visits_until::<O>(0) == Seq::<Node<T>>::empty(),
            self.visits_until::<O>(self.children@.len() as int + 1) == self.visits::<O>(),
            step < O::position(self.children@.len()) ==> self.visits_until::<O>(step + 1)
                == self.visits_until::<O>(step) + self.children@[step].visits::<O>(),
            step == O::position(self.children@.len()) ==> self.visits_until::<O>(step + 1)
                == self.visits_until::<O>(step) + seq![self],
            step > O::position(self.children@.len()) ==> self.visits_until::<O>(step + 1)
                == self.visits_until::<O>(step) + self.children@[step - 1].visits::<O>(),
    {
        broadcast use Seq::lemma_flatten_push;

        O::lemma_lawful(self.children@.len());
        let below = self.visits_below::<O>();
        let count = self.children@.len() as int;
        let position = O::position(self.children@.len()) as int;
        assert(below.take(0) =~= Seq::<Seq<Node<T>>>::empty());
        assert(below.take(0).flatten() =~= Seq::<Node<T>>::empty());
        assert(below.subrange(position, count) =~= below.skip(position));
        if step < position {
            assert(below.take(step + 1) =~= below.take(step).push(below[step]));
        } else if step == position {
            assert(below.subrange(position, position) =~= Seq::<Seq<Node<T>>>::empty());
            assert(below.subrange(position, position).flatten() =~= Seq::<Node<T>>::empty());
            assert(self.visits_until::<O>(step + 1) =~= self.visits_until::<O>(step) + seq![self]);
        } else {
            assert(below.subrange(position, step) =~= below.subrange(position, step - 1).push(
                below[step - 1],
            ));
            assert(self.visits_until::<O>(step + 1) =~= self.visits_until::<O>(step)
                + self.children@[step - 1].visits::<O>());
        }
    }
}

} // verus!
