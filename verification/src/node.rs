//! The tree container: one value and an ordered list of child nodes.

use vstd::prelude::*;
use vstd::std_specs::cmp::{PartialEqSpec, PartialEqSpecImpl};

verus! {

/// A vertex of an n-ary tree. It owns its value and every one of its children,
/// in the order in which they were appended.
#[derive(Debug)]
pub struct Node<T> {
    pub value: T,
    pub children: Vec<Node<T>>,
}

/// The mathematical tree that a [`Node`] stands for: a value and a finite
/// sequence of subtrees.
pub struct Tree<T> {
    pub value: T,
    pub children: Seq<Tree<T>>,
}

impl<T> Tree<T> {
    /// A tree without children.
    pub open spec fn leaf(value: T) -> Tree<T> {
        Tree { value, children: Seq::empty() }
    }

    /// The number of descendants: 0 for a leaf.
    pub open spec fn size(self) -> nat
        decreases self,
    {
        self.children.len() + Self::total_size(self.children)
    }

    /// The sum of the sizes of the trees of `forest`.
    pub open spec fn total_size(forest: Seq<Tree<T>>) -> nat
        decreases forest,
    {
        if forest.len() == 0 {
            0
        } else {
            Self::total_size(forest.drop_last()) + forest.last().size()
        }
    }

    /// The number of nodes on the longest branch: 1 for a leaf.
    pub open spec fn height(self) -> nat
        decreases self,
    {
        Self::tallest(self.children) + 1
    }

    /// The greatest height among the trees of `forest`, 0 where it is empty.
    pub open spec fn tallest(forest: Seq<Tree<T>>) -> nat
        decreases forest,
    {
        if forest.len() == 0 {
            0
        } else {
            let rest = Self::tallest(forest.drop_last());
            let last = forest.last().height();
            if last > rest {
                last
            } else {
                rest
            }
        }
    }

    /// No tree of `forest` is taller than `tallest` says.
    pub proof fn lemma_tallest(forest: Seq<Tree<T>>, i: int)
        requires
            0 <= i < forest.len(),
        ensures
            forest[i].height() <= Self::tallest(forest),
        decreases forest.len(),
    {
        if i < forest.len() - 1 {
            Self::lemma_tallest(forest.drop_last(), i);
        }
    }

    /// Whether `self` and `other` have the same number of children at every
    /// corresponding position.
    pub open spec fn same_shape<R>(self, other: Tree<R>) -> bool
        decreases self,
    {
        &&& self.children.len() == other.children.len()
        &&& forall|i: int|
            0 <= i < self.children.len() ==> (#[trigger] self.children[i]).same_shape(
                other.children[i],
            )
    }
}

/// The value that `usize` arithmetic reaches when it saturates at `n`.
pub open spec fn saturated(n: nat) -> usize {
    if n <= usize::MAX {
        n as usize
    } else {
        usize::MAX
    }
}

impl<T> Node<T> {
    /// The tree of `self`.
    pub open spec fn tree(self) -> Tree<T>
        decreases self,
    {
        Tree {
            value: self.value,
            children: Seq::new(
                self.children@.len(),
                |i: int|
                    if 0 <= i < self.children@.len() {
                        self.children@[i].tree()
                    } else {
                        arbitrary()
                    },
            ),
        }
    }

    /// The trees of the nodes of `nodes`, in order.
    pub open spec fn forest(nodes: Seq<Node<T>>) -> Seq<Tree<T>> {
        Seq::new(nodes.len(), |i: int| nodes[i].tree())
    }

    /// The tree of a node holds the trees of its children, in order.
    pub proof fn lemma_tree(self)
        ensures
            self@.value == self.value,
            self@.children == Self::forest(self.children@),
    {
        assert(self@.children =~= Self::forest(self.children@));
    }

    /// A leaf that holds `value`.
    pub fn new(value: T) -> (node: Self)
        ensures
            node.value == value,
            node.children@ == Seq::<Node<T>>::empty(),
            node@ == Tree::leaf(value),
    {
        let node = Node { value, children: Vec::new() };
        proof {
            assert(node@.children =~= Seq::<Tree<T>>::empty());
        }
        node
    }

    /// Replaces the child list of `self` by `children`.
    pub fn with_children(self, children: Vec<Node<T>>) -> (node: Self)
        ensures
            node.value == self.value,
            node.children == children,
    {
        let mut node = self;
        node.children = children;
        node
    }

    /// Replaces the value of `self`.
    pub fn set_value(&mut self, value: T)
        ensures
            final(self).value == value,
            final(self).children == old(self).children,
    {
        self.value = value;
    }

    /// The value of `self`.
    pub fn value(&self) -> (value: &T)
        ensures
            *value == self.value,
    {
        &self.value
    }

    /// The value of `self`, open to change.
    pub fn value_mut(&mut self) -> (value: &mut T)
        ensures
            *value == old(self).value,
            final(self).value == *final(value),
            final(self).children == old(self).children,
    {
        &mut self.value
    }

    /// The children of `self`, in order.
    pub fn children(&self) -> (children: &Vec<Node<T>>)
        ensures
            *children == self.children,
    {
        &self.children
    }

    /// The children of `self`, open to change.
    pub fn children_mut(&mut self) -> (children: &mut Vec<Node<T>>)
        ensures
            *children == old(self).children,
            final(self).children == *final(children),
            final(self).value == old(self).value,
    {
        &mut self.children
    }

    /// Appends `child` to the children of `self` and returns how many there
    /// are now.
    pub fn add_child(&mut self, child: Node<T>) -> (count: usize)
        ensures
            final(self).value == old(self).value,
            final(self).children@ == old(self).children@.push(child),
            count == old(self).children@.len() + 1,
    {
        self.children.push(child);
        self.children.len()
    }

    /// Takes the child at `index` out of `self`, if there is one.
    pub fn remove_child(&mut self, index: usize) -> (removed: Option<Node<T>>)
        ensures
            final(self).value == old(self).value,
            index < old(self).children@.len() ==> removed == Some(
                old(self).children@[index as int],
            ) && final(self).children@ == old(self).children@.remove(index as int),
            index >= old(self).children@.len() ==> removed.is_none() && final(self).children@
                == old(self).children@,
    {
        if index < self.children.len() {
            Some(self.children.remove(index))
        } else {
            None
        }
    }

    /// The number of children of `self`.
    pub fn children_len(&self) -> (count: usize)
        ensures
            count == self.children@.len(),
    {
        self.children.len()
    }

    /// The number of descendants of `self`, 0 for a leaf; `usize::MAX` where
    /// there are more than that.
    pub fn size(&self) -> (size: usize)
        ensures
            size == saturated(self@.size()),
        decreases self,
    {
        let count = self.children.len();
        let mut size = count;
        let mut index: usize = 0;
        proof {
            assert(self@.children.take(0) =~= Seq::<Tree<T>>::empty());
        }
        while index < count
            invariant
                index <= count,
                count == self.children@.len(),
                size == saturated((count + Tree::total_size(self@.children.take(index as int))) as nat),
            decreases count - index,
        {
            let below = self.children[index].size();
            proof {
                let forest = self@.children.take(index + 1);
                assert(forest.drop_last() =~= self@.children.take(index as int));
                assert(forest.last() == self.children@[index as int]@);
            }
            size = size.saturating_add(below);
            index += 1;
        }
        proof {
            assert(self@.children.take(count as int) =~= self@.children);
        }
        size
    }

    /// The number of nodes on the longest branch of `self`, 1 for a leaf;
    /// `usize::MAX` where there are more than that.
    pub fn height(&self) -> (height: usize)
        ensures
            height == saturated(self@.height()),
        decreases self,
    {
        let count = self.children.len();
        let mut tallest: usize = 0;
        let mut index: usize = 0;
        proof {
            assert(self@.children.take(0) =~= Seq::<Tree<T>>::empty());
        }
        while index < count
            invariant
                index <= count,
                count == self.children@.len(),
                tallest == saturated(Tree::tallest(self@.children.take(index as int))),
            decreases count - index,
        {
            let below = self.children[index].height();
            proof {
                let forest = self@.children.take(index + 1);
                assert(forest.drop_last() =~= self@.children.take(index as int));
                assert(forest.last() == self.children@[index as int]@);
            }
            if below > tallest {
                tallest = below;
            }
            index += 1;
        }
        proof {
            assert(self@.children.take(count as int) =~= self@.children);
        }
        tallest.saturating_add(1)
    }
}

/// Whether `copy` is what cloning `node` value by value can give: the two
/// have the same children at every position, and each value of `copy` is a
/// clone of the value at its place in `node`.
pub open spec fn copied<T: Clone>(node: Node<T>, copy: Node<T>) -> bool
    decreases node,
{
    &&& cloned(node.value, copy.value)
    &&& copy.children@.len() == node.children@.len()
    &&& forall|i: int|
        0 <= i < node.children@.len() ==> copied(node.children@[i], #[trigger] copy.children@[i])
}

impl<T: Clone> Clone for Node<T> {
    /// A tree of the same shape whose values are clones of those of `self`.
    fn clone(&self) -> (copy: Self)
        ensures
            copied(*self, copy),
        decreases self,
    {
        let value = self.value.clone();
        let mut children: Vec<Node<T>> = Vec::with_capacity(self.children.len());
        let mut index: usize = 0;
        while index < self.children.len()
            invariant
                index <= self.children@.len(),
                children@.len() == index,
                forall|i: int|
                    0 <= i < index ==> copied(self.children@[i], #[trigger] children@[i]),
            decreases self.children@.len() - index,
        {
            let child = self.children[index].clone();
            children.push(child);
            index += 1;
        }
        Node { value, children }
    }
}

/// Whether `left` and `right` have the same children at every position and
/// values that `==` takes for equal.
pub open spec fn alike<T: PartialEq>(left: Node<T>, right: Node<T>) -> bool
    decreases left,
{
    &&& left.value.eq_spec(&right.value)
    &&& left.children@.len() == right.children@.len()
    &&& forall|i: int|
        0 <= i < left.children@.len() ==> alike(#[trigger] left.children@[i], right.children@[i])
}

impl<T: PartialEq> PartialEq for Node<T> {
    fn eq(&self, other: &Self) -> (equal: bool)
        decreases self,
    {
        if !(self.value == other.value) {
            return false;
        }
        if self.children.len() != other.children.len() {
            return false;
        }
        let mut index: usize = 0;
        while index < self.children.len()
            invariant
                index <= self.children@.len(),
                self.children@.len() == other.children@.len(),
                <T as PartialEqSpec>::obeys_eq_spec() ==> forall|i: int|
                    0 <= i < index ==> alike(#[trigger] self.children@[i], other.children@[i]),
            decreases self.children@.len() - index,
        {
            if !(self.children[index] == other.children[index]) {
                return false;
            }
            index += 1;
        }
        true
    }
}

impl<T: PartialEq> PartialEqSpecImpl for Node<T> {
    open spec fn obeys_eq_spec() -> bool {
        <T as PartialEqSpec>::obeys_eq_spec()
    }

    open spec fn eq_spec(&self, other: &Self) -> bool {
        alike(*self, *other)
    }
}

impl<T> View for Node<T> {
    type V = Tree<T>;

    open spec fn view(&self) -> Tree<T> {
        self.tree()
    }
}

} // verus!
