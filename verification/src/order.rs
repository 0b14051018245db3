//! Order policies: when a node is visited relative to its children.
//!
//! A policy is consulted once per iteration of a per-node loop. It says
//! whether the node itself is evaluated now, and into which child the loop
//! descends next. The loop ends when the policy names a child that the node
//! does not have.

use crate::node::Node;
use vstd::prelude::*;

verus! {

/// One step of the schedule of a node.
#[derive(Debug, Clone, Copy, PartialEq, Eq)]
pub enum OrderFlow {
    /// Descend into the child at this index.
    ContinueWith(usize),
    /// Evaluate the node itself.
    EvaluateSelf,
}

/// The decisions of a policy: a stateless rule that is consulted at every
/// iteration of the loop of a node. What it decides depends on the number of
/// children of the node and on the iteration alone.
pub trait Policy: Sized {
    /// Whether a node with `children` children is evaluated at `iteration`.
    spec fn visits_self(children: nat, iteration: nat) -> bool;

    /// The child that the loop enters at `iteration`, if it enters one.
    spec fn descends_into(children: nat, iteration: nat) -> Option<nat>;

    /// An iteration at which the policy names a child that does not exist.
    spec fn horizon(children: nat) -> nat;

    /// Whether `node` is to be evaluated at `iteration`.
    fn evaluate_self<T>(node: &Node<T>, iteration: usize) -> (now: bool)
        ensures
            now == Self::visits_self(node.children@.len(), iteration as nat),
    ;

    /// The index of the child of `node` to descend into at `iteration`.
    fn continue_with<T>(node: &Node<T>, iteration: usize) -> (next: Option<usize>)
        ensures
            Self::descends_into(node.children@.len(), iteration as nat) == match next {
                Some(index) => Some(index as nat),
                None => None,
            },
    ;
}

/// A policy whose schedule is an order: the loop ends, the children are
/// entered once each from the first to the last, and the node is evaluated
/// once, after `position` of them.
pub trait Order: Policy {
    /// The number of children that are entered before the node is evaluated.
    spec fn position(children: nat) -> nat;

    /// The schedule of the policy is the order that `position` describes.
    proof fn lemma_lawful(children: nat)
        requires
            children <= usize::MAX,
        ensures
            Self::horizon(children) <= usize::MAX,
            leaves(Self::descends_into(children, Self::horizon(children)), children),
            Self::position(children) <= children,
            steps_from::<Self>(children, 0) == ordered(Self::position(children), children),
    ;
}

/// Whether `next` names a child that a node with `children` children lacks.
pub open spec fn leaves(next: Option<nat>, children: nat) -> bool {
    match next {
        Some(index) => index >= children,
        None => false,
    }
}

/// The evaluation of the node, where the policy `O` asks for it at `iteration`.
pub open spec fn evaluation<O: Policy>(children: nat, iteration: nat) -> Seq<OrderFlow> {
    if O::visits_self(children, iteration) {
        seq![OrderFlow::EvaluateSelf]
    } else {
        Seq::empty()
    }
}

/// The steps that the per-node loop takes under the policy `O` from
/// `iteration` on, for a node with `children` children.
pub open spec fn steps_from<O: Policy>(children: nat, iteration: nat) -> Seq<OrderFlow>
    decreases O::horizon(children) - iteration,
{
    if iteration >= O::horizon(children) {
        evaluation::<O>(children, iteration)
    } else {
        match O::descends_into(children, iteration) {
            Some(index) => if index < children {
                evaluation::<O>(children, iteration) + seq![
                    OrderFlow::ContinueWith(index as usize),
                ] + steps_from::<O>(children, iteration + 1)
            } else {
                evaluation::<O>(children, iteration)
            },
            None => evaluation::<O>(children, iteration) + steps_from::<O>(
                children,
                iteration + 1,
            ),
        }
    }
}

/// The descents into the children `from..to`, in order.
pub open spec fn descents(from: nat, to: nat) -> Seq<OrderFlow> {
    Seq::new((to - from) as nat, |j: int| OrderFlow::ContinueWith((from + j) as usize))
}

/// The schedule that enters `position` children, evaluates the node, and
/// enters the other children: `children + 1` steps.
pub open spec fn ordered(position: nat, children: nat) -> Seq<OrderFlow> {
    descents(0, position) + seq![OrderFlow::EvaluateSelf] + descents(position, children)
}

/// The number of children that have been entered after `step` steps of the
/// schedule `ordered(position, ..)`.
pub open spec fn entered(position: nat, step: int) -> int {
    if step <= position {
        step
    } else {
        step - 1
    }
}

/// The schedule of `node` under the policy `O`: the steps of its loop, from
/// the first to the one before the policy leaves the child list.
pub fn schedule<O: Order, T>(node: &Node<T>) -> (plan: Vec<OrderFlow>)
    ensures
        plan@ == steps_from::<O>(node.children@.len(), 0),
        plan@ == ordered(O::position(node.children@.len()), node.children@.len()),
{
    let count = node.children.len();
    let ghost children = count as nat;
    proof {
        O::lemma_lawful(children);
    }
    let mut plan: Vec<OrderFlow> = Vec::new();
    let mut iteration: usize = 0;
    loop
        invariant_except_break
            plan@ + steps_from::<O>(children, iteration as nat) == steps_from::<O>(children, 0),
        invariant
            children == node.children@.len(),
            count == children,
            iteration <= O::horizon(children) <= usize::MAX,
            leaves(O::descends_into(children, O::horizon(children)), children),
        ensures
            plan@ == steps_from::<O>(children, 0),
        decreases O::horizon(children) - iteration,
    {
        let ghost before = plan@;
        if O::evaluate_self(node, iteration) {
            plan.push(OrderFlow::EvaluateSelf);
        }
        assert(plan@ =~= before + evaluation::<O>(children, iteration as nat));
        match O::continue_with(node, iteration) {
            Some(index) => {
                if index < count {
                    plan.push(OrderFlow::ContinueWith(index));
                } else {
                    assert(plan@ =~= before + steps_from::<O>(children, iteration as nat));
                    break ;
                }
            },
            None => {},
        }
        assert(iteration < O::horizon(children));
        assert(plan@ + steps_from::<O>(children, (iteration + 1) as nat) =~= before
            + steps_from::<O>(children, iteration as nat));
        iteration += 1;
    }
    plan
}

/// Evaluates a node before any of its children.
pub struct Preorder;

/// Evaluates a node once all its children have been processed.
pub struct Postorder;

impl Preorder {
    /// From the second iteration on, the loop only descends.
    proof fn lemma_descends(children: nat, iteration: nat)
        requires
            1 <= iteration <= children <= usize::MAX,
        ensures
            steps_from::<Preorder>(children, iteration) == descents(iteration, children),
        decreases children - iteration,
    {
        if iteration < children {
            Self::lemma_descends(children, iteration + 1);
            assert(steps_from::<Preorder>(children, iteration) =~= descents(iteration, children));
        } else {
            assert(steps_from::<Preorder>(children, iteration) =~= descents(iteration, children));
        }
    }
}

impl Policy for Preorder {
    open spec fn visits_self(children: nat, iteration: nat) -> bool {
        iteration == 0
    }

    open spec fn descends_into(children: nat, iteration: nat) -> Option<nat> {
        Some(iteration)
    }

    open spec fn horizon(children: nat) -> nat {
        children
    }

    fn evaluate_self<T>(node: &Node<T>, iteration: usize) -> (now: bool) {
        iteration == 0
    }

    fn continue_with<T>(node: &Node<T>, iteration: usize) -> (next: Option<usize>) {
        Some(iteration)
    }
}

impl Order for Preorder {
    open spec fn position(children: nat) -> nat {
        0
    }

    proof fn lemma_lawful(children: nat) {
        if children > 0 {
            Self::lemma_descends(children, 1);
            assert(descents(0, children) =~= seq![OrderFlow::ContinueWith(0)] + descents(
                1,
                children,
            ));
        }
        assert(steps_from::<Preorder>(children, 0) =~= ordered(0, children));
    }
}

impl Postorder {
    /// The loop descends into the children that are left and then evaluates.
    proof fn lemma_descends(children: nat, iteration: nat)
        requires
            iteration <= children <= usize::MAX,
        ensures
            steps_from::<Postorder>(children, iteration) == descents(iteration, children) + seq![
                OrderFlow::EvaluateSelf,
            ],
        decreases children - iteration,
    {
        if iteration < children {
            Self::lemma_descends(children, iteration + 1);
        }
        assert(steps_from::<Postorder>(children, iteration) =~= descents(iteration, children)
            + seq![OrderFlow::EvaluateSelf]);
    }
}

impl Policy for Postorder {
    open spec fn visits_self(children: nat, iteration: nat) -> bool {
        iteration == children
    }

    open spec fn descends_into(children: nat, iteration: nat) -> Option<nat> {
        Some(iteration)
    }

    open spec fn horizon(children: nat) -> nat {
        children
    }

    fn evaluate_self<T>(node: &Node<T>, iteration: usize) -> (now: bool) {
        iteration == node.children.len()
    }

    fn continue_with<T>(node: &Node<T>, iteration: usize) -> (next: Option<usize>) {
        Some(iteration)
    }
}

impl Order for Postorder {
    open spec fn position(children: nat) -> nat {
        children
    }

    proof fn lemma_lawful(children: nat) {
        Self::lemma_descends(children, 0);
        assert(steps_from::<Postorder>(children, 0) =~= ordered(children, children));
    }
}

} // verus!
