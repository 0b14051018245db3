//! How the result of a traversal relates to the tree that was traversed,
//! whatever the visitor is: each relation is given the step that the visitor
//! takes at one node, and holds where every node was handled by that step at
//! its place.

use crate::node::{Node, Tree};
use vstd::prelude::*;

verus! {

/// Whether `out` has the children of `src` at every position, and the value
/// of each node of `out` is a value that `step` allows for the node of `src`
/// at its place.
pub open spec fn built<T, R>(src: Node<T>, out: Node<R>, step: spec_fn(Node<T>, R) -> bool) -> bool
    decreases src,
{
    &&& step(src, out.value)
    &&& out.children@.len() == src.children@.len()
    &&& forall|i: int|
        0 <= i < src.children@.len() ==> built(src.children@[i], #[trigger] out.children@[i], step)
}

/// Whether `out` has the children of `src` at every position, and the value
/// of each node of `out` is a value that `step` allows for the node of `src`
/// at its place and the new value of its parent, `base` for the root.
pub open spec fn built_down<T, R>(
    src: Node<T>,
    base: R,
    out: Node<R>,
    step: spec_fn(Node<T>, R, R) -> bool,
) -> bool
    decreases src,
{
    &&& step(src, base, out.value)
    &&& out.children@.len() == src.children@.len()
    &&& forall|i: int|
        0 <= i < src.children@.len() ==> built_down(
            src.children@[i],
            out.value,
            #[trigger] out.children@[i],
            step,
        )
}

/// Whether `out` has the children of `src` at every position, and the value
/// of each node of `out` is a value that `step` allows for the node of `src`
/// at its place and the first `position` children of that node of `out`,
/// where `position` is taken of the number of children.
pub open spec fn built_up<T, R>(
    src: Node<T>,
    out: Node<R>,
    position: spec_fn(nat) -> nat,
    step: spec_fn(Node<T>, Seq<Node<R>>, R) -> bool,
) -> bool
    decreases src,
{
    &&& out.children@.len() == src.children@.len()
    &&& forall|i: int|
        0 <= i < src.children@.len() ==> built_up(
            src.children@[i],
            #[trigger] out.children@[i],
            position,
            step,
        )
    &&& step(src, out.children@.take(position(src.children@.len()) as int), out.value)
}

/// Whether `result` is a value that `step` allows for `src` and results of
/// its children, in child order, that are related to the children in the
/// same way.
pub open spec fn folded_up<T, R>(
    src: Node<T>,
    result: R,
    step: spec_fn(Node<T>, Seq<R>, R) -> bool,
) -> bool
    decreases src,
{
    exists|results: Seq<R>|
        {
            &&& results.len() == src.children@.len()
            &&& forall|i: int|
                0 <= i < src.children@.len() ==> folded_up(
                    src.children@[i],
                    #[trigger] results[i],
                    step,
                )
            &&& #[trigger] step(src, results, result)
        }
}

/// Whether `step` allows a value for `src` and `base` such that every child
/// of `src` stands in the same relation with that value.
pub open spec fn handed_down<T, R>(src: Node<T>, base: R, step: spec_fn(Node<T>, R, R) -> bool) -> bool
    decreases src,
{
    exists|next: R|
        {
            &&& #[trigger] step(src, base, next)
            &&& forall|i: int|
                0 <= i < src.children@.len() ==> handed_down(
                    #[trigger] src.children@[i],
                    next,
                    step,
                )
        }
}

/// Whether `down` allows a value `next` for `src` and `base`, and `result` is
/// a value that `up` allows for `src`, `next` and results of the children of
/// `src`, in child order, that are related to the children and `next` in the
/// same way.
pub open spec fn folded_both<T, R, U>(
    src: Node<T>,
    base: R,
    result: U,
    down: spec_fn(Node<T>, R, R) -> bool,
    up: spec_fn(Node<T>, R, Seq<U>, U) -> bool,
) -> bool
    decreases src,
{
    exists|next: R, results: Seq<U>|
        {
            &&& #[trigger] down(src, base, next)
            &&& results.len() == src.children@.len()
            &&& forall|i: int|
                0 <= i < src.children@.len() ==> folded_both(
                    src.children@[i],
                    next,
                    #[trigger] results[i],
                    down,
                    up,
                )
            &&& #[trigger] up(src, next, results, result)
        }
}

/// Whether `out` has the children of `src` at every position, `down` allows
/// a value `next` for `src` and `base`, the value of `out` is a value that
/// `up` allows for `src`, `next` and the children of `out`, and the children
/// of `out` are related to those of `src` and `next` in the same way.
pub open spec fn built_both<T, R, U>(
    src: Node<T>,
    base: R,
    out: Node<U>,
    down: spec_fn(Node<T>, R, R) -> bool,
    up: spec_fn(Node<T>, R, Seq<Node<U>>, U) -> bool,
) -> bool
    decreases src,
{
    exists|next: R|
        {
            &&& #[trigger] down(src, base, next)
            &&& out.children@.len() == src.children@.len()
            &&& forall|i: int|
                0 <= i < src.children@.len() ==> built_both(
                    src.children@[i],
                    next,
                    #[trigger] out.children@[i],
                    down,
                    up,
                )
            &&& up(src, next, out.children@, out.value)
        }
}

/// A tree that was built node by node has the shape of its source.
pub proof fn lemma_built_shape<T, R>(src: Node<T>, out: Node<R>, step: spec_fn(Node<T>, R) -> bool)
    requires
        built(src, out, step),
    ensures
        out@.same_shape(src@),
    decreases src,
{
    assert forall|i: int| 0 <= i < out@.children.len() implies (#[trigger] out@.children[i]).same_shape(
        src@.children[i],
    ) by {
        lemma_built_shape(src.children@[i], out.children@[i], step);
    }
}

/// A tree that was built from the root down has the shape of its source.
pub proof fn lemma_built_down_shape<T, R>(
    src: Node<T>,
    base: R,
    out: Node<R>,
    step: spec_fn(Node<T>, R, R) -> bool,
)
    requires
        built_down(src, base, out, step),
    ensures
        out@.same_shape(src@),
    decreases src,
{
    assert forall|i: int| 0 <= i < out@.children.len() implies (#[trigger] out@.children[i]).same_shape(
        src@.children[i],
    ) by {
        lemma_built_down_shape(src.children@[i], out.value, out.children@[i], step);
    }
}

/// A tree that was built under an order policy has the shape of its source.
pub proof fn lemma_built_up_shape<T, R>(
    src: Node<T>,
    out: Node<R>,
    position: spec_fn(nat) -> nat,
    step: spec_fn(Node<T>, Seq<Node<R>>, R) -> bool,
)
    requires
        built_up(src, out, position, step),
    ensures
        out@.same_shape(src@),
    decreases src,
{
    assert forall|i: int| 0 <= i < out@.children.len() implies (#[trigger] out@.children[i]).same_shape(
        src@.children[i],
    ) by {
        lemma_built_up_shape(src.children@[i], out.children@[i], position, step);
    }
}

/// A tree that was built both ways has the shape of its source.
pub proof fn lemma_built_both_shape<T, R, U>(
    src: Node<T>,
    base: R,
    out: Node<U>,
    down: spec_fn(Node<T>, R, R) -> bool,
    up: spec_fn(Node<T>, R, Seq<Node<U>>, U) -> bool,
)
    requires
        built_both(src, base, out, down, up),
    ensures
        out@.same_shape(src@),
    decreases src,
{
    let next = choose|next: R|
        {
            &&& #[trigger] down(src, base, next)
            &&& out.children@.len() == src.children@.len()
            &&& forall|i: int|
                0 <= i < src.children@.len() ==> built_both(
                    src.children@[i],
                    next,
                    #[trigger] out.children@[i],
                    down,
                    up,
                )
            &&& up(src, next, out.children@, out.value)
        };
    assert forall|i: int| 0 <= i < out@.children.len() implies (#[trigger] out@.children[i]).same_shape(
        src@.children[i],
    ) by {
        lemma_built_both_shape(src.children@[i], next, out.children@[i], down, up);
    }
}

/// Two trees that were built node by node from one source, by steps that
/// allow no two different values for a node, are equal as trees.
pub proof fn lemma_built_agree<T, R>(
    src: Node<T>,
    left: Node<R>,
    right: Node<R>,
    one: spec_fn(Node<T>, R) -> bool,
    other: spec_fn(Node<T>, R) -> bool,
)
    requires
        built(src, left, one),
        built(src, right, other),
        forall|node: Node<T>, a: R, b: R| #[trigger] one(node, a) && #[trigger] other(node, b) ==> a == b,
    ensures
        left@ == right@,
    decreases src,
{
    assert forall|i: int| 0 <= i < left@.children.len() implies left@.children[i]
        == right@.children[i] by {
        lemma_built_agree(src.children@[i], left.children@[i], right.children@[i], one, other);
    }
    assert(left@.children =~= right@.children);
}

/// Two results that were folded from one source, by steps that allow no two
/// different values for a node and the results of its children, are equal.
pub proof fn lemma_folded_agree<T, R>(
    src: Node<T>,
    left: R,
    right: R,
    one: spec_fn(Node<T>, Seq<R>, R) -> bool,
    other: spec_fn(Node<T>, Seq<R>, R) -> bool,
)
    requires
        folded_up(src, left, one),
        folded_up(src, right, other),
        forall|node: Node<T>, results: Seq<R>, a: R, b: R| #[trigger]
            one(node, results, a) && #[trigger] other(node, results, b) ==> a == b,
    ensures
        left == right,
    decreases src,
{
    let first = choose|results: Seq<R>|
        {
            &&& results.len() == src.children@.len()
            &&& forall|i: int|
                0 <= i < src.children@.len() ==> folded_up(
                    src.children@[i],
                    #[trigger] results[i],
                    one,
                )
            &&& #[trigger] one(src, results, left)
        };
    let second = choose|results: Seq<R>|
        {
            &&& results.len() == src.children@.len()
            &&& forall|i: int|
                0 <= i < src.children@.len() ==> folded_up(
                    src.children@[i],
                    #[trigger] results[i],
                    other,
                )
            &&& #[trigger] other(src, results, right)
        };
    assert forall|i: int| 0 <= i < first.len() implies first[i] == second[i] by {
        lemma_folded_agree(src.children@[i], first[i], second[i], one, other);
    }
    assert(first =~= second);
}

} // verus!
