//! What holds of every tree, every visitor and every order policy.

use crate::node::{Node, Tree};
use crate::order::Order;
use crate::relation::{lemma_built_agree, lemma_built_shape, lemma_folded_agree};
use crate::traverse::{mapped, reduced, Traverse};
use crate::traverse_owned::mapped_owned;
use vstd::prelude::*;

verus! {

/// A map keeps the shape: the tree that a visitor builds from a borrowed
/// tree has as many children as the source at every position.
pub proof fn lemma_shape_preserved<T, R, F>(f: F, src: Node<T>, out: Node<R>) where
    F: FnMut(&Node<T>) -> R,

    requires
        mapped(f, src, out),
    ensures
        out@.same_shape(src@),
{
    lemma_built_shape(src, out, |node: Node<T>, value: R| call_ensures(f, (&node,), value));
}

/// Ownership does not matter to a map: where a visitor of the borrowed tree
/// and a visitor of the owned tree return the same value for every node, the
/// trees that they build from one source are equal as trees.
pub proof fn lemma_ownership_equivalence<T, R, F, G>(
    borrowing: F,
    owning: G,
    src: Node<T>,
    from_borrowed: Node<R>,
    from_owned: Node<R>,
) where F: FnMut(&Node<T>) -> R, G: FnMut(T, &[Node<T>]) -> R
    requires
        mapped(borrowing, src, from_borrowed),
        mapped_owned(owning, src, from_owned),
        forall|node: Node<T>, below: &[Node<T>], a: R, b: R|
            below@ == node.children@ && #[trigger] call_ensures(borrowing, (&node,), a)
                && #[trigger] call_ensures(owning, (node.value, below), b) ==> a == b,
    ensures
        from_borrowed@ == from_owned@,
{
    let one = |node: Node<T>, value: R| call_ensures(borrowing, (&node,), value);
    let other = |node: Node<T>, value: R|
        exists|below: &[Node<T>]|
            below@ == node.children@ && #[trigger] call_ensures(owning, (node.value, below), value);
    assert forall|node: Node<T>, a: R, b: R| #[trigger] one(node, a) && #[trigger] other(
        node,
        b,
    ) implies a == b by {
        let below = choose|below: &[Node<T>]|
            below@ == node.children@ && #[trigger] call_ensures(owning, (node.value, below), b);
        assert(call_ensures(borrowing, (&node,), a));
    }
    lemma_built_agree(src, from_borrowed, from_owned, one, other);
}

/// The length of a flattened sequence is the sum of the lengths of its
/// members, here of the visits below a node.
proof fn lemma_visits_below_len<O: Order, T>(node: Node<T>, upto: int)
    requires
        0 <= upto <= node.children@.len(),
        forall|i: int|
            0 <= i < node.children@.len() ==> (#[trigger] node.children@[i]).visits::<O>().len()
                == node.children@[i]@.size() + 1,
    ensures
        node.visits_below::<O>().take(upto).flatten().len() == upto + Tree::total_size(
            node@.children.take(upto),
        ),
    decreases upto,
{
    broadcast use Seq::lemma_flatten_push;

    let below = node.visits_below::<O>();
    if upto == 0 {
        assert(below.take(0) =~= Seq::<Seq<Node<T>>>::empty());
        assert(below.take(0).flatten() =~= Seq::<Node<T>>::empty());
        assert(node@.children.take(0) =~= Seq::<Tree<T>>::empty());
    } else {
        lemma_visits_below_len::<O, T>(node, upto - 1);
        assert(below.take(upto) =~= below.take(upto - 1).push(below[upto - 1]));
        let forest = node@.children.take(upto);
        assert(forest.drop_last() =~= node@.children.take(upto - 1));
        assert(forest.last() == node.children@[upto - 1]@);
    }
}

/// Every node is evaluated exactly once: under any order policy the visits
/// of a tree are as many as its descendants, and one for the root.
pub proof fn lemma_visits_count<O: Order, T>(node: Node<T>)
    ensures
        node.visits::<O>().len() == node@.size() + 1,
    decreases node,
{
    let below = node.visits_below::<O>();
    let count = node.children@.len() as int;
    assert(node.children.len() == count);
    O::lemma_lawful(node.children@.len());
    let position = O::position(node.children@.len()) as int;
    assert forall|i: int| 0 <= i < count implies (#[trigger] node.children@[i]).visits::<O>().len()
        == node.children@[i]@.size() + 1 by {
        lemma_visits_count::<O, T>(node.children@[i]);
    }
    lemma_visits_below_len::<O, T>(node, count);
    assert(below.take(count) =~= below);
    assert(node@.children.take(count) =~= node@.children);
    assert(below.take(position) + below.skip(position) =~= below);
    vstd::seq_lib::lemma_flatten_concat(below.take(position), below.skip(position));
}

/// A flattened sequence holds what its members hold.
proof fn lemma_flatten_contains<A>(parts: Seq<Seq<A>>, item: A)
    ensures
        parts.flatten().contains(item) <==> exists|j: int|
            0 <= j < parts.len() && (#[trigger] parts[j]).contains(item),
    decreases parts.len(),
{
    if parts.len() > 0 {
        let rest = parts.drop_first();
        lemma_flatten_contains(rest, item);
        let flat = parts.flatten();
        assert(flat =~= parts.first() + rest.flatten());
        if flat.contains(item) {
            let k = choose|k: int| 0 <= k < flat.len() && flat[k] == item;
            if k < parts.first().len() {
                assert(parts.first()[k] == item);
                assert(parts[0].contains(item));
            } else {
                assert(rest.flatten()[k - parts.first().len()] == item);
                assert(rest.flatten().contains(item));
                let j = choose|j: int| 0 <= j < rest.len() && (#[trigger] rest[j]).contains(item);
                assert(parts[j + 1].contains(item));
            }
        }
        if exists|j: int| 0 <= j < parts.len() && (#[trigger] parts[j]).contains(item) {
            let j = choose|j: int| 0 <= j < parts.len() && (#[trigger] parts[j]).contains(item);
            let k = choose|k: int| 0 <= k < parts[j].len() && parts[j][k] == item;
            if j == 0 {
                assert(flat[k] == item);
            } else {
                assert(rest[j - 1].contains(item));
                assert(rest.flatten().contains(item));
                let m = choose|m: int| 0 <= m < rest.flatten().len() && rest.flatten()[m] == item;
                assert(flat[parts.first().len() + m] == item);
            }
        }
    }
}

/// The visits of a tree are its nodes: under any order policy a node is
/// evaluated if and only if it is the root or a descendant of the root.
pub proof fn lemma_visits_has<O: Order, T>(root: Node<T>, node: Node<T>)
    ensures
        root.visits::<O>().contains(node) <==> root.has(node),
    decreases root,
{
    let below = root.visits_below::<O>();
    let count = root.children@.len() as int;
    assert(root.children.len() == count);
    O::lemma_lawful(root.children@.len());
    let position = O::position(root.children@.len()) as int;
    let before = below.take(position);
    let after = below.skip(position);
    let visits = root.visits::<O>();
    lemma_flatten_contains(before, node);
    lemma_flatten_contains(after, node);
    assert forall|i: int| 0 <= i < count implies ((#[trigger] below[i]).contains(node)
        <==> root.children@[i].has(node)) by {
        lemma_visits_has::<O, T>(root.children@[i], node);
    }
    if visits.contains(node) {
        let k = choose|k: int| 0 <= k < visits.len() && visits[k] == node;
        if k < before.flatten().len() {
            assert(before.flatten()[k] == node);
            assert(before.flatten().contains(node));
            let j = choose|j: int| 0 <= j < before.len() && (#[trigger] before[j]).contains(node);
            assert(below[j].contains(node));
            assert(root.children@[j].has(node));
        } else if k > before.flatten().len() {
            assert(after.flatten()[k - before.flatten().len() - 1] == node);
            assert(after.flatten().contains(node));
            let j = choose|j: int| 0 <= j < after.len() && (#[trigger] after[j]).contains(node);
            assert(below[j + position].contains(node));
            assert(root.children@[j + position].has(node));
        }
    }
    if root.has(node) {
        if node == root {
            assert(visits[before.flatten().len() as int] == node);
        } else {
            let i = choose|i: int|
                0 <= i < root.children@.len() && (#[trigger] root.children@[i]).has(node);
            assert(below[i].contains(node));
            if i < position {
                assert(before[i].contains(node));
                assert(before.flatten().contains(node));
                let m = choose|m: int|
                    0 <= m < before.flatten().len() && before.flatten()[m] == node;
                assert(visits[m] == node);
            } else {
                assert(after[i - position].contains(node));
                assert(after.flatten().contains(node));
                let m = choose|m: int| 0 <= m < after.flatten().len() && after.flatten()[m] == node;
                assert(visits[before.flatten().len() + 1 + m] == node);
            }
        }
    }
}

/// The execution strategy does not matter to a map: for a visitor that
/// returns one value for a node, whatever the sequential walk and the
/// concurrent fan-out build from one source are equal as trees.
pub proof fn lemma_strategy_equivalence_map<T, R, F>(
    f: F,
    src: Node<T>,
    sequential: Node<R>,
    concurrent: Node<R>,
) where F: Fn(&Node<T>) -> R
    requires
        mapped(f, src, sequential),
        mapped(f, src, concurrent),
        forall|node: Node<T>, a: R, b: R|
            #![trigger call_ensures(f, (&node,), a), call_ensures(f, (&node,), b)]
            call_ensures(f, (&node,), a) && call_ensures(f, (&node,), b) ==> a == b,
    ensures
        sequential@ == concurrent@,
{
    let step = |node: Node<T>, value: R| call_ensures(f, (&node,), value);
    assert forall|node: Node<T>, a: R, b: R| #[trigger] step(node, a) && #[trigger] step(
        node,
        b,
    ) implies a == b by {
        assert(call_ensures(f, (&node,), a) && call_ensures(f, (&node,), b));
    }
    lemma_built_agree(src, sequential, concurrent, step, step);
}

/// The execution strategy does not matter to a fold: for a visitor that
/// returns one value for a node and the results of its children, whatever
/// the sequential walk and the concurrent fan-out fold one source into is
/// the same.
pub proof fn lemma_strategy_equivalence_reduce<T, R, F>(
    f: F,
    src: Node<T>,
    sequential: R,
    concurrent: R,
) where F: Fn(&Node<T>, Vec<R>) -> R
    requires
        reduced(f, src, sequential),
        reduced(f, src, concurrent),
        forall|node: Node<T>, given: Vec<R>, handed: Vec<R>, a: R, b: R|
            #![trigger call_ensures(f, (&node, given), a), call_ensures(f, (&node, handed), b)]
            given@ == handed@ && call_ensures(f, (&node, given), a) && call_ensures(
                f,
                (&node, handed),
                b,
            ) ==> a == b,
    ensures
        sequential == concurrent,
{
    let step = |node: Node<T>, results: Seq<R>, value: R|
        exists|handed: Vec<R>|
            handed@ == results && #[trigger] call_ensures(f, (&node, handed), value);
    assert forall|node: Node<T>, results: Seq<R>, a: R, b: R| #[trigger] step(
        node,
        results,
        a,
    ) && #[trigger] step(node, results, b) implies a == b by {
        let given = choose|handed: Vec<R>|
            handed@ == results && #[trigger] call_ensures(f, (&node, handed), a);
        let handed = choose|handed: Vec<R>|
            handed@ == results && #[trigger] call_ensures(f, (&node, handed), b);
        assert(call_ensures(f, (&node, given), a) && call_ensures(f, (&node, handed), b));
    }
    lemma_folded_agree(src, sequential, concurrent, step, step);
}

/// A traversal keeps no state: two handles on one tree have the same nodes
/// to evaluate, in the same order, under any order policy.
pub proof fn lemma_no_hidden_state<'a, O: Order, T, S>(
    first: Traverse<'a, T, S>,
    second: Traverse<'a, T, S>,
)
    requires
        *first.node == *second.node,
    ensures
        first.node.visits::<O>() == second.node.visits::<O>(),
{
}

} // verus!
