use ntree_rs::{Node, PreorderIter, Traverse, TraverseMut};

fn node<T>(value: T, children: Vec<Node<T>>) -> Node<T> {
    Node::new(value).with_children(children)
}

fn leaf<T>(value: T) -> Node<T> {
    Node::new(value)
}

fn sample() -> Node<i32> {
    node(10, vec![node(20, vec![leaf(40)]), node(30, vec![leaf(50)])])
}

fn grown() -> Node<i32> {
    let mut root = Node::new(10);
    let mut child1 = Node::new(20);
    let mut child2 = Node::new(30);
    let grandchild1 = Node::new(40);
    let grandchild2 = Node::new(50);

    child1.add_child(grandchild1);
    child2.add_child(grandchild2);
    root.add_child(child1);
    root.add_child(child2);
    root
}

#[test]
fn test_node_preorder() {
    let root = sample();

    let mut result = Vec::new();
    root.preorder(|n| result.push(*n.value()));

    assert_eq!(result, vec![10, 20, 40, 30, 50]);
}

#[test]
fn test_node_preorder_mut() {
    let mut root = node(10_i32, vec![node(20, vec![leaf(40)]), node(30, vec![leaf(50)])]);

    let mut result = Vec::new();
    root.preorder_mut(|n| {
        n.set_value(n.value().saturating_add(1));
        result.push(*n.value())
    });

    assert_eq!(result, vec![11, 21, 41, 31, 51]);
}

#[test]
fn test_node_postorder() {
    let root = sample();

    let mut result = Vec::new();
    root.postorder(|n| result.push(*n.value()));
    assert_eq!(result, vec![40, 20, 50, 30, 10]);
}

#[test]
fn test_node_postorder_mut() {
    let mut root = node(10_i32, vec![node(20, vec![leaf(40)]), node(30, vec![leaf(50)])]);

    let mut result = Vec::new();
    root.postorder_mut(|n| {
        n.set_value(n.value().saturating_add(1));
        result.push(*n.value())
    });

    assert_eq!(result, vec![41, 21, 51, 31, 11]);
}

#[test]
fn test_node_reduce() {
    let root = sample();

    let sum = root.reduce(|n, results| n.value() + results.iter().sum::<i32>());
    assert_eq!(sum, 150);
}

#[test]
fn test_node_reduce_mut() {
    let mut root = node(10_i32, vec![node(20, vec![leaf(40)]), node(30, vec![leaf(50)])]);

    let sum = root.reduce_mut(|n, results| {
        n.set_value(n.value().saturating_add(1));
        n.value() + results.iter().sum::<i32>()
    });

    assert_eq!(sum, 155);
}

#[test]
fn test_node_cascade() {
    let root = sample();

    let mut result = Vec::new();
    root.cascade(0, |n, parent_value| {
        result.push(n.value() + parent_value);
        n.value() + parent_value
    });

    assert_eq!(result, vec![10, 30, 70, 40, 90]);
}

#[test]
fn test_node_cascade_mut() {
    let mut root = sample();

    root.cascade_mut(0, |n, parent_value| {
        let next = n.value() + parent_value;
        n.set_value(*parent_value);
        next
    });

    assert_eq!(root.value, 0);
    assert_eq!(root.children[0].value, 10);
    assert_eq!(root.children[1].value, 10);
    assert_eq!(root.children[0].children[0].value, 30);
    assert_eq!(root.children[1].children[0].value, 40);
}

#[test]
fn sync_test_node_preorder() {
    let root = sample();

    let mut result = Vec::new();
    Traverse::new(&root).preorder(|n| result.push(*n.value()));

    assert_eq!(result, vec![10, 20, 40, 30, 50]);
}

#[test]
fn sync_test_node_preorder_mut() {
    let mut root = node(10_i32, vec![node(20, vec![leaf(40)]), node(30, vec![leaf(50)])]);

    let mut result = Vec::new();
    TraverseMut::new(&mut root).preorder(|n| {
        n.set_value(n.value().saturating_add(1));
        result.push(*n.value())
    });

    assert_eq!(result, vec![11, 21, 41, 31, 51]);
}

#[test]
fn sync_test_node_postorder() {
    let root = sample();

    let mut result = Vec::new();
    Traverse::new(&root).postorder(|n| result.push(*n.value()));
    assert_eq!(result, vec![40, 20, 50, 30, 10]);
}

#[test]
fn sync_test_node_postorder_mut() {
    let mut root = node(10_i32, vec![node(20, vec![leaf(40)]), node(30, vec![leaf(50)])]);

    let mut result = Vec::new();
    TraverseMut::new(&mut root).postorder(|n| {
        n.set_value(n.value().saturating_add(1));
        result.push(*n.value())
    });

    assert_eq!(result, vec![41, 21, 51, 31, 11]);
}

#[test]
fn sync_test_node_reduce() {
    let root = sample();

    let sum = Traverse::new(&root).reduce(|n, results| n.value() + results.iter().sum::<i32>());
    assert_eq!(sum, 150);
}

#[test]
fn sync_test_node_reduce_mut() {
    let mut root = node(10_i32, vec![node(20, vec![leaf(40)]), node(30, vec![leaf(50)])]);

    let sum = TraverseMut::new(&mut root).reduce(|n, results| {
        n.set_value(n.value().saturating_add(1));
        n.value() + results.iter().sum::<i32>()
    });

    assert_eq!(sum, 155);
}

#[test]
fn sync_test_node_cascade() {
    let root = sample();

    let mut result = Vec::new();
    Traverse::new(&root).cascade(0, |n, parent_value| {
        result.push(n.value() + parent_value);
        n.value() + parent_value
    });

    assert_eq!(result, vec![10, 30, 70, 40, 90]);
}

#[test]
fn sync_test_node_cascade_mut() {
    let mut root = sample();

    TraverseMut::new(&mut root).cascade(0, |n, parent_value| {
        let next = n.value() + parent_value;
        n.set_value(*parent_value);
        next
    });

    assert_eq!(root.value, 0);
    assert_eq!(root.children[0].value, 10);
    assert_eq!(root.children[1].value, 10);
    assert_eq!(root.children[0].children[0].value, 30);
    assert_eq!(root.children[1].children[0].value, 40);
}

#[test]
fn node_sync_test_node_reduce() {
    let root = grown();

    let sum = root.reduce(|n, results| n.value() + results.iter().sum::<i32>());
    assert_eq!(sum, 150);
}

#[test]
fn node_sync_test_node_reduce_mut() {
    let mut root = grown();

    let sum = root.reduce_mut(|n, results| {
        n.set_value(n.value().saturating_add(1));
        n.value() + results.iter().sum::<i32>()
    });

    assert_eq!(sum, 155);
}

#[test]
fn node_sync_test_node_cascade_mut() {
    let mut root = grown();

    root.cascade_mut(0, |n, parent_value| {
        let next = n.value() + parent_value;
        n.set_value(*parent_value);
        next
    });

    assert_eq!(root.value, 0);
    assert_eq!(root.children[0].value, 10);
    assert_eq!(root.children[1].value, 10);
    assert_eq!(root.children[0].children[0].value, 30);
    assert_eq!(root.children[1].children[0].value, 40);
}

#[test]
fn iterator_test_node_preorder() {
    let node = grown();

    let mut result = Vec::new();
    let mut walk = PreorderIter::new(&node);
    while let Some(n) = walk.next() {
        result.push(*n.value());
    }
    assert_eq!(result, vec![10, 20, 40, 30, 50]);
}

#[test]
fn reduce_mut_immersion_keeps_the_visitor() {
    let mut root = sample();
    let mut calls = 0;
    let mut visitor = |n: &mut Node<i32>, results: Vec<i32>| {
        calls += 1;
        n.value + results.iter().sum::<i32>()
    };
    assert_eq!(root.reduce_mut_immersion(&mut visitor), 150);
    assert_eq!(root.reduce_mut_immersion(&mut visitor), 150);
    assert_eq!(calls, 10);
}

#[test]
fn cascade_immersion_keeps_the_visitor() {
    let root = sample();
    let mut seen = Vec::new();
    let mut visitor = |n: &Node<i32>, handed: &i32| {
        seen.push((n.value, *handed));
        n.value
    };
    root.cascade_immersion(&7, &mut visitor);
    assert_eq!(seen, vec![(10, 7), (20, 10), (40, 20), (30, 10), (50, 30)]);
}

#[test]
fn a_leaf_is_visited_once_in_either_order() {
    let root = leaf(1);
    let mut pre = Vec::new();
    root.preorder(|n| pre.push(n.value));
    let mut post = Vec::new();
    root.postorder(|n| post.push(n.value));
    assert_eq!(pre, vec![1]);
    assert_eq!(post, vec![1]);
}

#[test]
fn handles_come_from_the_node() {
    let mut root = sample();
    assert_eq!(root.traverse().node().value, 10);
    assert_eq!(root.traverse_mut().node().value, 10);
    root.traverse_mut().node_mut().set_value(11);
    assert_eq!(root.value, 11);
    assert_eq!(root.into_traverse().take().value, 11);
}
