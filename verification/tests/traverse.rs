use ntree_rs::{Node, Postorder, Preorder, Traverse, WithOrder};

fn node<T>(value: T, children: Vec<Node<T>>) -> Node<T> {
    Node::new(value).with_children(children)
}

fn leaf<T>(value: T) -> Node<T> {
    Node::new(value)
}

fn sample() -> Node<i32> {
    node(10, vec![node(20, vec![leaf(40)]), node(30, vec![leaf(50)])])
}

fn wide() -> Node<i32> {
    node(
        10,
        vec![node(20, vec![leaf(40), leaf(50), leaf(60)]), node(30, vec![leaf(70), leaf(80)])],
    )
}

#[test]
fn test_pre_order_traversal() {
    let root = wide();

    let mut result = Vec::new();
    for n in root.traverse().pre().iter() {
        result.push(n.value);
    }

    assert_eq!(result, vec![10, 20, 40, 50, 60, 30, 70, 80]);
}

#[test]
fn test_post_order_traversal() {
    let root = wide();

    let mut result = Vec::new();
    for n in root.traverse().post().iter() {
        result.push(n.value);
    }

    assert_eq!(result, vec![40, 50, 60, 20, 70, 80, 30, 10]);
}

#[test]
fn test_for_each() {
    let root = sample();

    let mut result = Vec::new();
    root.traverse().for_each(|n| result.push(n.value));
    assert_eq!(result, vec![40, 20, 50, 30, 10]);
}

#[test]
fn test_map() {
    let source = node(1, vec![node(2, vec![leaf(4)]), node(3, vec![leaf(5)])]);

    let copy = source.clone();
    let new_root = copy.traverse().map(|n| n.value % 2 == 0);
    assert_eq!(source, copy);

    let want = node(false, vec![node(true, vec![leaf(true)]), node(false, vec![leaf(false)])]);
    assert_eq!(new_root.take(), want);
}

#[test]
fn test_reduce() {
    let root = sample();

    let sum = root.traverse().reduce(|n, results| n.value + results.iter().sum::<i32>());

    assert_eq!(sum, 150);
}

#[test]
fn test_cascade() {
    let root = sample();

    let mut result = Vec::new();
    root.traverse().cascade(0, |n, parent_value| {
        result.push(n.value + parent_value);
        n.value + parent_value
    });

    assert_eq!(result, vec![10, 30, 70, 40, 90]);
}

#[test]
fn test_cascade_pre() {
    let root = sample();

    let mut result = Vec::new();
    root.traverse().pre().cascade(0, |current, parent| {
        result.push(current.value + *parent);
        current.value + *parent
    });

    assert_eq!(result, vec![10, 30, 70, 40, 90]);
}

#[test]
fn test_map_pre() {
    let source = node(1, vec![node(2, vec![leaf(5)]), node(3, vec![leaf(5)])]);

    let copy = source.clone();
    let new_root = copy.traverse().pre().map(true, |child, parent| *parent && child.value % 2 != 0);

    assert_eq!(source, copy);

    let want = node(true, vec![node(false, vec![leaf(false)]), node(true, vec![leaf(true)])]);
    assert_eq!(new_root, want);
}

#[test]
fn test_reduce_post() {
    let root = node(10_usize, vec![node(20, vec![leaf(40)]), node(30, vec![leaf(50)])]);

    let mut result = Vec::new();
    root.traverse().post().reduce(|current, children: Vec<usize>| {
        result.push(current.value + children.len());
        current.value + children.len()
    });

    assert_eq!(result, vec![40, 21, 50, 31, 12]);
}

#[test]
fn test_map_post() {
    let source = node(1, vec![node(2, vec![leaf(5)]), node(3, vec![leaf(5)])]);

    let copy = source.clone();
    let new_root = copy.traverse().post().map(|current, _| current.value % 2 != 0);

    assert_eq!(source, copy);

    let want = node(true, vec![node(false, vec![leaf(true)]), node(true, vec![leaf(true)])]);
    assert_eq!(new_root, want);
}

#[test]
fn test_reduce_pre_post() {
    let root = node(10_usize, vec![node(20, vec![leaf(40)]), node(30, vec![leaf(50)])]);

    let mut result = Vec::new();
    root.traverse().post().with_pre(|current, base| current.value + base).reduce(
        0,
        |current, base, children: Vec<usize>| {
            result.push(current.value + children.len() + base);
            current.value + children.len() + base
        },
    );

    assert_eq!(result, vec![110, 51, 140, 71, 22]);
}

#[test]
fn test_map_pre_post() {
    let source = node(1, vec![node(2, vec![leaf(5)]), node(3, vec![leaf(5)])]);

    let copy = source.clone();
    let new_root = copy
        .traverse()
        .post()
        .with_pre(|current, base| current.value + base)
        .map(0, |current, base, _| current.value % 2 != 0 && base % 2 == 0);

    assert_eq!(source, copy);

    let want = node(false, vec![node(false, vec![leaf(true)]), node(true, vec![leaf(false)])]);
    assert_eq!(new_root, want);
}

#[test]
fn for_each_observes_each_order() {
    let root = sample();

    let mut pre = Vec::new();
    WithOrder::<Preorder, _, _>::from(root.traverse()).for_each(|n| pre.push(n.value));
    assert_eq!(pre, vec![10, 20, 40, 30, 50]);

    let mut post = Vec::new();
    WithOrder::<Postorder, _, _>::from(root.traverse()).for_each(|n| post.push(n.value));
    assert_eq!(post, vec![40, 20, 50, 30, 10]);
}

#[test]
fn for_each_calls_the_visitor_once_per_node() {
    let root = wide();
    let mut calls = 0;
    root.traverse().for_each(|_| calls += 1);
    assert_eq!(calls, root.size() + 1);

    let mut calls = 0;
    WithOrder::<Preorder, _, _>::from(root.traverse()).for_each(|_| calls += 1);
    assert_eq!(calls, root.size() + 1);

    let single = leaf(0);
    let mut calls = 0;
    single.traverse().for_each(|_| calls += 1);
    assert_eq!(calls, 1);
}

#[test]
fn map_in_order_hands_over_the_children_built_so_far() {
    let root = sample();

    let counted = WithOrder::<Preorder, _, _>::from(root.traverse())
        .map(|n, built: &[Node<(i32, usize)>]| (n.value, built.len()))
        .take();
    let want = node((10, 0), vec![node((20, 0), vec![leaf((40, 0))]), node((30, 0), vec![leaf((50, 0))])]);
    assert_eq!(counted, want);

    let counted = WithOrder::<Postorder, _, _>::from(root.traverse())
        .map(|n, built: &[Node<(i32, usize)>]| (n.value, built.len()))
        .take();
    let want = node((10, 2), vec![node((20, 1), vec![leaf((40, 0))]), node((30, 1), vec![leaf((50, 0))])]);
    assert_eq!(counted, want);
}

#[test]
fn map_in_order_keeps_the_shape() {
    let root = wide();
    let built = WithOrder::<Postorder, _, _>::from(root.traverse())
        .map(|n, children: &[Node<i32>]| n.value + children.iter().map(|c| c.value).sum::<i32>());
    assert_eq!(built.node().size(), root.size());
    assert_eq!(built.node().height(), root.height());
    assert_eq!(
        built.take(),
        node(360, vec![node(170, vec![leaf(40), leaf(50), leaf(60)]), node(180, vec![leaf(70), leaf(80)])])
    );
}

#[test]
fn repeated_for_each_observes_the_same() {
    let root = wide();
    let mut first = Vec::new();
    root.traverse().for_each(|n| first.push(n.value));
    let mut second = Vec::new();
    root.traverse().for_each(|n| second.push(n.value));
    assert_eq!(first, second);
    assert_eq!(first, vec![40, 50, 60, 20, 70, 80, 30, 10]);
}

#[test]
fn retagging_keeps_the_tree() {
    let root = sample();
    let handle = Traverse::new(&root).into_async().into_sync();
    assert_eq!(handle.node(), &root);
    assert_eq!(handle.reduce(|n, results: Vec<i32>| n.value + results.iter().sum::<i32>()), 150);
}

#[test]
fn next_yields_the_nodes_one_at_a_time() {
    let root = sample();
    let mut walk = root.traverse().pre();
    assert_eq!(walk.next().map(|n| n.value), Some(10));
    assert_eq!(walk.next().map(|n| n.value), Some(20));
    let rest: Vec<i32> = walk.iter().into_iter().map(|n| n.value).collect();
    assert_eq!(rest, vec![40, 30, 50]);

    let mut walk = root.traverse().post();
    assert_eq!(walk.next().map(|n| n.value), Some(40));
    assert_eq!(walk.next().map(|n| n.value), Some(20));
    assert_eq!(walk.next().map(|n| n.value), Some(50));
    assert_eq!(walk.next().map(|n| n.value), Some(30));
    assert_eq!(walk.next().map(|n| n.value), Some(10));
    assert!(walk.next().is_none());
    assert!(walk.next().is_none());
}
