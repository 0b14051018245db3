use ntree_rs::Node;

fn node<T>(value: T, children: Vec<Node<T>>) -> Node<T> {
    Node::new(value).with_children(children)
}

fn leaf<T>(value: T) -> Node<T> {
    Node::new(value)
}

fn wide() -> Node<i32> {
    node(
        10,
        vec![node(20, vec![leaf(40), leaf(50), leaf(60)]), node(30, vec![leaf(70), leaf(80)])],
    )
}

#[test]
fn mod_test_pre_order_traversal() {
    let root = wide();

    let mut result = Vec::new();
    let mut walk = root.into_traverse().pre();
    while let Some(n) = walk.next() {
        result.push(n);
    }

    assert_eq!(result, vec![10, 20, 40, 50, 60, 30, 70, 80]);
}

#[test]
fn mod_test_post_order_traversal() {
    let root = wide();

    let mut result = Vec::new();
    let mut walk = root.into_traverse().post();
    while let Some(n) = walk.next() {
        result.push(n.value);
    }

    assert_eq!(result, vec![40, 50, 60, 20, 70, 80, 30, 10]);
}

#[test]
fn owned_test_for_each() {
    let root = node(10_i32, vec![node(20, vec![leaf(40)]), node(30, vec![leaf(50)])]);

    let mut result = Vec::new();
    root.into_traverse().for_each(|value| result.push(value));

    assert_eq!(result, vec![40, 20, 50, 30, 10]);
}

#[test]
fn owned_test_map() {
    let source = node(1_usize, vec![node(2, vec![leaf(4)]), node(3, vec![leaf(5)])]);
    let new_root = source.into_traverse().map(|value, children| value + children.len());

    let want = node(3, vec![node(3, vec![leaf(4)]), node(4, vec![leaf(5)])]);
    assert_eq!(new_root.take(), want);
}

#[test]
fn owned_test_reduce() {
    let root = node(1_isize, vec![node(2, vec![leaf(4)]), node(3, vec![leaf(5)])]);
    let sum = root.into_traverse().reduce(|value, results: Vec<isize>| {
        value + results.len() as isize + results.iter().sum::<isize>()
    });

    assert_eq!(sum, 19);
}

#[test]
fn owned_test_cascade() {
    let root = node(10, vec![node(20, vec![leaf(40)]), node(30, vec![leaf(50)])]);
    let root = root
        .into_traverse()
        .cascade(0, |n, parent_value| {
            let next = n.value + parent_value;
            n.value = *parent_value;
            next
        })
        .take();

    let want = node(0, vec![node(10, vec![leaf(30)]), node(10, vec![leaf(40)])]);
    assert_eq!(root, want);
}

#[test]
fn owned_test_cascade_pre() {
    let root = node(10, vec![node(20, vec![leaf(40)]), node(30, vec![leaf(50)])]);

    let mut result = Vec::new();
    root.into_traverse().pre().cascade(0, |current, parent| {
        result.push(current + *parent);
        current + *parent
    });

    assert_eq!(result, vec![10, 30, 70, 40, 90]);
}

#[test]
fn owned_test_map_pre() {
    let source = node(1, vec![node(2, vec![leaf(5)]), node(3, vec![leaf(5)])]);

    let new_root = source.into_traverse().pre().map(true, |child, parent| *parent && child % 2 != 0);

    let want = node(true, vec![node(false, vec![leaf(false)]), node(true, vec![leaf(true)])]);
    assert_eq!(new_root, want);
}

#[test]
fn owned_test_reduce_post() {
    let root = node(10_usize, vec![node(20, vec![leaf(40)]), node(30, vec![leaf(50)])]);

    let mut result = Vec::new();
    root.into_traverse().post().reduce(|current, children: &[usize]| {
        result.push(current + children.len());
        current + children.len()
    });

    assert_eq!(result, vec![40, 21, 50, 31, 12]);
}

#[test]
fn owned_test_map_post() {
    let source = node(1, vec![node(2, vec![leaf(5)]), node(3, vec![leaf(5)])]);

    let new_root = source.into_traverse().post().map(|current, _| current % 2 != 0);

    let want = node(true, vec![node(false, vec![leaf(true)]), node(true, vec![leaf(true)])]);
    assert_eq!(new_root, want);
}

#[test]
fn owned_test_reduce_pre_post() {
    let root = node(10_usize, vec![node(20, vec![leaf(40)]), node(30, vec![leaf(50)])]);

    let mut result = Vec::new();
    root.into_traverse().post().with_pre(|current, base| current.value + *base).reduce(
        0,
        |_, base, children: Vec<usize>| {
            result.push(children.len() + base);
            children.len() + base
        },
    );

    assert_eq!(result, vec![70, 31, 90, 41, 12]);
}

#[test]
fn owned_test_map_pre_post() {
    let source = node(1, vec![node(2, vec![leaf(5)]), node(3, vec![leaf(5)])]);
    let new_root = source
        .into_traverse()
        .post()
        .with_pre(|current, base| current.value + *base)
        .map(0, |_, base, _| base % 2 == 0);

    let want = node(false, vec![node(false, vec![leaf(true)]), node(true, vec![leaf(false)])]);
    assert_eq!(new_root, want);
}

#[test]
fn owned_and_borrowed_maps_agree() {
    let root = wide();
    let from_borrowed = root.traverse().map(|n| n.value * 2 + n.children.len() as i32).take();
    let from_owned =
        root.into_traverse().map(|value, children| value * 2 + children.len() as i32).take();
    assert_eq!(from_borrowed, from_owned);
    assert_eq!(
        from_owned,
        node(22, vec![node(43, vec![leaf(80), leaf(100), leaf(120)]), node(62, vec![leaf(140), leaf(160)])])
    );
}

#[test]
fn owned_post_walk_yields_bare_nodes() {
    let root = node(1, vec![node(2, vec![leaf(3)])]);
    let mut walk = root.into_traverse().post();
    let first = walk.next().unwrap();
    assert_eq!(first, leaf(3));
    let second = walk.next().unwrap();
    assert_eq!(second, leaf(2));
    let third = walk.next().unwrap();
    assert_eq!(third, leaf(1));
    assert!(walk.next().is_none());
}

#[test]
fn owned_pre_walk_ends_with_none() {
    let root = leaf(1);
    let mut walk = root.into_traverse().pre();
    assert_eq!(walk.next(), Some(1));
    assert_eq!(walk.next(), None);
    assert_eq!(walk.next(), None);
}

#[test]
fn owned_retagging_keeps_the_tree() {
    let root = wide();
    let back = root.clone().into_traverse().into_async().into_sync().take();
    assert_eq!(back, root);
}

#[test]
fn owned_handle_lends_its_tree() {
    let mut handle = node(1, vec![leaf(2)]).into_traverse();
    assert_eq!(handle.node().value, 1);
    handle.node_mut().set_value(5);
    assert_eq!(handle.take(), node(5, vec![leaf(2)]));
}
