use ntree_rs::Node;

fn node<T>(value: T, children: Vec<Node<T>>) -> Node<T> {
    Node::new(value).with_children(children)
}

fn leaf<T>(value: T) -> Node<T> {
    Node::new(value)
}

#[test]
fn sync_test_for_each() {
    let mut root = node(10_i32, vec![node(20, vec![leaf(40)]), node(30, vec![leaf(50)])]);

    let mut result = Vec::new();
    root.traverse_mut().for_each(|n| {
        n.value = n.value.saturating_add(1);
        result.push(n.value)
    });

    assert_eq!(result, vec![41, 21, 51, 31, 11]);
}

#[test]
fn sync_test_map() {
    let mut source = node(1, vec![node(2, vec![leaf(4)]), node(3, vec![leaf(5)])]);
    let new_root = source.traverse_mut().map(|n| {
        n.value += 1;
        n.value % 2 == 0
    });

    let want = node(2, vec![node(3, vec![leaf(5)]), node(4, vec![leaf(6)])]);
    assert_eq!(source, want);

    let want = node(true, vec![node(false, vec![leaf(false)]), node(true, vec![leaf(true)])]);
    assert_eq!(new_root.take(), want);
}

#[test]
fn sync_test_reduce() {
    let mut root = node(10_i32, vec![node(20, vec![leaf(40)]), node(30, vec![leaf(50)])]);

    let sum = root.traverse_mut().reduce(|n, results| {
        n.value = n.value.saturating_add(1);
        n.value + results.iter().sum::<i32>()
    });

    assert_eq!(sum, 155);
}

#[test]
fn sync_test_cascade() {
    let mut root = node(10, vec![node(20, vec![leaf(40)]), node(30, vec![leaf(50)])]);

    root.traverse_mut().cascade(0, |n, parent_value| {
        let next = n.value + parent_value;
        n.value = *parent_value;
        next
    });

    let want = node(0, vec![node(10, vec![leaf(30)]), node(10, vec![leaf(40)])]);
    assert_eq!(root, want);
}

#[test]
fn sync_test_cascade_pre() {
    let mut root = node(10, vec![node(20, vec![leaf(40)]), node(30, vec![leaf(50)])]);

    let mut result = Vec::new();
    root.traverse_mut().pre().cascade(0, |current, parent| {
        result.push(current.value + *parent);
        current.value += 1;

        current.value + *parent
    });

    assert_eq!(result, vec![10, 31, 72, 41, 92]);

    let want = node(11, vec![node(21, vec![leaf(41)]), node(31, vec![leaf(51)])]);
    assert_eq!(root, want);
}

#[test]
fn sync_test_map_pre() {
    let mut source = node(1, vec![node(2, vec![leaf(5)]), node(3, vec![leaf(5)])]);
    let new_root = source.traverse_mut().pre().map(true, |child, parent| {
        child.value += 1;
        *parent && child.value % 2 == 0
    });

    let want = node(2, vec![node(3, vec![leaf(6)]), node(4, vec![leaf(6)])]);
    assert_eq!(source, want);

    let want = node(true, vec![node(false, vec![leaf(false)]), node(true, vec![leaf(true)])]);
    assert_eq!(new_root, want);
}

#[test]
fn sync_test_reduce_post() {
    let mut root = node(10_usize, vec![node(20, vec![leaf(40)]), node(30, vec![leaf(50)])]);

    let mut result = Vec::new();
    root.traverse_mut().post().reduce(|current, children: Vec<usize>| {
        result.push(current.value + children.len());
        current.value += 1;
        current.value + children.len()
    });

    assert_eq!(result, vec![40, 21, 50, 31, 12]);

    let want = node(11, vec![node(21, vec![leaf(41)]), node(31, vec![leaf(51)])]);
    assert_eq!(root, want);
}

#[test]
fn sync_test_map_post() {
    let mut source = node(1, vec![node(2, vec![leaf(5)]), node(3, vec![leaf(5)])]);
    let new_root = source.traverse_mut().post().map(|current, _| {
        current.value += 1;
        current.value % 2 == 0
    });

    let want = node(true, vec![node(false, vec![leaf(true)]), node(true, vec![leaf(true)])]);
    assert_eq!(new_root, want);

    let want = node(2, vec![node(3, vec![leaf(6)]), node(4, vec![leaf(6)])]);
    assert_eq!(source, want);
}

#[test]
fn sync_test_reduce_pre_post() {
    let mut root = node(10_usize, vec![node(20, vec![leaf(40)]), node(30, vec![leaf(50)])]);

    let mut result = Vec::new();
    root.traverse_mut()
        .post()
        .with_pre(|current, base| {
            current.value += 1;
            current.value + base
        })
        .reduce(0, |current, base, children: Vec<usize>| {
            result.push(current.value + children.len() + base);
            current.value += 1;
            current.value + children.len() + base
        });

    assert_eq!(result, vec![114, 54, 144, 74, 24]);

    let want = node(12, vec![node(22, vec![leaf(42)]), node(32, vec![leaf(52)])]);
    assert_eq!(root, want);
}

#[test]
fn sync_test_map_pre_post() {
    let mut source = node(1, vec![node(2, vec![leaf(5)]), node(3, vec![leaf(5)])]);

    let new_root = source
        .traverse_mut()
        .post()
        .with_pre(|current, base| {
            current.value += 1;
            current.value + base
        })
        .map(0, |current, base, _| {
            current.value += 1;
            current.value % 2 != 0 && base % 2 == 0
        });

    let want = node(true, vec![node(false, vec![leaf(false)]), node(true, vec![leaf(true)])]);
    assert_eq!(new_root, want);

    let want = node(3, vec![node(4, vec![leaf(7)]), node(5, vec![leaf(7)])]);
    assert_eq!(source, want);
}

#[test]
fn postorder_visitor_finds_its_children_already_changed() {
    let mut root = node(1, vec![node(2, vec![leaf(3)]), leaf(4)]);
    root.traverse_mut().postorder(|n| {
        n.value += n.children.iter().map(|child| child.value).sum::<i32>();
    });
    assert_eq!(root, node(10, vec![node(5, vec![leaf(3)]), leaf(4)]));
}

#[test]
fn preorder_visitor_finds_its_children_as_they_were() {
    let mut root = node(1, vec![node(2, vec![leaf(3)]), leaf(4)]);
    root.traverse_mut().preorder(|n| {
        n.value += n.children.iter().map(|child| child.value).sum::<i32>();
    });
    assert_eq!(root, node(7, vec![node(5, vec![leaf(3)]), leaf(4)]));
}

#[test]
fn retagging_keeps_the_borrow() {
    let mut root = node(1, vec![leaf(2)]);
    root.traverse_mut().into_async().into_sync().for_each(|n| n.value *= 10);
    assert_eq!(root, node(10, vec![leaf(20)]));
}

#[test]
fn cascade_on_a_leaf_hands_it_the_base() {
    let mut root = leaf(5);
    root.traverse_mut().cascade(9, |n, handed| {
        n.value = *handed;
        0
    });
    assert_eq!(root.value, 9);
}
