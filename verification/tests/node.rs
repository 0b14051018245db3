use ntree_rs::Node;

fn node<T>(value: T, children: Vec<Node<T>>) -> Node<T> {
    Node::new(value).with_children(children)
}

fn leaf<T>(value: T) -> Node<T> {
    Node::new(value)
}

#[test]
fn test_node_new() {
    let root = Node::new(42);
    assert_eq!(root.value(), &42);
    assert_eq!(root.children().len(), 0);
}

#[test]
fn test_node_value_mut() {
    let mut root = Node::new(42);
    assert_eq!(root.value(), &42);

    (*root.value_mut()) = 123;
    assert_eq!(root.value(), &123);
}

#[test]
fn test_node_add_child() {
    let mut root = leaf(10);
    root.children_mut().push(leaf(20));
    root.children_mut().push(leaf(30));

    assert_eq!(root.children().len(), 2);
}

#[test]
fn test_node_children_mut() {
    let mut root = node(10, vec![leaf(20), leaf(30)]);
    root.children_mut().swap(0, 1);
    assert_eq!(root, node(10, vec![leaf(30), leaf(20)]));
}

#[test]
fn test_node_remove_child() {
    let mut root = node(10, vec![leaf(20), leaf(30)]);
    let removed = root.children_mut().remove(0);
    assert_eq!(removed.value(), &20);
    assert_eq!(root.children().len(), 1);
}

#[test]
fn test_node_size() {
    let root = node(10, vec![node(20, vec![leaf(40)]), node(30, vec![leaf(50), leaf(60)])]);
    assert_eq!(root.size(), 5);
}

#[test]
fn test_node_height() {
    let root = node(10, vec![node(20, vec![leaf(40)]), node(30, vec![leaf(50), leaf(60)])]);
    assert_eq!(root.height(), 3);
}

#[test]
fn test_node_copy() {
    let source = node(10, vec![leaf(20), leaf(30)]);
    let mut copy = source.clone();

    assert_eq!(copy, source);

    copy.children_mut().remove(0);
    assert_ne!(copy, source);
}

#[test]
fn lib_test_node_new() {
    let root = Node::new(42);
    assert_eq!(root.value(), &42);
    assert_eq!(root.children_len(), 0);
}

#[test]
fn lib_test_node_add_child() {
    let mut root = Node::new(10);
    assert_eq!(root.add_child(Node::new(20)), 1);
    assert_eq!(root.add_child(Node::new(30)), 2);
    assert_eq!(root.children_len(), 2);
}

#[test]
fn lib_test_node_remove_child() {
    let mut root = Node::new(10);
    root.add_child(Node::new(20));
    root.add_child(Node::new(30));

    let removed = root.remove_child(0);
    assert_eq!(removed.unwrap().value(), &20);
    assert_eq!(root.children_len(), 1);
}

#[test]
fn lib_test_node_size() {
    let mut root = Node::new(10);
    let mut child1 = Node::new(20);
    let mut child2 = Node::new(30);
    let grandchild1 = Node::new(40);
    let grandchild2 = Node::new(50);
    let grandchild3 = Node::new(60);

    assert_eq!(root.size(), 0);

    child1.add_child(grandchild1);
    child2.add_child(grandchild2);
    child2.add_child(grandchild3);
    root.add_child(child1);
    root.add_child(child2);

    assert_eq!(root.size(), 5);
}

#[test]
fn lib_test_node_height() {
    let mut root = Node::new(10);
    let mut child1 = Node::new(20);
    let mut child2 = Node::new(30);
    let grandchild1 = Node::new(40);
    let grandchild2 = Node::new(50);
    let grandchild3 = Node::new(60);

    assert_eq!(root.height(), 1);

    child1.add_child(grandchild1);
    child2.add_child(grandchild2);
    child2.add_child(grandchild3);
    root.add_child(child1);
    root.add_child(child2);

    assert_eq!(root.height(), 3);
}

#[test]
fn macros_test_node_size() {
    let root = node(10, vec![node(20, vec![leaf(40)]), node(30, vec![leaf(50)])]);

    assert_eq!(root.size(), 4);
    assert_eq!(root.height(), 3);

    assert_eq!(root.value, 10);
    assert_eq!(root.children[0].value, 20);
    assert_eq!(root.children[0].children[0].value, 40);
    assert_eq!(root.children[1].value, 30);
    assert_eq!(root.children[1].children[0].value, 50);
}

#[test]
fn leaf_has_no_descendants_and_height_one() {
    let root = leaf(7u8);
    assert_eq!(root.size(), 0);
    assert_eq!(root.height(), 1);
    assert_eq!(root.children_len(), 0);
}

#[test]
fn set_value_replaces_the_value_only() {
    let mut root = node(1, vec![leaf(2)]);
    root.set_value(9);
    assert_eq!(root, node(9, vec![leaf(2)]));
}

#[test]
fn with_children_replaces_the_child_list() {
    let root = node(1, vec![leaf(2), leaf(3)]).with_children(vec![leaf(4)]);
    assert_eq!(root.children_len(), 1);
    assert_eq!(root.children()[0].value, 4);
    assert_eq!(root.value, 1);
}

#[test]
fn add_child_keeps_insertion_order() {
    let mut root = leaf('a');
    assert_eq!(root.add_child(leaf('b')), 1);
    assert_eq!(root.add_child(leaf('c')), 2);
    assert_eq!(root.add_child(leaf('d')), 3);
    let values: Vec<char> = root.children().iter().map(|child| child.value).collect();
    assert_eq!(values, vec!['b', 'c', 'd']);
}

#[test]
fn remove_child_out_of_range_removes_nothing() {
    let mut root = node(10, vec![leaf(20), leaf(30)]);
    assert!(root.remove_child(2).is_none());
    assert!(root.remove_child(usize::MAX).is_none());
    assert_eq!(root, node(10, vec![leaf(20), leaf(30)]));
}

#[test]
fn remove_child_takes_the_child_at_the_index() {
    let mut root = node(10, vec![leaf(20), node(30, vec![leaf(50)]), leaf(40)]);
    let removed = root.remove_child(1);
    assert_eq!(removed, Some(node(30, vec![leaf(50)])));
    assert_eq!(root, node(10, vec![leaf(20), leaf(40)]));
}

#[test]
fn equality_compares_values_and_shape() {
    assert_eq!(node(1, vec![leaf(2)]), node(1, vec![leaf(2)]));
    assert_ne!(node(1, vec![leaf(2)]), node(1, vec![leaf(3)]));
    assert_ne!(node(1, vec![leaf(2)]), node(1, vec![leaf(2), leaf(2)]));
    assert_ne!(node(1, vec![leaf(2)]), node(1, vec![node(2, vec![leaf(2)])]));
    assert_ne!(node(0, vec![leaf(2)]), node(1, vec![leaf(2)]));
}

#[test]
fn clone_is_deep() {
    let source = node(String::from("a"), vec![node(String::from("b"), vec![leaf(String::from("c"))])]);
    let mut copy = source.clone();
    copy.children_mut()[0].children_mut()[0].set_value(String::from("z"));
    assert_eq!(source.children[0].children[0].value, "c");
    assert_eq!(copy.children[0].children[0].value, "z");
}

#[test]
fn height_is_that_of_the_longest_branch() {
    let root = node(
        0,
        vec![leaf(1), node(2, vec![node(3, vec![node(4, vec![leaf(5)])])]), node(6, vec![leaf(7)])],
    );
    assert_eq!(root.height(), 5);
    assert_eq!(root.size(), 7);
}
