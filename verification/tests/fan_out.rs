use ntree_rs::Node;
use std::sync::{Arc, Mutex};

fn node<T>(value: T, children: Vec<Node<T>>) -> Node<T> {
    Node::new(value).with_children(children)
}

fn leaf<T>(value: T) -> Node<T> {
    Node::new(value)
}

fn sample() -> Node<i32> {
    node(10, vec![node(20, vec![leaf(40)]), node(30, vec![leaf(50)])])
}

fn broad(children: i32) -> Node<i32> {
    node(0, (1..=children).map(|value| node(value, vec![leaf(value * 100)])).collect())
}

#[test]
fn async_test_for_each() {
    let root = sample();

    let result = Arc::new(Mutex::new(Vec::new()));
    root.traverse().into_async().for_each(|n| result.clone().lock().unwrap().push(n.value));

    let got = result.lock().unwrap();
    assert!(got.contains(&40));
    assert!(got.contains(&20));
    assert!(got.contains(&50));
    assert!(got.contains(&30));
    assert_eq!(got[got.len() - 1], 10);
}

#[test]
fn async_test_map() {
    let source = node(1, vec![node(2, vec![leaf(4)]), node(3, vec![leaf(5)])]);

    let copy = source.clone();
    let new_root = copy.traverse().into_async().map(|n| n.value % 2 == 0);
    assert_eq!(source, copy);

    let want = node(false, vec![node(true, vec![leaf(true)]), node(false, vec![leaf(false)])]);
    assert_eq!(new_root.take(), want);
}

#[test]
fn async_test_reduce() {
    let root = sample();

    let result = Arc::new(Mutex::new(Vec::new()));
    let sum = root.traverse().into_async().reduce(|n, results| {
        result.clone().lock().unwrap().push(n.value);
        n.value + results.iter().sum::<i32>()
    });

    assert_eq!(sum, 150);

    let got = result.lock().unwrap();
    assert!(got.contains(&40));
    assert!(got.contains(&20));
    assert!(got.contains(&50));
    assert!(got.contains(&30));
    assert_eq!(got[got.len() - 1], 10);
}

#[test]
fn async_test_cascade() {
    let root = sample();

    let result = Arc::new(Mutex::new(Vec::new()));
    root.traverse().into_async().cascade(0, |n, parent_value| {
        let next = n.value + parent_value;
        result.clone().lock().unwrap().push(next);
        next
    });

    let got = result.lock().unwrap();
    assert_eq!(got[0], 10);
    assert!(got.contains(&30));
    assert!(got.contains(&40));
    assert!(got.contains(&70));
    assert!(got.contains(&90));
}

#[test]
fn fan_out_calls_the_visitor_once_per_node() {
    let root = broad(7);
    let calls = Mutex::new(0usize);
    root.traverse().into_async().for_each(|_| *calls.lock().unwrap() += 1);
    assert_eq!(*calls.lock().unwrap(), root.size() + 1);
}

#[test]
fn fan_out_and_direct_recursion_build_the_same_tree() {
    let root = broad(5);
    let sequential = root.traverse().map(|n| n.value * 3 + n.children.len() as i32).take();
    let concurrent =
        root.traverse().into_async().map(|n| n.value * 3 + n.children.len() as i32).take();
    assert_eq!(sequential, concurrent);
    assert_eq!(concurrent.children[4], node(16, vec![leaf(1500)]));
}

#[test]
fn fan_out_and_direct_recursion_fold_to_the_same_value() {
    let root = broad(5);
    let sequential = root.traverse().reduce(|n, results: Vec<i32>| n.value + results.iter().sum::<i32>());
    let concurrent =
        root.traverse().into_async().reduce(|n, results: Vec<i32>| n.value + results.iter().sum::<i32>());
    assert_eq!(sequential, concurrent);
    assert_eq!(concurrent, 15 + 1500);
}

#[test]
fn fan_out_joins_many_children_in_child_order() {
    let root = broad(64);
    let doubled = root.traverse().into_async().map(|n| n.value * 2).take();
    assert_eq!(doubled.children_len(), 64);
    for (index, child) in doubled.children().iter().enumerate() {
        let value = (index as i32 + 1) * 2;
        assert_eq!(child, &node(value, vec![leaf(value * 100)]));
    }
    let listed = root
        .traverse()
        .into_async()
        .reduce(|n, results: Vec<Vec<i32>>| {
            let mut values = vec![n.value];
            values.extend(results.into_iter().flatten());
            values
        });
    let mut want = vec![0];
    for value in 1..=64 {
        want.push(value);
        want.push(value * 100);
    }
    assert_eq!(listed, want);
}

#[test]
fn fan_out_hands_each_child_what_its_parent_returned() {
    let root = sample();
    let seen = Mutex::new(Vec::new());
    root.traverse().into_async().cascade(1, |n, handed| {
        seen.lock().unwrap().push((n.value, *handed));
        n.value + handed
    });
    let mut seen = seen.into_inner().unwrap();
    seen.sort();
    assert_eq!(seen, vec![(10, 1), (20, 11), (30, 11), (40, 31), (50, 41)]);
}

#[test]
fn fan_out_over_a_leaf_visits_it() {
    let root = leaf(3);
    assert_eq!(root.traverse().into_async().reduce(|n, results: Vec<i32>| n.value + results.len() as i32), 3);
    assert_eq!(root.traverse().into_async().map(|n| n.value + 1).take(), leaf(4));
}
