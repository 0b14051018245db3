use ntree_rs::{schedule, Node, OrderFlow, Policy, Point, Postorder, Preorder, Rect};

fn with_children(count: usize) -> Node<u8> {
    let mut root = Node::new(0);
    for child in 0..count {
        root.add_child(Node::new(child as u8));
    }
    root
}

#[derive(Default, Debug, PartialEq)]
struct Grid(i32, i32);

impl Point for Grid {}

#[test]
fn preorder_evaluates_at_the_first_iteration_only() {
    let root = with_children(3);
    assert!(Preorder::evaluate_self(&root, 0));
    assert!(!Preorder::evaluate_self(&root, 1));
    assert!(!Preorder::evaluate_self(&root, 3));
    assert_eq!(Preorder::continue_with(&root, 0), Some(0));
    assert_eq!(Preorder::continue_with(&root, 2), Some(2));
    assert_eq!(Preorder::continue_with(&root, 3), Some(3));
}

#[test]
fn postorder_evaluates_once_the_children_are_done() {
    let root = with_children(3);
    assert!(!Postorder::evaluate_self(&root, 0));
    assert!(!Postorder::evaluate_self(&root, 2));
    assert!(Postorder::evaluate_self(&root, 3));
    assert!(!Postorder::evaluate_self(&root, 4));
    assert_eq!(Postorder::continue_with(&root, 0), Some(0));
    assert_eq!(Postorder::continue_with(&root, 3), Some(3));
}

#[test]
fn preorder_schedule_of_a_node_with_two_children() {
    let root = with_children(2);
    assert_eq!(
        schedule::<Preorder, u8>(&root),
        vec![OrderFlow::EvaluateSelf, OrderFlow::ContinueWith(0), OrderFlow::ContinueWith(1)]
    );
}

#[test]
fn postorder_schedule_of_a_node_with_two_children() {
    let root = with_children(2);
    assert_eq!(
        schedule::<Postorder, u8>(&root),
        vec![OrderFlow::ContinueWith(0), OrderFlow::ContinueWith(1), OrderFlow::EvaluateSelf]
    );
}

#[test]
fn schedule_of_a_leaf_is_its_evaluation() {
    let root = with_children(0);
    assert_eq!(schedule::<Preorder, u8>(&root), vec![OrderFlow::EvaluateSelf]);
    assert_eq!(schedule::<Postorder, u8>(&root), vec![OrderFlow::EvaluateSelf]);
}

#[test]
fn schedule_has_one_step_per_child_and_one_more() {
    for count in 0..6 {
        let root = with_children(count);
        assert_eq!(schedule::<Preorder, u8>(&root).len(), count + 1);
        assert_eq!(schedule::<Postorder, u8>(&root).len(), count + 1);
    }
}

#[test]
fn rect_keeps_its_corners_in_order() {
    let rect = Rect::new(Grid(1, 2), Grid(3, 4));
    assert_eq!(rect.0, [Grid(1, 2), Grid(3, 4)]);
}

#[test]
fn default_rect_sits_at_the_origin() {
    let rect = Rect::<Grid>::default();
    assert_eq!(rect.0, [Grid(0, 0), Grid(0, 0)]);
}
