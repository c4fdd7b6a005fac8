use tpt_mbd::frame::TransformTree;

#[test]
fn frames_record_their_children_in_order() {
    let mut tree = TransformTree::new();
    let root = tree.add_node("root", None);
    let a = tree.add_node("a", Some(root));
    let b = tree.add_node("b", Some(root));
    let c = tree.add_node("c", Some(a));
    assert_eq!((root, a, b, c), (0, 1, 2, 3));
    assert_eq!(tree.children(root), &[1, 2]);
    assert_eq!(tree.children(a), &[3]);
    assert!(tree.children(c).is_empty());
    assert_eq!(tree.parent(c), Some(a));
    assert_eq!(tree.parent(root), None);
    assert_eq!(tree.len(), 4);
}

#[test]
fn a_frame_may_name_itself_as_parent() {
    let mut tree = TransformTree::new();
    let n = tree.add_node("self", Some(0));
    assert_eq!(tree.children(n), &[0]);
}
