use puzzle_search::graph::{Tree, TreeNode};

fn sample() -> TreeNode<i32> {
    let mut root = TreeNode::new(1);
    let mut b = TreeNode::new(2);
    let mut deep = TreeNode::new(5);
    deep.add_child(TreeNode::new(7));
    b.add_child(deep);
    root.add_child(b);
    root.add_child(TreeNode::new(5));
    root
}

#[test]
fn depth_first_takes_preorder_match() {
    let t = sample();
    let found = t.depth_first_search(&5).unwrap();
    assert_eq!(*found.value(), 5);
    assert_eq!(found.children().len(), 1);
}

#[test]
fn breadth_first_takes_shallowest_match() {
    let t = sample();
    let found = t.breadth_first_search(&5).unwrap();
    assert_eq!(*found.value(), 5);
    assert_eq!(found.children().len(), 0);
}

#[test]
fn missing_value_is_none() {
    let t = sample();
    assert!(t.depth_first_search(&9).is_none());
    assert!(t.breadth_first_search(&9).is_none());
    assert_eq!(*t.root().unwrap().value(), 1);
    assert_eq!(*t.depth_first_search(&7).unwrap().value(), 7);
    assert_eq!(*t.breadth_first_search(&7).unwrap().value(), 7);
}
