use kd_tree::KdTree;

#[test]
fn test_serde() {
    let src: KdTree<3> = KdTree::build(vec![[1, 2, 3], [4, 5, 6]]);

    let json = src.to_json();
    assert_eq!(json, "[[1,2,3],[4,5,6]]");

    let dst: KdTree<3> = KdTree::from_json(&json).unwrap();
    assert_eq!(src, dst);
}

#[test]
fn json_keeps_tree_order() {
    let tree: KdTree<2> = KdTree::build(vec![[3, 0], [1, 5], [2, 9]]);
    let json = tree.to_json();
    assert_eq!(json, "[[1,5],[2,9],[3,0]]");
    let back: KdTree<2> = KdTree::from_json(&json).unwrap();
    assert_eq!(back.items(), tree.items());
}

#[test]
fn json_of_empty_tree() {
    let tree: KdTree<3> = KdTree::build(Vec::new());
    assert_eq!(tree.to_json(), "[]");
    assert!(KdTree::<3>::from_json("[]").unwrap().is_empty());
}

#[test]
fn from_json_refuses_bad_text() {
    assert!(KdTree::<2>::from_json("[[1,2],").is_none());
    assert!(KdTree::<2>::from_json("{\"a\":1}").is_none());
    assert!(KdTree::<2>::from_json("[[1.5,2]]").is_none());
}

#[test]
fn from_json_refuses_wrong_arity() {
    assert!(KdTree::<2>::from_json("[[1,2],[3,4,5]]").is_none());
    assert!(KdTree::<3>::from_json("[[1,2]]").is_none());
}

#[test]
fn from_json_refuses_points_out_of_tree_order() {
    assert!(KdTree::<2>::from_json("[[5,0],[1,0],[3,0]]").is_none());
    assert!(KdTree::<2>::from_json("[[0,0],[1,0],[3,0]]").is_some());
}

#[test]
fn from_layout_checks_every_level() {
    // root splits on x, its children on y
    assert!(KdTree::from_layout(vec![[0, 0], [1, 1], [2, 0], [3, 5], [4, 9]]).is_some());
    assert!(KdTree::from_layout(vec![[0, 0], [1, 1], [2, 0], [3, 9], [4, 5]]).is_none());
}

#[test]
fn trees_compare_by_stored_order() {
    let a: KdTree<2> = KdTree::build(vec![[1, 1], [2, 2]]);
    let b: KdTree<2> = KdTree::build(vec![[2, 2], [1, 1]]);
    let c: KdTree<2> = KdTree::build(vec![[1, 1], [2, 3]]);
    assert_eq!(a, b);
    assert_ne!(a, c);
}

#[test]
fn json_writes_negative_and_extreme_numbers() {
    let tree: KdTree<2> = KdTree::from_layout(vec![[-12, 0], [0, i32::MIN], [i32::MAX, -1]]).unwrap();
    assert_eq!(tree.to_json(), "[[-12,0],[0,-2147483648],[2147483647,-1]]");
}
