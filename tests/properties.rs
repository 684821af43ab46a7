use kd_tree::{squared_distance, KdTree};

fn sorted(mut v: Vec<[i32; 3]>) -> Vec<[i32; 3]> {
    v.sort();
    v
}

fn sample() -> Vec<[i32; 3]> {
    vec![
        [5, 1, 9],
        [2, 8, 3],
        [7, 7, 7],
        [0, 0, 0],
        [9, 2, 4],
        [3, 3, 3],
        [6, 5, 1],
        [1, 9, 8],
        [4, 4, 4],
    ]
}

#[test]
fn squared_distance_exact_value() {
    assert_eq!(squared_distance(&[1, 2, 3], &[4, 6, 3]), 25);
    assert_eq!(squared_distance(&[-5, 0], &[5, 0]), 100);
}

#[test]
fn squared_distance_extreme_coordinates() {
    let d = squared_distance(&[i32::MIN, i32::MIN, i32::MIN], &[i32::MAX, i32::MAX, i32::MAX]);
    let axis = (u32::MAX as u128) * (u32::MAX as u128);
    assert_eq!(d, 3 * axis);
}

#[test]
fn build_keeps_every_item() {
    let tree = KdTree::build(sample());
    assert_eq!(tree.len(), 9);
    assert_eq!(sorted(tree.items().clone()), sorted(sample()));
}

#[test]
fn build_lays_out_a_median_split() {
    let tree = KdTree::build(sample());
    let items = tree.items();
    let root = items[4];
    assert_eq!(root[0], 4);
    assert!(items[..4].iter().all(|p| p[0] <= root[0]));
    assert!(items[5..].iter().all(|p| p[0] >= root[0]));
}

#[test]
fn build_with_equal_points() {
    let tree = KdTree::build(vec![[1, 1], [1, 1], [1, 1], [0, 2]]);
    assert_eq!(tree.len(), 4);
    assert_eq!(tree.within(&[[1, 1], [1, 1]]).len(), 3);
    assert_eq!(tree.nearest(&[1, 1]).unwrap().squared_distance, 0);
}

#[test]
fn nearest_exact_answer() {
    let tree = KdTree::build(sample());
    let found = tree.nearest(&[6, 6, 6]).unwrap();
    assert_eq!(found.item, [7, 7, 7]);
    assert_eq!(found.squared_distance, 3);
    assert_eq!(tree.items()[found.index], [7, 7, 7]);
}

#[test]
fn nearest_on_empty_is_none() {
    let tree: KdTree<2> = KdTree::build(Vec::new());
    assert!(tree.nearest(&[0, 0]).is_none());
    assert!(tree.is_empty());
}

#[test]
fn nearests_exact_answer() {
    let tree = KdTree::build(sample());
    let found = tree.nearests(&[4, 4, 4], 3);
    let items: Vec<[i32; 3]> = found.iter().map(|e| e.item).collect();
    let dists: Vec<u128> = found.iter().map(|e| e.squared_distance).collect();
    assert_eq!(items, vec![[4, 4, 4], [3, 3, 3], [6, 5, 1]]);
    assert_eq!(dists, vec![0, 3, 14]);
}

#[test]
fn nearests_zero_and_more_than_stored() {
    let tree = KdTree::build(sample());
    assert!(tree.nearests(&[0, 0, 0], 0).is_empty());
    let all = tree.nearests(&[0, 0, 0], 20);
    assert_eq!(all.len(), 9);
    for i in 1..all.len() {
        assert!(all[i - 1].squared_distance <= all[i].squared_distance);
    }
    let mut indices: Vec<usize> = all.iter().map(|e| e.index).collect();
    indices.sort();
    assert_eq!(indices, (0..9).collect::<Vec<usize>>());
}

#[test]
fn nearests_on_empty_is_empty() {
    let tree: KdTree<3> = KdTree::build(Vec::new());
    assert!(tree.nearests(&[1, 2, 3], 5).is_empty());
}

#[test]
fn within_exact_answer() {
    let tree = KdTree::build(sample());
    let found = tree.within(&[[2, 2, 2], [7, 7, 7]]);
    let items = sorted(found.iter().map(|&i| tree.items()[i]).collect());
    assert_eq!(items, vec![[3, 3, 3], [4, 4, 4], [7, 7, 7]]);
}

#[test]
fn within_inverted_box_is_empty() {
    let tree = KdTree::build(sample());
    assert!(tree.within(&[[9, 9, 9], [0, 0, 0]]).is_empty());
}

#[test]
fn within_radius_is_an_open_ball() {
    let tree = KdTree::build(sample());
    let found = tree.within_radius(&[4, 4, 4], 2);
    let items = sorted(found.iter().map(|&i| tree.items()[i]).collect());
    assert_eq!(items, vec![[3, 3, 3], [4, 4, 4]]);
    // [4, 4, 4] lies exactly at distance 3 and is left out
    let found = tree.within_radius(&[4, 4, 1], 3);
    let items = sorted(found.iter().map(|&i| tree.items()[i]).collect());
    assert_eq!(items, vec![[3, 3, 3], [6, 5, 1]]);
    assert!(tree.within_radius(&[4, 4, 4], 0).is_empty());
}

#[test]
fn vec_collects_in_order() {
    let v = kd_tree::vec(4, |i| i * 10);
    assert_eq!(v, vec![0, 10, 20, 30]);
}

#[test]
fn select_places_the_median() {
    let mut v = vec![[9, 0], [3, 1], [7, 2], [1, 3], [5, 4], [8, 5], [2, 6]];
    kd_tree::layout::select(&mut v, 0, 7, 3, 0);
    assert_eq!(v[3][0], 5);
    assert!(v[..3].iter().all(|p| p[0] <= 5));
    assert!(v[4..].iter().all(|p| p[0] >= 5));
    let mut xs: Vec<i32> = v.iter().map(|p| p[0]).collect();
    xs.sort();
    assert_eq!(xs, vec![1, 2, 3, 5, 7, 8, 9]);
}

#[test]
fn select_leaves_the_rest_alone() {
    let mut v = vec![[4, 0], [3, 9], [1, 8], [2, 7], [0, 0]];
    kd_tree::layout::select(&mut v, 1, 4, 2, 1);
    assert_eq!(v[0], [4, 0]);
    assert_eq!(v[4], [0, 0]);
    assert_eq!(v[2], [1, 8]);
    assert_eq!(v[1][1], 7);
    assert_eq!(v[3][1], 9);
}

#[test]
fn layout_check_accepts_built_trees() {
    let tree = KdTree::build(sample());
    assert!(kd_tree::layout::is_kd_region(tree.items(), 0, 9, 0));
    let unbuilt = sample();
    assert!(!kd_tree::layout::is_kd_region(&unbuilt, 0, 9, 0));
}
