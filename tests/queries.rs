use kd_tree::{squared_distance, KdTree, Neighbor};
use rand::Rng;

const SCALE: i32 = 1_000_000;

fn random3d_generator() -> impl FnMut() -> [i32; 3] {
    let mut rng = rand::rng();
    move || {
        [
            rng.random_range(0..SCALE),
            rng.random_range(0..SCALE),
            rng.random_range(0..SCALE),
        ]
    }
}

// coordinates on a coarse grid: eleven values per axis, with many ties
fn random3d_10th_generator() -> impl FnMut() -> [i32; 3] {
    let mut rng = rand::rng();
    move || {
        [
            rng.random_range(0..=10) * (SCALE / 10),
            rng.random_range(0..=10) * (SCALE / 10),
            rng.random_range(0..=10) * (SCALE / 10),
        ]
    }
}

fn random_points(count: usize, gen3d: &mut impl FnMut() -> [i32; 3]) -> Vec<[i32; 3]> {
    let points: Vec<[i32; 3]> = (0..count).map(|_| gen3d()).collect();
    kd_tree::vec(count, |i| points[i])
}

#[test]
fn test_nearest() {
    let mut gen3d = random3d_generator();
    let kdtree = KdTree::build(random_points(10000, &mut gen3d));
    for _ in 0..100 {
        let query = gen3d();
        let found = kdtree.nearest(&query).unwrap();
        let expected = kdtree
            .items()
            .iter()
            .map(|p| squared_distance(p, &query))
            .min()
            .unwrap();
        assert_eq!(found.squared_distance, expected);
        assert_eq!(squared_distance(&found.item, &query), expected);
        assert_eq!(kdtree.items()[found.index], found.item);
    }
}

fn test_nearests_by(mut gen3d: impl FnMut() -> [i32; 3]) {
    let kdtree = KdTree::build(random_points(10000, &mut gen3d));
    const NUM: usize = 5;
    for _ in 0..100 {
        let query = gen3d();
        let neighborhood: Vec<Neighbor<3>> = kdtree.nearests(&query, NUM);
        assert_eq!(neighborhood.len(), NUM);
        for i in 1..neighborhood.len() {
            assert!(neighborhood[i - 1].squared_distance <= neighborhood[i].squared_distance);
        }
        let neighborhood_radius = neighborhood
            .iter()
            .map(|entry| entry.squared_distance)
            .max()
            .unwrap();
        let neighborhood_contains =
            |index: usize| neighborhood.iter().any(|entry| entry.index == index);
        assert!(kdtree.items().iter().enumerate().all(|(index, p)| neighborhood_contains(index)
            || neighborhood_radius <= squared_distance(p, &query)));
    }
}

#[test]
fn test_nearests() {
    test_nearests_by(random3d_generator());
    test_nearests_by(random3d_10th_generator());
}

#[test]
fn test_within() {
    let mut gen3d = random3d_generator();
    let kdtree = KdTree::build(random_points(10000, &mut gen3d));
    for _ in 0..100 {
        let mut p1 = gen3d();
        let mut p2 = gen3d();
        for k in 0..3 {
            if p1[k] > p2[k] {
                std::mem::swap(&mut p1[k], &mut p2[k]);
            }
        }
        let found = kdtree.within(&[p1, p2]);
        let count = kdtree
            .items()
            .iter()
            .filter(|p| (0..3).all(|k| p1[k] <= p[k] && p[k] <= p2[k]))
            .count();
        assert_eq!(found.len(), count);
    }
}

#[test]
fn test_within_against_empty() {
    let empty: KdTree<3> = KdTree::build(vec![]);
    assert!(empty.within(&[[0, 0, 0], [1, 1, 1]]).is_empty());
}

#[test]
fn test_within_radius() {
    let mut gen3d = random3d_generator();
    let kdtree = KdTree::build(random_points(10000, &mut gen3d));
    const RADIUS: u64 = (SCALE / 10) as u64;
    for _ in 0..100 {
        let query = gen3d();
        let found = kdtree.within_radius(&query, RADIUS);
        let count = kdtree
            .items()
            .iter()
            .filter(|p| squared_distance(p, &query) < (RADIUS as u128) * (RADIUS as u128))
            .count();
        assert_eq!(found.len(), count);
    }
}

#[test]
fn test_rayon() {
    let points = {
        let mut gen3d = random3d_generator();
        random_points(1000, &mut gen3d)
    };
    let kdtree1 = KdTree::build(points.clone());
    let kdtree2 = KdTree::par_build(points.clone());
    assert_eq!(kdtree1, kdtree2);
}

#[test]
fn par_build_matches_build_on_many_ties() {
    let mut gen3d = random3d_10th_generator();
    let points = random_points(20000, &mut gen3d);
    let kdtree1 = KdTree::build(points.clone());
    let kdtree2 = KdTree::par_build(points);
    assert_eq!(kdtree1, kdtree2);
    assert!(KdTree::from_layout(kdtree2.items().clone()).is_some());
}
