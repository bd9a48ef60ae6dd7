use range_search::kd_tree::KdTree;
use range_search::primitives::{BuildError, Point, Region};
use range_search::range_tree::RangeTree;

fn sorted_pairs(points: &[Point]) -> Vec<(i32, i32)> {
    let mut v: Vec<(i32, i32)> = points.iter().map(|p| (p.x(), p.y())).collect();
    v.sort();
    v
}

fn naive(points: &[Point], region: &Region) -> Vec<(i32, i32)> {
    let inside: Vec<Point> = points
        .iter()
        .copied()
        .filter(|p| {
            let (lx, rx) = (region.0.x().min(region.1.x()), region.0.x().max(region.1.x()));
            let (ly, ry) = (region.0.y().min(region.1.y()), region.0.y().max(region.1.y()));
            lx <= p.x() && p.x() <= rx && ly <= p.y() && p.y() <= ry
        })
        .collect();
    sorted_pairs(&inside)
}

fn kd_answer(points: &[Point], region: &Region) -> Vec<(i32, i32)> {
    let tree = KdTree::construct(points.to_vec()).unwrap();
    sorted_pairs(&tree.range_query(region))
}

fn range_answer(points: &[Point], region: &Region) -> Vec<(i32, i32)> {
    let tree = RangeTree::construct(points.to_vec()).unwrap();
    sorted_pairs(&tree.range_query(region))
}

fn pseudo_random_points(n: usize, seed: u64, span: i64) -> Vec<Point> {
    let mut state = seed;
    let mut next = || {
        state = state.wrapping_mul(6364136223846793005).wrapping_add(1442695040888963407);
        ((state >> 33) as i64 % span) as i32
    };
    (0..n).map(|_| Point(next(), next())).collect()
}

#[test]
fn boundary_points_are_included() {
    let points = vec![Point(0, 0), Point(5, 0), Point(5, 5), Point(0, 5), Point(2, 2)];
    let region = Region::new(Point(0, 0), Point(5, 5));
    let all = sorted_pairs(&points);
    assert_eq!(kd_answer(&points, &region), all);
    assert_eq!(range_answer(&points, &region), all);
}

#[test]
fn scenario_window_with_corner_point() {
    // (2, 4) is the window's upper-left corner, so the closed window holds it
    let points = vec![Point(1, 1), Point(3, 3), Point(5, 1), Point(2, 4)];
    let region = Region::new(Point(2, 0), Point(4, 4));
    assert_eq!(kd_answer(&points, &region), vec![(2, 4), (3, 3)]);
    assert_eq!(range_answer(&points, &region), vec![(2, 4), (3, 3)]);
    // shrinking the window off that corner leaves the interior point alone
    let inner = Region::new(Point(2, 0), Point(4, 3));
    assert_eq!(kd_answer(&points, &inner), vec![(3, 3)]);
    assert_eq!(range_answer(&points, &inner), vec![(3, 3)]);
}

#[test]
fn single_point_input() {
    let points = vec![Point(7, 7)];
    let containing = Region::new(Point(0, 0), Point(10, 10));
    let excluding = Region::new(Point(8, 8), Point(10, 10));
    assert_eq!(kd_answer(&points, &containing), vec![(7, 7)]);
    assert_eq!(range_answer(&points, &containing), vec![(7, 7)]);
    assert_eq!(kd_answer(&points, &excluding), vec![]);
    assert_eq!(range_answer(&points, &excluding), vec![]);
}

#[test]
fn empty_input_is_rejected() {
    assert_eq!(KdTree::construct(vec![]).err(), Some(BuildError::EmptyInput));
    assert_eq!(RangeTree::construct(vec![]).err(), Some(BuildError::EmptyInput));
}

#[test]
fn covering_region_returns_every_point_once() {
    let points = pseudo_random_points(200, 7, 100);
    let region = Region::new(Point(-100, -100), Point(100, 100));
    let all = sorted_pairs(&points);
    assert_eq!(kd_answer(&points, &region), all);
    assert_eq!(range_answer(&points, &region), all);
}

#[test]
fn disjoint_region_returns_nothing() {
    let points = pseudo_random_points(150, 11, 50);
    let region = Region::new(Point(60, 60), Point(90, 70));
    assert_eq!(kd_answer(&points, &region), vec![]);
    assert_eq!(range_answer(&points, &region), vec![]);
}

#[test]
fn repeated_queries_agree() {
    let points = pseudo_random_points(120, 3, 40);
    let region = Region::new(Point(30, -5), Point(-10, 20));
    let kd = KdTree::construct(points.clone()).unwrap();
    let rt = RangeTree::construct(points).unwrap();
    assert_eq!(sorted_pairs(&kd.range_query(&region)), sorted_pairs(&kd.range_query(&region)));
    assert_eq!(sorted_pairs(&rt.range_query(&region)), sorted_pairs(&rt.range_query(&region)));
}

#[test]
fn both_trees_match_a_linear_scan() {
    for seed in 1..25u64 {
        let points = pseudo_random_points(1 + (seed as usize * 13) % 97, seed, 30);
        let corners = pseudo_random_points(2, seed + 1000, 35);
        let region = Region::new(corners[0], corners[1]);
        let expected = naive(&points, &region);
        assert_eq!(kd_answer(&points, &region), expected);
        assert_eq!(range_answer(&points, &region), expected);
    }
}

#[test]
fn duplicate_points_are_reported_as_often_as_given() {
    let points = vec![Point(2, 2), Point(2, 2), Point(2, 2), Point(9, 9), Point(2, 3)];
    let region = Region::new(Point(0, 0), Point(2, 2));
    assert_eq!(kd_answer(&points, &region), vec![(2, 2), (2, 2), (2, 2)]);
    assert_eq!(range_answer(&points, &region), vec![(2, 2), (2, 2), (2, 2)]);
}

#[test]
fn degenerate_regions() {
    let points = vec![Point(1, 1), Point(1, 2), Point(1, 3), Point(2, 2), Point(0, 2)];
    let line = Region::new(Point(1, 0), Point(1, 5));
    let dot = Region::new(Point(2, 2), Point(2, 2));
    assert_eq!(kd_answer(&points, &line), vec![(1, 1), (1, 2), (1, 3)]);
    assert_eq!(range_answer(&points, &line), vec![(1, 1), (1, 2), (1, 3)]);
    assert_eq!(kd_answer(&points, &dot), vec![(2, 2)]);
    assert_eq!(range_answer(&points, &dot), vec![(2, 2)]);
}

#[test]
fn unsorted_input_is_ordered_before_splitting() {
    let points: Vec<Point> = (0..16).rev().map(|i| Point(i, 15 - i)).collect();
    let region = Region::new(Point(3, 0), Point(6, 15));
    let expected = vec![(3, 12), (4, 11), (5, 10), (6, 9)];
    assert_eq!(kd_answer(&points, &region), expected);
    assert_eq!(range_answer(&points, &region), expected);
}

#[test]
fn extreme_coordinates() {
    let points = vec![
        Point(i32::MIN, i32::MIN),
        Point(i32::MAX, i32::MAX),
        Point(i32::MIN, i32::MAX),
        Point(0, 0),
    ];
    let region = Region::new(Point(i32::MIN, 0), Point(0, i32::MAX));
    assert_eq!(kd_answer(&points, &region), vec![(i32::MIN, i32::MAX), (0, 0)]);
    assert_eq!(range_answer(&points, &region), vec![(i32::MIN, i32::MAX), (0, 0)]);
}

#[test]
fn window_inside_a_dense_grid() {
    let points: Vec<Point> = (0..20).flat_map(|x| (0..20).map(move |y| Point(x, y))).collect();
    let region = Region::new(Point(3, 4), Point(15, 12));
    let expected = naive(&points, &region);
    assert_eq!(expected.len(), 13 * 9);
    assert_eq!(kd_answer(&points, &region), expected);
    assert_eq!(range_answer(&points, &region), expected);
}
