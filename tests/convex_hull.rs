use range_search::convex_hull::{brute_force, upper_lower};
use range_search::primitives::{cross_prod, direction, squared_dist, Orientation, Point};

#[test]
fn ut_brute_force_normal() {
    let input = vec![
        Point::from((0, 0)),
        Point::from((2, 10)),
        Point::from((5, 1)),
        Point::from((2, 4)),
        Point::from((3, 2)),
    ];

    let output = brute_force(&input);

    assert_eq!(
        output,
        vec![Point::from((0, 0)), Point::from((5, 1)), Point::from((2, 10))]
    );
}

#[test]
fn ut_brute_force_collinear() {
    let input = vec![
        Point::from((0, 0)),
        Point::from((6, 0)),
        Point::from((5, 5)),
        Point::from((3, 0)),
        Point::from((4, 0)),
        Point::from((1, 5)),
        Point::from((2, 2)),
    ];

    let output = brute_force(&input);

    assert_eq!(
        output,
        vec![
            Point::from((0, 0)),
            Point::from((3, 0)),
            Point::from((4, 0)),
            Point::from((6, 0)),
            Point::from((5, 5)),
            Point::from((1, 5))
        ]
    );
}

#[test]
fn ut_cross_prod() {
    // example: colinear
    let result = cross_prod(&Point(0, 1), &Point(0, 4), &Point(0, 6));
    assert_eq!(result, 0);

    // example (a): CCW
    let result = cross_prod(&Point(0, 0), &Point(3, 6), &Point(-2, 4));
    assert_eq!(result, 24);

    // example (b): CW
    let result = cross_prod(&Point(0, 0), &Point(-2, 4), &Point(3, 6));
    assert_eq!(result, -24);
}

#[test]
fn ut_direction() {
    // example: colinear
    let turn = direction(&Point(0, 1), &Point(0, 4), &Point(0, 6));
    assert_eq!(turn, Orientation::Straight);

    // example (a): CCW
    let turn = direction(&Point(0, 0), &Point(3, 6), &Point(-2, 4));
    assert_eq!(turn, Orientation::Left);

    // example (b): CW
    let turn = direction(&Point(0, 0), &Point(-2, 4), &Point(3, 6));
    assert_eq!(turn, Orientation::Right);
}

#[test]
fn cross_prod_extreme_coordinates_do_not_overflow() {
    let lo = i32::MIN;
    let hi = i32::MAX;
    let result = cross_prod(&Point(lo, lo), &Point(hi, lo), &Point(lo, hi));
    let span = hi as i128 - lo as i128;
    assert_eq!(result, span * span);
}

#[test]
fn squared_dist_exact() {
    assert_eq!(squared_dist(&Point(0, 0), &Point(3, 4)), 25);
    assert_eq!(squared_dist(&Point(-1, -1), &Point(-1, -1)), 0);
}

#[test]
fn brute_force_needs_two_distinct_points() {
    assert_eq!(brute_force(&vec![]), vec![]);
    assert_eq!(brute_force(&vec![Point(1, 1), Point(1, 1)]), vec![]);
}

#[test]
fn brute_force_square_with_inner_point() {
    let input = vec![Point(0, 0), Point(4, 4), Point(0, 4), Point(4, 0), Point(2, 2)];
    let output = brute_force(&input);
    assert_eq!(output, vec![Point(0, 0), Point(4, 0), Point(4, 4), Point(0, 4)]);
}

#[test]
fn ut_upper_lower_normal() {
    let input = vec![
        Point::from((0, 0)),
        Point::from((2, 10)),
        Point::from((5, 1)),
        Point::from((2, 4)),
        Point::from((3, 2)),
    ];

    let output = upper_lower(&input);

    assert_eq!(
        output,
        vec![Point::from((5, 1)), Point::from((2, 10)), Point::from((0, 0))]
    );
}

#[test]
fn ut_upper_lower_collinear() {
    let input = vec![
        Point::from((0, 0)),
        Point::from((6, 0)),
        Point::from((5, 5)),
        Point::from((3, 0)),
        Point::from((4, 0)),
        Point::from((1, 5)),
        Point::from((2, 2)),
    ];

    let output = upper_lower(&input);

    assert_eq!(
        output,
        vec![
            Point::from((3, 0)),
            Point::from((4, 0)),
            Point::from((6, 0)),
            Point::from((5, 5)),
            Point::from((1, 5)),
            Point::from((0, 0)),
        ]
    );
}

#[test]
fn upper_lower_two_points() {
    let output = upper_lower(&vec![Point(3, 3), Point(1, 1)]);
    assert_eq!(output, vec![Point(3, 3), Point(1, 1)]);
}
