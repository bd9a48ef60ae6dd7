use range_search::primitives::Point;
use range_search::staircase::staircase;

#[test]
fn ut_1() {
    let input = vec![
        Point::from((0, 0)),
        Point::from((0, 5)),
        Point::from((1, 4)),
        Point::from((6, 2)),
        Point::from((2, 1)),
        Point::from((4, 0)),
        Point::from((-1, 3)),
    ];

    let output = staircase(&input);

    assert_eq!(
        output,
        vec![Point::from((0, 5)), Point::from((1, 4)), Point::from((6, 2))]
    );
}

#[test]
fn staircase_single_point() {
    assert_eq!(staircase(&vec![Point(2, -3)]), vec![Point(2, -3)]);
}

#[test]
fn staircase_equal_x_visited_upwards() {
    // among points sharing the largest x, every one above the previous is kept
    let input = vec![Point(5, 1), Point(5, 3), Point(5, 2), Point(1, 2), Point(0, 9)];
    assert_eq!(
        staircase(&input),
        vec![Point(0, 9), Point(5, 3), Point(5, 2), Point(5, 1)]
    );
}

#[test]
fn staircase_keeps_every_unshadowed_point() {
    let input = vec![Point(1, 1), Point(1, 1), Point(0, 0), Point(-2, 4), Point(-3, 4)];
    assert_eq!(staircase(&input), vec![Point(-2, 4), Point(1, 1)]);
}
