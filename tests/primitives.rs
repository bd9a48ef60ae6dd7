use range_search::primitives::{on_segment, segments_intersect, LineSegment, Point, Region};

#[test]
fn point_accessors_and_origin() {
    let p = Point::from((3, -7));
    assert_eq!(p.x(), 3);
    assert_eq!(p.y(), -7);
    assert_eq!(Point::new(), Point(0, 0));
}

#[test]
fn region_bounds_from_corners_in_any_order() {
    let r = Region::new(Point(5, 1), Point(2, 4));
    assert_eq!(r.l_x(), 2);
    assert_eq!(r.r_x(), 5);
    assert_eq!(r.l_y(), 1);
    assert_eq!(r.r_y(), 4);
}

#[test]
fn region_contains_point_inclusive() {
    let r = Region::new(Point(0, 0), Point(5, 5));
    assert!(r.contains_point(&Point(0, 0)));
    assert!(r.contains_point(&Point(5, 5)));
    assert!(r.contains_point(&Point(0, 3)));
    assert!(r.contains_point(&Point(2, 2)));
    assert!(!r.contains_point(&Point(6, 2)));
    assert!(!r.contains_point(&Point(2, -1)));
}

#[test]
fn region_contains_region_and_strictly() {
    let outer = Region::new(Point(0, 0), Point(10, 10));
    let inner = Region::new(Point(2, 2), Point(8, 8));
    let touching = Region::new(Point(0, 2), Point(8, 8));
    let sticking_out = Region::new(Point(2, 2), Point(11, 8));
    assert!(outer.contains_region(&inner));
    assert!(outer.strictly_contains(&inner));
    assert!(outer.contains_region(&touching));
    assert!(!outer.strictly_contains(&touching));
    assert!(!outer.contains_region(&sticking_out));
    assert!(!outer.strictly_contains(&sticking_out));
    assert!(outer.contains_region(&outer));
    assert!(!outer.strictly_contains(&outer));
}

#[test]
fn region_halfplanes() {
    let r = Region::new(Point(0, 0), Point(10, 6));
    assert_eq!(
        r.intersect_left_halfplane(4),
        Some(Region::new(Point(0, 0), Point(4, 6)))
    );
    assert_eq!(
        r.intersect_left_halfplane(20),
        Some(Region::new(Point(0, 0), Point(10, 6)))
    );
    assert_eq!(r.intersect_left_halfplane(-1), None);
    assert_eq!(
        r.intersect_right_halfplane(4),
        Some(Region::new(Point(4, 0), Point(10, 6)))
    );
    assert_eq!(
        r.intersect_right_halfplane(-3),
        Some(Region::new(Point(0, 0), Point(10, 6)))
    );
    assert_eq!(r.intersect_right_halfplane(11), None);
    assert_eq!(
        r.intersect_upper_halfplane(2),
        Some(Region::new(Point(0, 2), Point(10, 6)))
    );
    assert_eq!(r.intersect_upper_halfplane(7), None);
    assert_eq!(
        r.intersect_lower_halfplane(2),
        Some(Region::new(Point(0, 0), Point(10, 2)))
    );
    assert_eq!(r.intersect_lower_halfplane(-1), None);
}

#[test]
fn region_halfplane_on_the_edge_is_kept() {
    let r = Region::new(Point(0, 0), Point(10, 6));
    assert_eq!(
        r.intersect_left_halfplane(0),
        Some(Region::new(Point(0, 0), Point(0, 6)))
    );
    assert_eq!(
        r.intersect_upper_halfplane(6),
        Some(Region::new(Point(0, 6), Point(10, 6)))
    );
}

#[test]
fn region_intersects_by_corners() {
    let a = Region::new(Point(0, 0), Point(4, 4));
    let b = Region::new(Point(3, 3), Point(6, 6));
    let far = Region::new(Point(5, 5), Point(6, 6));
    let inside = Region::new(Point(1, 1), Point(2, 2));
    assert!(a.intersects(&b));
    assert!(b.intersects(&a));
    assert!(!a.intersects(&far));
    assert!(a.intersects(&inside));
    assert!(inside.intersects(&a));
}

#[test]
fn region_intersects_misses_a_plus_sign_crossing() {
    let wide = Region::new(Point(0, 2), Point(10, 4));
    let tall = Region::new(Point(4, 0), Point(6, 10));
    assert!(!wide.intersects(&tall));
    assert!(!tall.intersects(&wide));
}

#[test]
fn ut_on_segment() {
    // safely within the segment
    let result = on_segment(&LineSegment(Point(0, 4), Point(0, 10)), &Point(0, 6));
    assert_eq!(result, true);

    // on an endpoint
    let result = on_segment(&LineSegment(Point(0, 4), Point(2, 10)), &Point(2, 10));
    assert_eq!(result, true);

    let result = on_segment(&LineSegment(Point(0, 4), Point(2, 10)), &Point(0, 4));
    assert_eq!(result, true);

    // too far 'up'
    let result = on_segment(&LineSegment(Point(0, 4), Point(2, 10)), &Point(1, 11));
    assert_eq!(result, false);

    // too far 'down'
    let result = on_segment(&LineSegment(Point(0, 4), Point(2, 10)), &Point(1, 3));
    assert_eq!(result, false);

    // too far 'left'
    let result = on_segment(&LineSegment(Point(0, 4), Point(0, 10)), &Point(-1, 6));
    assert_eq!(result, false);

    // too far 'right'
    let result = on_segment(&LineSegment(Point(0, 4), Point(2, 10)), &Point(4, 7));
    assert_eq!(result, false);
}

#[test]
fn ut_segments_intersect() {
    // coordinates are integers, so every coordinate of the cases is doubled;
    // whether two segments meet does not change under scaling
    let line1 = LineSegment(Point(0, 0), Point(8, 8));
    let line2 = LineSegment(Point(0, 8), Point(8, 0));
    let result = segments_intersect(&line1, &line2);
    assert_eq!(result, true);

    let line1 = LineSegment(Point(0, 0), Point(8, 8));
    let line2 = LineSegment(Point(0, 8), Point(5, 3));
    let result = segments_intersect(&line1, &line2);
    assert_eq!(result, true);

    let line1 = LineSegment(Point(0, 0), Point(8, 8));
    let line2 = LineSegment(Point(0, 8), Point(4, 4));
    let result = segments_intersect(&line1, &line2);
    assert_eq!(result, true);

    let line1 = LineSegment(Point(0, 0), Point(8, 8));
    let line2 = LineSegment(Point(0, 8), Point(3, 5));
    let result = segments_intersect(&line1, &line2);
    assert_eq!(result, false);

    let line1 = LineSegment(Point(0, 0), Point(8, 8));
    let line2 = LineSegment(Point(0, 18), Point(18, 0));
    let result = segments_intersect(&line1, &line2);
    assert_eq!(result, false);
}

#[test]
fn segment_bounds_and_ends() {
    let s = LineSegment(Point(4, -1), Point(-2, 7));
    assert_eq!(s.x_min(), -2);
    assert_eq!(s.x_max(), 4);
    assert_eq!(s.y_min(), -1);
    assert_eq!(s.y_max(), 7);
    assert_eq!(*s.start(), Point(4, -1));
    assert_eq!(*s.end(), Point(-2, 7));
}

#[test]
fn collinear_overlapping_segments_meet() {
    let a = LineSegment(Point(0, 0), Point(4, 0));
    let b = LineSegment(Point(2, 0), Point(6, 0));
    let c = LineSegment(Point(5, 0), Point(6, 0));
    assert!(segments_intersect(&a, &b));
    assert!(!segments_intersect(&a, &c));
}
