//! Convex hulls of point sets: by brute force over all candidate edges,
//! and by Andrew's monotone chain.
use vstd::prelude::*;
use crate::order::{copy_points, sort_along, Axis};
use crate::primitives::{cross, direction, dist_sq, squared_dist, turn, Orientation, Point};

verus! {

broadcast use vstd::seq_lib::group_to_multiset_ensures;

/// The directed segment from `p` to `q` joins two distinct input points
/// and has no other input point strictly on its right: it lies on the
/// boundary of the hull, which is walked counter-clockwise.
pub open spec fn supporting(points: Seq<Point>, p: Point, q: Point) -> bool {
    &&& points.contains(p)
    &&& points.contains(q)
    &&& p != q
    &&& forall|k: int|
        0 <= k < points.len() && points[k] != p && points[k] != q ==> turn(
            p,
            q,
            #[trigger] points[k],
        ) != Orientation::Right
}

/// `p` starts some boundary edge of the hull of `points`.
pub open spec fn starts_edge(points: Seq<Point>, p: Point) -> bool {
    exists|q: Point| supporting(points, p, q)
}

/// Whether `p` to `q` is a boundary edge, checked against every point.
fn is_supporting(points: &Vec<Point>, p: Point, q: Point) -> (b: bool)
    requires
        points@.contains(p),
        points@.contains(q),
        p != q,
    ensures
        b == supporting(points@, p, q),
{
    let mut k: usize = 0;
    while k < points.len()
        invariant
            0 <= k <= points@.len(),
            forall|k2: int|
                0 <= k2 < k && points@[k2] != p && points@[k2] != q ==> turn(
                    p,
                    q,
                    #[trigger] points@[k2],
                ) != Orientation::Right,
        decreases points@.len() - k,
    {
        let r = points[k];
        if r != p && r != q {
            if direction(&p, &q, &r) == Orientation::Right {
                return false;
            }
        }
        k = k + 1;
    }
    true
}

/// Whether `p` is one of the points of `v`.
fn holds_point(v: &Vec<Point>, p: Point) -> (b: bool)
    ensures
        b == v@.contains(p),
{
    let mut i: usize = 0;
    while i < v.len()
        invariant
            0 <= i <= v@.len(),
            forall|j: int| 0 <= j < i ==> v@[j] != p,
        decreases v@.len() - i,
    {
        if v[i] == p {
            return true;
        }
        i = i + 1;
    }
    false
}

/// Computes the convex hull of `points` as a polygon, its vertices in
/// counter-clockwise order, collinear boundary points included.
///
/// Every directed pair of distinct points with no point to its right is a
/// boundary edge. Starting from the first such edge, the walk moves from
/// each vertex along its shortest boundary edge to the first edge that
/// leaves its end, until it is back at the first vertex. It also stops
/// where it would revisit a vertex, find no edge to go on with, or take more
/// steps than there are edges; a walk that did not stop there would go
/// round forever. With fewer than two distinct points there is no edge and
/// the result is empty.
///
/// - Time complexity: O(n^3)
pub fn brute_force(points: &Vec<Point>) -> (polygon: Vec<Point>)
    ensures
        forall|i: int| 0 <= i < polygon@.len() ==> starts_edge(points@, #[trigger] polygon@[i]),
        polygon@.len() == 0 <==> forall|p: Point, q: Point| !supporting(points@, p, q),
        forall|i: int, j: int|
            0 <= i < j < polygon@.len() ==> #[trigger] polygon@[i] != #[trigger] polygon@[j],
        forall|i: int|
            0 <= i && i + 1 < polygon@.len() ==> supporting(
                points@,
                #[trigger] polygon@[i],
                polygon@[i + 1],
            ),
{
    let mut edges: Vec<(Point, Point, i128)> = Vec::new();
    // search through every possible pair of points
    let mut i: usize = 0;
    while i < points.len()
        invariant
            0 <= i <= points@.len(),
            forall|e: int|
                0 <= e < edges@.len() ==> supporting(points@, (#[trigger] edges@[e]).0, edges@[e].1)
                    && edges@[e].2 == dist_sq(edges@[e].0, edges@[e].1),
            edges@.len() == 0 ==> forall|i2: int, q: Point|
                0 <= i2 < i ==> !#[trigger] supporting(points@, points@[i2], q),
        decreases points@.len() - i,
    {
        let p = points[i];
        let mut j: usize = 0;
        while j < points.len()
            invariant
                0 <= i < points@.len(),
                p == points@[i as int],
                0 <= j <= points@.len(),
                forall|e: int|
                    0 <= e < edges@.len() ==> supporting(
                        points@,
                        (#[trigger] edges@[e]).0,
                        edges@[e].1,
                    ) && edges@[e].2 == dist_sq(edges@[e].0, edges@[e].1),
                edges@.len() == 0 ==> forall|i2: int, q: Point|
                    0 <= i2 < i ==> !#[trigger] supporting(points@, points@[i2], q),
                edges@.len() == 0 ==> forall|j2: int|
                    0 <= j2 < j ==> !#[trigger] supporting(points@, p, points@[j2]),
            decreases points@.len() - j,
        {
            let q = points[j];
            if q != p {
                // keep the pair if no other point lies on its right
                if is_supporting(points, p, q) {
                    let d = squared_dist(&p, &q);
                    edges.push((p, q, d));
                }
            }
            j = j + 1;
        }
        proof {
            if edges@.len() == 0 {
                assert forall|i2: int, q: Point|
                    0 <= i2 < i + 1 implies !#[trigger] supporting(points@, points@[i2], q) by {
                    if i2 == i && supporting(points@, p, q) {
                        // q is some input point, and no pair from p was kept
                        let j2 = choose|j2: int| 0 <= j2 < points@.len() && points@[j2] == q;
                        assert(!supporting(points@, p, points@[j2]));
                    }
                }
            }
        }
        i = i + 1;
    }
    let mut polygon: Vec<Point> = Vec::new();
    if edges.len() == 0 {
        assert forall|p: Point, q: Point| !supporting(points@, p, q) by {
            if supporting(points@, p, q) {
                // p is some input point, and no pair from it was kept
                let i2 = choose|i2: int| 0 <= i2 < points@.len() && points@[i2] == p;
                assert(!supporting(points@, points@[i2], q));
            }
        }
        return polygon;
    }
    // walk the edges into a polygon
    let mut e = edges[0];
    let mut steps: usize = 0;
    let mut walking = true;
    let ghost mut partners: Seq<Point> = Seq::empty();
    while walking && steps < edges.len()
        invariant
            0 < edges@.len(),
            forall|k: int|
                0 <= k < edges@.len() ==> supporting(points@, (#[trigger] edges@[k]).0, edges@[k].1)
                    && edges@[k].2 == dist_sq(edges@[k].0, edges@[k].1),
            supporting(points@, e.0, e.1),
            steps <= edges@.len(),
            steps == 0 ==> polygon@.len() == 0 && walking,
            steps > 0 ==> polygon@.len() > 0,
            partners.len() == polygon@.len(),
            forall|k: int|
                0 <= k < polygon@.len() ==> supporting(
                    points@,
                    #[trigger] polygon@[k],
                    partners[k],
                ),
            forall|i: int, j: int|
                0 <= i < j < polygon@.len() ==> #[trigger] polygon@[i] != #[trigger] polygon@[j],
            forall|i: int|
                0 <= i && i + 1 < polygon@.len() ==> supporting(
                    points@,
                    #[trigger] polygon@[i],
                    polygon@[i + 1],
                ),
            walking && polygon@.len() > 0 ==> supporting(points@, polygon@.last(), e.0),
            walking ==> !polygon@.contains(e.0),
        decreases edges@.len() - steps,
    {
        polygon.push(e.0);
        proof {
            partners = partners.push(e.1);
        }
        let mut next = e;
        // pick the shortest edge leaving the current vertex
        let mut k: usize = 0;
        while k < edges.len()
            invariant
                0 <= k <= edges@.len(),
                forall|k2: int|
                    0 <= k2 < edges@.len() ==> supporting(
                        points@,
                        (#[trigger] edges@[k2]).0,
                        edges@[k2].1,
                    ),
                supporting(points@, next.0, next.1),
                next.0 == e.0,
            decreases edges@.len() - k,
        {
            let n = edges[k];
            if e.0 == n.0 && n.2 < next.2 {
                next = n;
            }
            k = k + 1;
        }
        // find an edge that starts where this one ends
        let mut following: Option<(Point, Point, i128)> = None;
        let mut k: usize = 0;
        while k < edges.len() && following.is_none()
            invariant
                0 <= k <= edges@.len(),
                forall|k2: int|
                    0 <= k2 < edges@.len() ==> supporting(
                        points@,
                        (#[trigger] edges@[k2]).0,
                        edges@[k2].1,
                    ),
                following matches Some(f) ==> f.0 == next.1 && supporting(points@, f.0, f.1),
            decreases edges@.len() - k,
        {
            let n = edges[k];
            if next.1 == n.0 {
                following = Some(n);
            }
            k = k + 1;
        }
        steps = steps + 1;
        match following {
            None => {
                walking = false;
            },
            Some(f) => {
                e = f;
                if e.0 == polygon[0] {
                    // back at the first vertex: the polygon is closed
                    walking = false;
                } else if holds_point(&polygon, e.0) {
                    walking = false;
                }
            },
        }
    }
    assert forall|i: int| 0 <= i < polygon@.len() implies starts_edge(
        points@,
        #[trigger] polygon@[i],
    ) by {
        assert(supporting(points@, polygon@[i], partners[i]));
    }
    polygon
}

/// No three consecutive points of `chain` make a left turn.
pub open spec fn no_left_turn(chain: Seq<Point>) -> bool {
    forall|i: int|
        0 <= i && i + 2 < chain.len() ==> #[trigger] turn(chain[i], chain[i + 1], chain[i + 2])
            != Orientation::Left
}

/// No three consecutive points of `chain` make a right turn.
pub open spec fn no_right_turn(chain: Seq<Point>) -> bool {
    forall|i: int|
        0 <= i && i + 2 < chain.len() ==> #[trigger] turn(chain[i], chain[i + 1], chain[i + 2])
            != Orientation::Right
}

/// Walking a path backwards turns a left turn into a right turn.
pub proof fn lemma_turn_reversed(a: Point, b: Point, c: Point)
    ensures
        turn(a, b, c) == Orientation::Left <==> turn(c, b, a) == Orientation::Right,
{
    assert(cross(c, a, b) == -cross(a, c, b)) by (nonlinear_arith);
}

/// The element of `sorted` at step `i` of a walk from its front, when
/// `forward`, or from its back.
pub open spec fn walk_at(sorted: Seq<Point>, forward: bool, i: int) -> Point {
    if forward {
        sorted[i]
    } else {
        sorted[sorted.len() - 1 - i]
    }
}

/// One half of the hull: walks `sorted` from the front (or from the back),
/// dropping the last point while the new one would make a left turn with
/// the last two, and skipping a repeat of the last point.
fn half_hull(sorted: &Vec<Point>, forward: bool) -> (hull: Vec<Point>)
    requires
        sorted@.len() >= 2,
    ensures
        hull@.len() >= 2,
        hull@[0] == walk_at(sorted@, forward, 0),
        no_left_turn(hull@),
        forall|t: int| 0 <= t < hull@.len() ==> sorted@.contains(#[trigger] hull@[t]),
{
    let n = sorted.len();
    let first = if forward {
        sorted[0]
    } else {
        sorted[n - 1]
    };
    let second = if forward {
        sorted[1]
    } else {
        sorted[n - 2]
    };
    let mut hull: Vec<Point> = vec![first, second];
    let mut i: usize = 2;
    while i < n
        invariant
            n == sorted@.len(),
            2 <= i <= n,
            hull@.len() >= 2,
            hull@[0] == walk_at(sorted@, forward, 0),
            no_left_turn(hull@),
            forall|t: int| 0 <= t < hull@.len() ==> sorted@.contains(#[trigger] hull@[t]),
        decreases n - i,
    {
        let r = if forward {
            sorted[i]
        } else {
            sorted[n - 1 - i]
        };
        assert(sorted@.contains(r));
        if r != hull[hull.len() - 1] {
            while hull.len() > 1 && direction(&hull[hull.len() - 2], &hull[hull.len() - 1], &r)
                == Orientation::Left
                invariant
                    hull@.len() >= 1,
                    hull@[0] == walk_at(sorted@, forward, 0),
                    no_left_turn(hull@),
                    forall|t: int| 0 <= t < hull@.len() ==> sorted@.contains(#[trigger] hull@[t]),
                decreases hull@.len(),
            {
                hull.pop();
            }
            let ghost before = hull@;
            hull.push(r);
            assert forall|j: int| 0 <= j && j + 2 < hull@.len() implies #[trigger] turn(
                hull@[j],
                hull@[j + 1],
                hull@[j + 2],
            ) != Orientation::Left by {
                if j + 2 < before.len() {
                    assert(turn(before[j], before[j + 1], before[j + 2]) != Orientation::Left);
                }
            }
        }
        i = i + 1;
    }
    hull
}

/// Computes the convex hull of `points` with Andrew's monotone chain: the
/// points are sorted by `x`, then by `y`; the upper and the lower chain
/// are built by walking them forwards and backwards, and joined, each
/// chain's end point shared, into a polygon listed counter-clockwise.
///
/// - Time complexity: O(n*log(n))
pub fn upper_lower(points: &Vec<Point>) -> (hull: Vec<Point>)
    requires
        points@.len() >= 2,
    ensures
        hull@.len() >= 2,
        forall|t: int| 0 <= t < hull@.len() ==> points@.contains(#[trigger] hull@[t]),
        exists|m: int|
            0 <= m <= hull@.len() && no_right_turn(#[trigger] hull@.subrange(0, m))
                && no_right_turn(hull@.subrange(m, hull@.len() as int)),
{
    let mut sorted = copy_points(points);
    sort_along(&mut sorted, Axis::X);
    assert(points@.len() == points@.to_multiset().len());
    let upper = half_hull(&sorted, true);
    let lower = half_hull(&sorted, false);
    // the upper chain followed by the inner points of the lower chain,
    // listed in reverse
    let mut hull: Vec<Point> = Vec::new();
    let ghost lo = lower@.len() as int;
    let mut k: usize = lower.len() - 1;
    while k > 1
        invariant
            1 <= k < lower@.len(),
            lo == lower@.len(),
            hull@.len() == lo - 1 - k,
            forall|t: int| 0 <= t < hull@.len() ==> #[trigger] hull@[t] == lower@[lo - 2 - t],
            forall|t: int| 0 <= t < hull@.len() ==> sorted@.contains(#[trigger] hull@[t]),
            forall|t: int| 0 <= t < lower@.len() ==> sorted@.contains(#[trigger] lower@[t]),
        decreases k,
    {
        k = k - 1;
        hull.push(lower[k]);
    }
    let ghost m = hull@.len() as int;
    let ghost up = upper@.len() as int;
    let mut k: usize = upper.len();
    while k > 0
        invariant
            0 <= k <= upper@.len(),
            up == upper@.len(),
            0 <= m <= hull@.len(),
            hull@.len() == m + up - k,
            forall|t: int| 0 <= t < m ==> #[trigger] hull@[t] == lower@[lo - 2 - t],
            forall|t: int| m <= t < hull@.len() ==> #[trigger] hull@[t] == upper@[up - 1 - (t - m)],
            forall|t: int| 0 <= t < hull@.len() ==> sorted@.contains(#[trigger] hull@[t]),
            forall|t: int| 0 <= t < upper@.len() ==> sorted@.contains(#[trigger] upper@[t]),
        decreases k,
    {
        k = k - 1;
        hull.push(upper[k]);
    }
    assert forall|t: int| 0 <= t < hull@.len() implies points@.contains(#[trigger] hull@[t]) by {
        assert(sorted@.to_multiset().count(hull@[t]) > 0);
    }
    let ghost first = hull@.subrange(0, m);
    let ghost second = hull@.subrange(m, hull@.len() as int);
    assert forall|i: int| 0 <= i && i + 2 < first.len() implies #[trigger] turn(
        first[i],
        first[i + 1],
        first[i + 2],
    ) != Orientation::Right by {
        let j = lo - 4 - i;
        assert(turn(lower@[j], lower@[j + 1], lower@[j + 2]) != Orientation::Left);
        lemma_turn_reversed(lower@[j], lower@[j + 1], lower@[j + 2]);
    }
    assert forall|i: int| 0 <= i && i + 2 < second.len() implies #[trigger] turn(
        second[i],
        second[i + 1],
        second[i + 2],
    ) != Orientation::Right by {
        let j = up - 3 - i;
        assert(turn(upper@[j], upper@[j + 1], upper@[j + 2]) != Orientation::Left);
        lemma_turn_reversed(upper@[j], upper@[j + 1], upper@[j + 2]);
    }
    assert(no_right_turn(hull@.subrange(0, m)) && no_right_turn(
        hull@.subrange(m, hull@.len() as int),
    ));
    hull
}

} // verus!
