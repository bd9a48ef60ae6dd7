//! Points, rectangular regions and orientation tests in the plane.
use vstd::multiset::Multiset;
use vstd::prelude::*;

verus! {

/// A single coordinate value. Integers are totally ordered, so every
/// coordinate is comparable with every other.
pub type Coordinate = i32;

/// A location, without size, in the plane: `(x, y)`.
#[derive(Clone, Copy, PartialEq, Eq, Structural, Debug)]
pub struct Point(pub Coordinate, pub Coordinate);

impl Point {
    /// Creates a point at the origin `(0, 0)`.
    pub fn new() -> (r: Point)
        ensures
            r == Point(0, 0),
    {
        Point(0, 0)
    }

    /// The coordinate on the x-axis.
    pub fn x(&self) -> (r: Coordinate)
        ensures
            r == self.0,
    {
        self.0
    }

    /// The coordinate on the y-axis.
    pub fn y(&self) -> (r: Coordinate)
        ensures
            r == self.1,
    {
        self.1
    }
}

impl From<(Coordinate, Coordinate)> for Point {
    fn from(pair: (Coordinate, Coordinate)) -> (r: Point) {
        Point(pair.0, pair.1)
    }
}

impl vstd::std_specs::convert::FromSpecImpl<(Coordinate, Coordinate)> for Point {
    open spec fn obeys_from_spec() -> bool {
        true
    }

    open spec fn from_spec(pair: (Coordinate, Coordinate)) -> Point {
        Point(pair.0, pair.1)
    }
}

/// Why a search tree could not be built. Coordinates are integers and
/// therefore always comparable, so an empty point set is the only cause.
#[derive(Clone, Copy, PartialEq, Eq, Structural, Debug)]
pub enum BuildError {
    EmptyInput,
}

/// Smaller of two coordinates.
pub open spec fn min_coord(a: Coordinate, b: Coordinate) -> Coordinate {
    if a < b { a } else { b }
}

/// Larger of two coordinates.
pub open spec fn max_coord(a: Coordinate, b: Coordinate) -> Coordinate {
    if a > b { a } else { b }
}

/// An axis-aligned rectangle given by two opposite corners, in any order.
/// Its bounds are the closed intervals `[left_x, right_x]` and
/// `[lower_y, upper_y]` spanned by the corners.
#[derive(Clone, Copy, PartialEq, Eq, Structural, Debug)]
pub struct Region(pub Point, pub Point);

impl Region {
    pub open spec fn left_x(self) -> Coordinate {
        min_coord(self.0.0, self.1.0)
    }

    pub open spec fn right_x(self) -> Coordinate {
        max_coord(self.0.0, self.1.0)
    }

    pub open spec fn lower_y(self) -> Coordinate {
        min_coord(self.0.1, self.1.1)
    }

    pub open spec fn upper_y(self) -> Coordinate {
        max_coord(self.0.1, self.1.1)
    }

    /// `p` lies in the closed rectangle, boundary included.
    pub open spec fn has_point(self, p: Point) -> bool {
        &&& self.left_x() <= p.0 <= self.right_x()
        &&& self.lower_y() <= p.1 <= self.upper_y()
    }

    /// Every point of `r` lies in `self`.
    pub open spec fn has_region(self, r: Region) -> bool {
        &&& self.left_x() <= r.left_x()
        &&& r.right_x() <= self.right_x()
        &&& self.lower_y() <= r.lower_y()
        &&& r.upper_y() <= self.upper_y()
    }

    /// `r` lies inside `self` without touching its boundary.
    pub open spec fn has_region_strictly(self, r: Region) -> bool {
        &&& self.left_x() < r.left_x()
        &&& r.right_x() < self.right_x()
        &&& self.lower_y() < r.lower_y()
        &&& r.upper_y() < self.upper_y()
    }

    /// Some corner of `r` lies in `self`.
    pub open spec fn holds_corner_of(self, r: Region) -> bool {
        ||| self.has_point(Point(r.left_x(), r.lower_y()))
        ||| self.has_point(Point(r.left_x(), r.upper_y()))
        ||| self.has_point(Point(r.right_x(), r.lower_y()))
        ||| self.has_point(Point(r.right_x(), r.upper_y()))
    }

    /// The corner test used by `intersects`: a corner of either rectangle
    /// lies in the other. Two rectangles that cross like a plus sign, with
    /// no corner inside the other, do not meet this test.
    pub open spec fn corners_meet(self, r: Region) -> bool {
        self.holds_corner_of(r) || r.holds_corner_of(self)
    }

    /// The part of `self` with `x' <= x`, if any.
    pub open spec fn left_part(self, x: Coordinate) -> Option<Region> {
        if x < self.left_x() {
            None
        } else {
            Some(
                Region(
                    Point(self.left_x(), self.lower_y()),
                    Point(min_coord(self.right_x(), x), self.upper_y()),
                ),
            )
        }
    }

    /// The part of `self` with `x' >= x`, if any.
    pub open spec fn right_part(self, x: Coordinate) -> Option<Region> {
        if x > self.right_x() {
            None
        } else {
            Some(
                Region(
                    Point(max_coord(self.left_x(), x), self.lower_y()),
                    Point(self.right_x(), self.upper_y()),
                ),
            )
        }
    }

    /// The part of `self` with `y' >= y`, if any.
    pub open spec fn upper_part(self, y: Coordinate) -> Option<Region> {
        if y > self.upper_y() {
            None
        } else {
            Some(
                Region(
                    Point(self.left_x(), max_coord(self.lower_y(), y)),
                    Point(self.right_x(), self.upper_y()),
                ),
            )
        }
    }

    /// The part of `self` with `y' <= y`, if any.
    pub open spec fn lower_part(self, y: Coordinate) -> Option<Region> {
        if y < self.lower_y() {
            None
        } else {
            Some(
                Region(
                    Point(self.left_x(), self.lower_y()),
                    Point(self.right_x(), min_coord(self.upper_y(), y)),
                ),
            )
        }
    }

    /// Creates the region spanned by two corners, given in any order.
    pub fn new(start: Point, end: Point) -> (r: Region)
        ensures
            r == Region(start, end),
    {
        Region(start, end)
    }

    /// Checks if `r` is fully contained within `self`.
    pub fn contains_region(&self, r: &Region) -> (b: bool)
        ensures
            b == self.has_region(*r),
    {
        r.l_x() >= self.l_x() && r.r_x() <= self.r_x() && r.l_y() >= self.l_y() && r.r_y()
            <= self.r_y()
    }

    /// Checks if `r` lies inside `self` without touching its boundary.
    pub fn strictly_contains(&self, r: &Region) -> (b: bool)
        ensures
            b == self.has_region_strictly(*r),
    {
        r.l_x() > self.l_x() && r.r_x() < self.r_x() && r.l_y() > self.l_y() && r.r_y()
            < self.r_y()
    }

    /// Checks if the point `p` lies within `self`, boundary included.
    pub fn contains_point(&self, p: &Point) -> (b: bool)
        ensures
            b == self.has_point(*p),
    {
        p.x() >= self.l_x() && p.x() <= self.r_x() && p.y() >= self.l_y() && p.y() <= self.r_y()
    }

    /// The rightmost `x` coordinate of the region.
    pub fn r_x(&self) -> (r: Coordinate)
        ensures
            r == self.right_x(),
    {
        if self.0.x() > self.1.x() {
            self.0.x()
        } else {
            self.1.x()
        }
    }

    /// The leftmost `x` coordinate of the region.
    pub fn l_x(&self) -> (r: Coordinate)
        ensures
            r == self.left_x(),
    {
        if self.0.x() < self.1.x() {
            self.0.x()
        } else {
            self.1.x()
        }
    }

    /// The uppermost `y` coordinate of the region.
    pub fn r_y(&self) -> (r: Coordinate)
        ensures
            r == self.upper_y(),
    {
        if self.0.y() > self.1.y() {
            self.0.y()
        } else {
            self.1.y()
        }
    }

    /// The lowermost `y` coordinate of the region.
    pub fn l_y(&self) -> (r: Coordinate)
        ensures
            r == self.lower_y(),
    {
        if self.0.y() < self.1.y() {
            self.0.y()
        } else {
            self.1.y()
        }
    }

    /// The region bounded on the right by the vertical line at `x`, or `None`
    /// when the whole region lies to the right of that line.
    pub fn intersect_left_halfplane(&self, x: Coordinate) -> (r: Option<Region>)
        ensures
            r == self.left_part(x),
    {
        if x < self.l_x() {
            None
        } else {
            let right = if self.r_x() < x {
                self.r_x()
            } else {
                x
            };
            Some(Region::new(Point(self.l_x(), self.l_y()), Point(right, self.r_y())))
        }
    }

    /// The region bounded on the left by the vertical line at `x`, or `None`
    /// when the whole region lies to the left of that line.
    pub fn intersect_right_halfplane(&self, x: Coordinate) -> (r: Option<Region>)
        ensures
            r == self.right_part(x),
    {
        if x > self.r_x() {
            None
        } else {
            let left = if self.l_x() > x {
                self.l_x()
            } else {
                x
            };
            Some(Region::new(Point(left, self.l_y()), Point(self.r_x(), self.r_y())))
        }
    }

    /// The region bounded from below by the horizontal line at `y`, or `None`
    /// when the whole region lies below that line.
    pub fn intersect_upper_halfplane(&self, y: Coordinate) -> (r: Option<Region>)
        ensures
            r == self.upper_part(y),
    {
        if y > self.r_y() {
            None
        } else {
            let lower = if self.l_y() > y {
                self.l_y()
            } else {
                y
            };
            Some(Region::new(Point(self.l_x(), lower), Point(self.r_x(), self.r_y())))
        }
    }

    /// The region bounded from above by the horizontal line at `y`, or `None`
    /// when the whole region lies above that line.
    pub fn intersect_lower_halfplane(&self, y: Coordinate) -> (r: Option<Region>)
        ensures
            r == self.lower_part(y),
    {
        if y < self.l_y() {
            None
        } else {
            let upper = if self.r_y() < y {
                self.r_y()
            } else {
                y
            };
            Some(Region::new(Point(self.l_x(), self.l_y()), Point(self.r_x(), upper)))
        }
    }

    /// Checks whether a corner of either region lies in the other one.
    ///
    /// This is not a general overlap test: two rectangles that cross like a
    /// plus sign overlap with no corner inside the other. It is kept as it
    /// is because the kd-tree only asks it of a region and a part of that
    /// same region, where the corner test and the overlap test agree.
    pub fn intersects(&self, r: &Region) -> (b: bool)
        ensures
            b == self.corners_meet(*r),
    {
        let inner: [Point; 4] = [
            Point(r.l_x(), r.l_y()),
            Point(r.l_x(), r.r_y()),
            Point(r.r_x(), r.l_y()),
            Point(r.r_x(), r.r_y()),
        ];
        let outer: [Point; 4] = [
            Point(self.l_x(), self.l_y()),
            Point(self.l_x(), self.r_y()),
            Point(self.r_x(), self.l_y()),
            Point(self.r_x(), self.r_y()),
        ];
        let mut i: usize = 0;
        while i < 4
            invariant
                0 <= i <= 4,
                inner@ == seq![
                    Point(r.left_x(), r.lower_y()),
                    Point(r.left_x(), r.upper_y()),
                    Point(r.right_x(), r.lower_y()),
                    Point(r.right_x(), r.upper_y()),
                ],
                outer@ == seq![
                    Point(self.left_x(), self.lower_y()),
                    Point(self.left_x(), self.upper_y()),
                    Point(self.right_x(), self.lower_y()),
                    Point(self.right_x(), self.upper_y()),
                ],
                forall|j: int| 0 <= j < i ==> !self.has_point(#[trigger] inner@[j]),
                forall|j: int| 0 <= j < i ==> !r.has_point(#[trigger] outer@[j]),
            decreases 4 - i,
        {
            if self.contains_point(&inner[i]) {
                return true;
            }
            if r.contains_point(&outer[i]) {
                return true;
            }
            i = i + 1;
        }
        false
    }
}

/// The points of `m` that lie in `region`, with their multiplicities.
pub open spec fn in_region(region: Region, m: Multiset<Point>) -> Multiset<Point> {
    m.filter(|p: Point| region.has_point(p))
}

/// Selecting the points in a region distributes over the union of multisets.
pub proof fn lemma_in_region_add(region: Region, a: Multiset<Point>, b: Multiset<Point>)
    ensures
        in_region(region, a.add(b)) == in_region(region, a).add(in_region(region, b)),
{
}

/// A multiset with no point in `region` has nothing selected.
pub proof fn lemma_in_region_none(region: Region, m: Multiset<Point>)
    requires
        forall|p: Point| #[trigger] m.count(p) > 0 ==> !region.has_point(p),
    ensures
        in_region(region, m) == Multiset::<Point>::empty(),
{
}

/// A multiset with every point in `region` is selected whole.
pub proof fn lemma_in_region_all(region: Region, m: Multiset<Point>)
    requires
        forall|p: Point| #[trigger] m.count(p) > 0 ==> region.has_point(p),
    ensures
        in_region(region, m) == m,
{
}

/// Selecting from a single point keeps it exactly when it lies in `region`.
pub proof fn lemma_in_region_singleton(region: Region, p: Point)
    ensures
        in_region(region, Multiset::singleton(p)) == (if region.has_point(p) {
            Multiset::singleton(p)
        } else {
            Multiset::<Point>::empty()
        }),
{
}

/// The turn made at `p1` when walking from `p0` through `p1` to `p2`.
#[derive(Clone, Copy, PartialEq, Eq, Structural, Debug)]
pub enum Orientation {
    Left,
    Right,
    Straight,
}

/// The cross product `(p1 - p0) x (p2 - p0)`.
pub open spec fn cross(p0: Point, p1: Point, p2: Point) -> int {
    (p1.0 - p0.0) * (p2.1 - p0.1) - (p2.0 - p0.0) * (p1.1 - p0.1)
}

/// The turn at `p1` on the path `p0`, `p1`, `p2`, read off the sign of
/// `(p2 - p0) x (p1 - p0)`.
pub open spec fn turn(p0: Point, p1: Point, p2: Point) -> Orientation {
    let cp = cross(p0, p2, p1);
    if cp > 0 {
        Orientation::Right
    } else if cp < 0 {
        Orientation::Left
    } else {
        Orientation::Straight
    }
}

/// The product of two coordinate differences fits easily in an `i128`.
proof fn lemma_diff_product_bounds(a: int, b: int)
    requires
        -0x1_0000_0000 <= a <= 0x1_0000_0000,
        -0x1_0000_0000 <= b <= 0x1_0000_0000,
    ensures
        -0x1_0000_0000_0000_0000 <= a * b <= 0x1_0000_0000_0000_0000,
{
    assert(-0x1_0000_0000_0000_0000 <= a * b <= 0x1_0000_0000_0000_0000) by (nonlinear_arith)
        requires
            -0x1_0000_0000 <= a <= 0x1_0000_0000,
            -0x1_0000_0000 <= b <= 0x1_0000_0000,
    ;
}

/// Computes the cross product `(p1 - p0) x (p2 - p0)`, exactly.
pub fn cross_prod(p0: &Point, p1: &Point, p2: &Point) -> (r: i128)
    ensures
        r == cross(*p0, *p1, *p2),
{
    let ax = p1.x() as i128 - p0.x() as i128;
    let ay = p1.y() as i128 - p0.y() as i128;
    let bx = p2.x() as i128 - p0.x() as i128;
    let by = p2.y() as i128 - p0.y() as i128;
    proof {
        lemma_diff_product_bounds(ax as int, by as int);
        lemma_diff_product_bounds(bx as int, ay as int);
    }
    ax * by - bx * ay
}

/// Computes the turn made at `p1` when walking from `p0` through `p1` to
/// `p2`, using the cross-product method.
pub fn direction(p0: &Point, p1: &Point, p2: &Point) -> (r: Orientation)
    ensures
        r == turn(*p0, *p1, *p2),
{
    let cp = cross_prod(p0, p2, p1);
    if cp > 0 {
        Orientation::Right
    } else if cp < 0 {
        Orientation::Left
    } else {
        Orientation::Straight
    }
}

/// The squared euclidean distance between two points.
pub open spec fn dist_sq(p0: Point, p1: Point) -> int {
    (p0.0 - p1.0) * (p0.0 - p1.0) + (p0.1 - p1.1) * (p0.1 - p1.1)
}

/// Computes the squared euclidean distance between two points, exactly.
/// It orders pairs of points as their distance does.
pub fn squared_dist(p0: &Point, p1: &Point) -> (r: i128)
    ensures
        r == dist_sq(*p0, *p1),
{
    let dx = p0.x() as i128 - p1.x() as i128;
    let dy = p0.y() as i128 - p1.y() as i128;
    proof {
        lemma_diff_product_bounds(dx as int, dx as int);
        lemma_diff_product_bounds(dy as int, dy as int);
    }
    dx * dx + dy * dy
}

/// A line segment from a start point to an end point.
#[derive(Clone, Copy, PartialEq, Eq, Structural, Debug)]
pub struct LineSegment(pub Point, pub Point);

impl LineSegment {
    /// `p` lies in the bounding box of the segment.
    pub open spec fn boxes(self, p: Point) -> bool {
        &&& min_coord(self.0.0, self.1.0) <= p.0 <= max_coord(self.0.0, self.1.0)
        &&& min_coord(self.0.1, self.1.1) <= p.1 <= max_coord(self.0.1, self.1.1)
    }

    /// The minimum value across the x-axis.
    pub fn x_min(&self) -> (r: Coordinate)
        ensures
            r == min_coord(self.0.0, self.1.0),
    {
        if self.0.x() < self.1.x() {
            self.0.x()
        } else {
            self.1.x()
        }
    }

    /// The maximum value across the x-axis.
    pub fn x_max(&self) -> (r: Coordinate)
        ensures
            r == max_coord(self.0.0, self.1.0),
    {
        if self.0.x() > self.1.x() {
            self.0.x()
        } else {
            self.1.x()
        }
    }

    /// The minimum value across the y-axis.
    pub fn y_min(&self) -> (r: Coordinate)
        ensures
            r == min_coord(self.0.1, self.1.1),
    {
        if self.0.y() < self.1.y() {
            self.0.y()
        } else {
            self.1.y()
        }
    }

    /// The maximum value across the y-axis.
    pub fn y_max(&self) -> (r: Coordinate)
        ensures
            r == max_coord(self.0.1, self.1.1),
    {
        if self.0.y() > self.1.y() {
            self.0.y()
        } else {
            self.1.y()
        }
    }

    /// The first point of the segment.
    pub fn start(&self) -> (r: &Point)
        ensures
            *r == self.0,
    {
        &self.0
    }

    /// The terminating point of the segment.
    pub fn end(&self) -> (r: &Point)
        ensures
            *r == self.1,
    {
        &self.1
    }
}

/// Checks if `p` lies in the bounding box of `ls`: for a point known to be
/// collinear with the segment, whether it lies on the segment.
pub fn on_segment(ls: &LineSegment, p: &Point) -> (b: bool)
    ensures
        b == ls.boxes(*p),
{
    ls.x_min() <= p.x() && p.x() <= ls.x_max() && ls.y_min() <= p.y() && p.y() <= ls.y_max()
}

/// The segments `l0` and `l1` meet: each straddles the line through the
/// other, or an end point of one lies on the other.
pub open spec fn segments_meet(l0: LineSegment, l1: LineSegment) -> bool {
    let d1 = cross(l1.0, l1.1, l0.0);
    let d2 = cross(l1.0, l1.1, l0.1);
    let d3 = cross(l0.0, l0.1, l1.0);
    let d4 = cross(l0.0, l0.1, l1.1);
    ||| (((d1 > 0 && d2 < 0) || (d1 < 0 && d2 > 0)) && ((d3 > 0 && d4 < 0) || (d3 < 0 && d4 > 0)))
    ||| (d1 == 0 && l1.boxes(l0.0))
    ||| (d2 == 0 && l1.boxes(l0.1))
    ||| (d3 == 0 && l0.boxes(l1.0))
    ||| (d4 == 0 && l0.boxes(l1.1))
}

/// Checks if two line segments intersect, an end point of one lying on the
/// other included.
pub fn segments_intersect(l0: &LineSegment, l1: &LineSegment) -> (b: bool)
    ensures
        b == segments_meet(*l0, *l1),
{
    // does segment l0 straddle the line through l1?
    let d1 = cross_prod(l1.start(), l1.end(), l0.start());
    let d2 = cross_prod(l1.start(), l1.end(), l0.end());
    // does segment l1 straddle the line through l0?
    let d3 = cross_prod(l0.start(), l0.end(), l1.start());
    let d4 = cross_prod(l0.start(), l0.end(), l1.end());
    if ((d1 > 0 && d2 < 0) || (d1 < 0 && d2 > 0)) && ((d3 > 0 && d4 < 0) || (d3 < 0 && d4 > 0)) {
        true
    } else if d1 == 0 && on_segment(l1, &l0.0) {
        true
    } else if d2 == 0 && on_segment(l1, &l0.1) {
        true
    } else if d3 == 0 && on_segment(l0, &l1.0) {
        true
    } else if d4 == 0 && on_segment(l0, &l1.1) {
        true
    } else {
        false
    }
}

/// When `whole` starts with `prefix` and holds the points of `prefix` and of
/// `added`, the part after the prefix holds exactly `added`.
pub proof fn lemma_appended_tail(prefix: Seq<Point>, whole: Seq<Point>, added: Multiset<Point>)
    requires
        prefix.is_prefix_of(whole),
        whole.to_multiset() == prefix.to_multiset().add(added),
    ensures
        whole.subrange(prefix.len() as int, whole.len() as int).to_multiset() == added,
{
    let tail = whole.subrange(prefix.len() as int, whole.len() as int);
    assert(whole =~= prefix + tail);
    vstd::seq_lib::lemma_multiset_commutative(prefix, tail);
    assert(prefix.to_multiset().add(tail.to_multiset()) == prefix.to_multiset().add(added));
    assert forall|p: Point| #[trigger] tail.to_multiset().count(p) == added.count(p) by {
        assert(prefix.to_multiset().add(tail.to_multiset()).count(p) == prefix.to_multiset().add(
            added,
        ).count(p));
    }
    assert(tail.to_multiset() =~= added);
}

/// The smallest rectangle that holds every point of `points`.
pub(crate) fn bounding_box(points: &Vec<Point>) -> (r: Region)
    requires
        points@.len() >= 1,
    ensures
        forall|i: int| 0 <= i < points@.len() ==> r.has_point(#[trigger] points@[i]),
{
    let mut lo = points[0];
    let mut hi = points[0];
    let mut i: usize = 1;
    while i < points.len()
        invariant
            1 <= i <= points@.len(),
            lo.0 <= hi.0,
            lo.1 <= hi.1,
            forall|j: int|
                0 <= j < i ==> lo.0 <= (#[trigger] points@[j]).0 <= hi.0 && lo.1 <= points@[j].1
                    <= hi.1,
        decreases points@.len() - i,
    {
        let p = points[i];
        if p.x() < lo.x() {
            lo = Point(p.x(), lo.y());
        }
        if p.x() > hi.x() {
            hi = Point(p.x(), hi.y());
        }
        if p.y() < lo.y() {
            lo = Point(lo.x(), p.y());
        }
        if p.y() > hi.y() {
            hi = Point(hi.x(), p.y());
        }
        i = i + 1;
    }
    Region(lo, hi)
}

} // verus!
