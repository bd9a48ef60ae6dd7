//! Orders on points along one axis, and sorting by them.
use vstd::prelude::*;
use crate::primitives::{Coordinate, Point};

verus! {

/// One of the two coordinate axes.
#[derive(Clone, Copy, PartialEq, Eq, Structural, Debug)]
pub enum Axis {
    X,
    Y,
}

/// The axis that a tree level splits on: `x` at even depths, `y` at odd ones.
pub open spec fn axis_at(depth: nat) -> Axis {
    if depth % 2 == 0 {
        Axis::X
    } else {
        Axis::Y
    }
}

/// The coordinate of `p` on `axis`.
pub open spec fn coord_on(p: Point, axis: Axis) -> Coordinate {
    match axis {
        Axis::X => p.0,
        Axis::Y => p.1,
    }
}

/// The coordinate of `p` on the other axis, which breaks ties.
pub open spec fn tie_on(p: Point, axis: Axis) -> Coordinate {
    match axis {
        Axis::X => p.1,
        Axis::Y => p.0,
    }
}

/// `a` comes no later than `b` when points are ordered by their coordinate
/// on `axis`, ties broken by the other coordinate.
pub open spec fn precedes(a: Point, b: Point, axis: Axis) -> bool {
    ||| coord_on(a, axis) < coord_on(b, axis)
    ||| (coord_on(a, axis) == coord_on(b, axis) && tie_on(a, axis) <= tie_on(b, axis))
}

/// `s` is in ascending order along `axis`.
pub open spec fn sorted_along(s: Seq<Point>, axis: Axis) -> bool {
    forall|i: int, j: int| 0 <= i < j < s.len() ==> precedes(#[trigger] s[i], #[trigger] s[j], axis)
}

/// The sort key of `p` along `axis`: its coordinate on that axis, then the
/// other one. Tuples compare lexicographically, so keys order points as
/// `precedes` does.
pub(crate) fn sort_key(p: &Point, axis: Axis) -> (r: (Coordinate, Coordinate))
    ensures
        r == (coord_on(*p, axis), tie_on(*p, axis)),
{
    match axis {
        Axis::X => (p.0, p.1),
        Axis::Y => (p.1, p.0),
    }
}

/// Relies on `slice::sort_by_key`: it permutes the elements into ascending
/// order of their keys, and tuples of integers order lexicographically.
#[verifier::external_body]
pub(crate) fn sort_along(v: &mut Vec<Point>, axis: Axis)
    ensures
        final(v)@.to_multiset() == old(v)@.to_multiset(),
        sorted_along(final(v)@, axis),
{
    v.sort_by_key(|p| sort_key(p, axis));
}

/// In a sorted sequence, everything before index `m` comes no later than
/// `s[m]`, and everything from `m` on comes no earlier.
pub proof fn lemma_sorted_halves(s: Seq<Point>, m: int, axis: Axis)
    requires
        sorted_along(s, axis),
        0 <= m < s.len(),
    ensures
        forall|p: Point|
            #[trigger] s.subrange(0, m).to_multiset().count(p) > 0 ==> precedes(p, s[m], axis),
        forall|p: Point|
            #[trigger] s.subrange(m, s.len() as int).to_multiset().count(p) > 0 ==> precedes(
                s[m],
                p,
                axis,
            ),
        s.subrange(m, s.len() as int).to_multiset().count(s[m]) > 0,
{
    broadcast use vstd::seq_lib::group_to_multiset_ensures;

    assert forall|p: Point| #[trigger] s.subrange(0, m).to_multiset().count(p) > 0 implies precedes(
        p,
        s[m],
        axis,
    ) by {
        assert(s.subrange(0, m).contains(p));
    }
    assert forall|p: Point| #[trigger]
        s.subrange(m, s.len() as int).to_multiset().count(p) > 0 implies precedes(
        s[m],
        p,
        axis,
    ) by {
        assert(s.subrange(m, s.len() as int).contains(p));
    }
    assert(s.subrange(m, s.len() as int)[0] == s[m]);
}

/// A contiguous part of a sorted sequence is sorted.
pub proof fn lemma_sorted_subrange(s: Seq<Point>, lo: int, hi: int, axis: Axis)
    requires
        sorted_along(s, axis),
        0 <= lo <= hi <= s.len(),
    ensures
        sorted_along(s.subrange(lo, hi), axis),
{
    assert(forall|i: int, j: int|
        0 <= i < j < hi - lo ==> precedes(
            #[trigger] s.subrange(lo, hi)[i],
            #[trigger] s.subrange(lo, hi)[j],
            axis,
        ));
}

/// A copy of `points`, element by element.
pub(crate) fn copy_points(points: &Vec<Point>) -> (r: Vec<Point>)
    ensures
        r@ == points@,
{
    let mut r: Vec<Point> = Vec::new();
    let mut i: usize = 0;
    while i < points.len()
        invariant
            0 <= i <= points@.len(),
            r@ == points@.subrange(0, i as int),
        decreases points@.len() - i,
    {
        r.push(points[i]);
        i = i + 1;
    }
    r
}

/// The height of a tree built by halving `n` items until one is left,
/// the larger half of an odd count going right: `ceil(log2(n))`.
pub open spec fn halving_depth(n: nat) -> nat
    decreases n,
{
    if n <= 1 {
        0
    } else {
        1 + halving_depth(((n + 1) / 2) as nat)
    }
}

/// More items never take fewer halvings.
pub proof fn lemma_halving_depth_monotone(a: nat, b: nat)
    requires
        a <= b,
    ensures
        halving_depth(a) <= halving_depth(b),
    decreases b,
{
    if a > 1 {
        lemma_halving_depth_monotone(((a + 1) / 2) as nat, ((b + 1) / 2) as nat);
    }
}

} // verus!
