//! The staircase of a point set: its maximal points, seen from the upper
//! right.
use vstd::prelude::*;
use crate::order::{copy_points, sort_along, sorted_along, precedes, Axis};
use crate::primitives::Point;

verus! {

broadcast use vstd::seq_lib::group_to_multiset_ensures;

/// No point of `points` lies strictly to the right of `p` at or above its
/// height: `p` is on the staircase of `points`.
pub open spec fn unshadowed(points: Seq<Point>, p: Point) -> bool {
    forall|j: int| 0 <= j < points.len() && (#[trigger] points[j]).0 > p.0 ==> points[j].1 < p.1
}

/// Computes the staircase of `points`, from left to right.
///
/// The points are visited by decreasing `x`, and by increasing `y` among
/// equal `x`; a point is kept when it lies above every point visited
/// before it.
pub fn staircase(points: &Vec<Point>) -> (stairs: Vec<Point>)
    requires
        points@.len() >= 1,
    ensures
        stairs@.len() >= 1,
        forall|t: int| 0 <= t < stairs@.len() ==> points@.contains(#[trigger] stairs@[t]),
        forall|t: int| 0 <= t < stairs@.len() ==> unshadowed(points@, #[trigger] stairs@[t]),
        forall|i: int, j: int|
            0 <= i < j < stairs@.len() ==> (#[trigger] stairs@[i]).0 <= (#[trigger] stairs@[j]).0
                && stairs@[i].1 > stairs@[j].1,
        forall|j: int|
            0 <= j < points@.len() && unshadowed(points@, #[trigger] points@[j])
                ==> stairs@.contains(points@[j]),
{
    let mut s = copy_points(points);
    sort_along(&mut s, Axis::X);
    assert(points@.len() == points@.to_multiset().len());
    let n = s.len();
    // points kept so far, from right to left
    let mut kept: Vec<Point> = Vec::new();
    // the height of the highest point visited so far
    let mut floor: i64 = i64::MIN;
    let mut end: usize = n;
    while end > 0
        invariant
            n == s@.len(),
            n >= 1,
            sorted_along(s@, Axis::X),
            0 <= end <= n,
            end == n ==> kept@.len() == 0,
            end < n ==> kept@.len() >= 1,
            kept@.len() == 0 ==> floor == i64::MIN,
            forall|j: int| end <= j < n ==> (#[trigger] s@[j]).1 <= floor,
            forall|t: int| 0 <= t < kept@.len() ==> s@.contains(#[trigger] kept@[t]),
            forall|t: int| 0 <= t < kept@.len() ==> unshadowed(s@, #[trigger] kept@[t]),
            kept@.len() > 0 ==> floor == kept@.last().1,
            forall|a: int, b: int|
                0 <= a < b < kept@.len() ==> (#[trigger] kept@[a]).0 >= (#[trigger] kept@[b]).0
                    && kept@[a].1 < kept@[b].1,
            forall|t: int, j: int|
                0 <= t < kept@.len() && 0 <= j < end ==> (#[trigger] s@[j]).0 < (
                #[trigger] kept@[t]).0,
            forall|j: int|
                end <= j < n && unshadowed(s@, #[trigger] s@[j]) ==> kept@.contains(s@[j]),
        decreases end,
    {
        // the points sharing the largest `x` not visited yet: s[start..end]
        let mut start: usize = end - 1;
        while start > 0 && s[start - 1].x() == s[end - 1].x()
            invariant
                0 <= start < end <= n,
                n == s@.len(),
                forall|j: int| start <= j < end ==> (#[trigger] s@[j]).0 == s@[end - 1].0,
            decreases start,
        {
            start = start - 1;
        }
        // every point before the group lies strictly left of it
        assert(forall|j: int| 0 <= j < start ==> (#[trigger] s@[j]).0 < s@[end - 1].0);
        let mut k: usize = start;
        while k < end
            invariant
                0 <= start <= k <= end <= n,
                n == s@.len(),
                n >= 1,
                sorted_along(s@, Axis::X),
                forall|j: int| start <= j < end ==> (#[trigger] s@[j]).0 == s@[end - 1].0,
                forall|j: int| 0 <= j < start ==> (#[trigger] s@[j]).0 < s@[end - 1].0,
                end == n && k == start ==> kept@.len() == 0,
                end < n || k > start ==> kept@.len() >= 1,
                kept@.len() == 0 ==> floor == i64::MIN,
                forall|j: int| end <= j < n ==> (#[trigger] s@[j]).1 <= floor,
                forall|j: int| start <= j < k ==> (#[trigger] s@[j]).1 <= floor,
                forall|t: int| 0 <= t < kept@.len() ==> s@.contains(#[trigger] kept@[t]),
                forall|t: int| 0 <= t < kept@.len() ==> unshadowed(s@, #[trigger] kept@[t]),
                kept@.len() > 0 ==> floor == kept@.last().1,
                forall|a: int, b: int|
                    0 <= a < b < kept@.len() ==> (#[trigger] kept@[a]).0 >= (#[trigger] kept@[b]).0
                        && kept@[a].1 < kept@[b].1,
                forall|t: int, j: int|
                    0 <= t < kept@.len() && 0 <= j < end ==> (#[trigger] s@[j]).0 <= (
                    #[trigger] kept@[t]).0,
                forall|t: int, j: int|
                    0 <= t < kept@.len() && 0 <= j < start ==> (#[trigger] s@[j]).0 < (
                    #[trigger] kept@[t]).0,
                k < end ==> forall|t: int|
                    0 <= t < kept@.len() && (#[trigger] kept@[t]).0 == s@[end - 1].0 ==> kept@[t].1
                        <= s@[k as int].1,
                forall|j: int|
                    (end <= j < n || start <= j < k) && unshadowed(s@, #[trigger] s@[j])
                        ==> kept@.contains(s@[j]),
            decreases end - k,
        {
            let p = s[k];
            let ghost old_kept = kept@;
            if p.y() as i64 > floor {
                assert(forall|j: int| 0 <= j < n && (#[trigger] s@[j]).0 > p.0 ==> s@[j].1 < p.1);
                kept.push(p);
                floor = p.y() as i64;
            }
            proof {
                assert forall|j: int|
                    (end <= j < n || start <= j <= k) && unshadowed(s@, #[trigger] s@[j])
                    implies kept@.contains(s@[j]) by {
                    if j != k {
                        let t = choose|t: int| 0 <= t < old_kept.len() && old_kept[t] == s@[j];
                        assert(kept@[t] == s@[j]);
                    } else if kept@.len() > old_kept.len() {
                        assert(kept@[kept@.len() - 1] == s@[j]);
                    } else {
                        // the last kept point is at least as high as p, so it is p itself
                        let q = old_kept.last();
                        assert(old_kept[old_kept.len() - 1] == q);
                        let i = choose|i: int| 0 <= i < n && s@[i] == q;
                        assert(s@[end - 1].0 <= q.0);
                        assert(q == p);
                    }
                }
                if k + 1 < end {
                    assert(precedes(s@[k as int], s@[k + 1], Axis::X));
                }
            }
            k = k + 1;
        }
        end = start;
    }
    // reverse the kept points to list them from left to right
    let mut stairs: Vec<Point> = Vec::new();
    let mut t: usize = kept.len();
    while t > 0
        invariant
            0 <= t <= kept@.len(),
            stairs@.len() == kept@.len() - t,
            forall|i: int|
                0 <= i < stairs@.len() ==> #[trigger] stairs@[i] == kept@[kept@.len() - 1 - i],
        decreases t,
    {
        t = t - 1;
        stairs.push(kept[t]);
    }
    assert forall|i: int, j: int| 0 <= i < j < stairs@.len() implies (#[trigger] stairs@[i]).0
        <= (#[trigger] stairs@[j]).0 && stairs@[i].1 > stairs@[j].1 by {
        assert(stairs@[i] == kept@[kept@.len() - 1 - i]);
        assert(stairs@[j] == kept@[kept@.len() - 1 - j]);
    }
    assert forall|t: int| 0 <= t < stairs@.len() implies points@.contains(#[trigger] stairs@[t])
        && unshadowed(points@, stairs@[t]) by {
        let q = stairs@[t];
        assert(s@.to_multiset().count(q) > 0);
        assert forall|j: int|
            0 <= j < points@.len() && (#[trigger] points@[j]).0 > q.0 implies points@[j].1 < q.1 by {
            assert(points@.to_multiset().count(points@[j]) > 0);
        }
    }
    assert forall|j: int|
        0 <= j < points@.len() && unshadowed(points@, #[trigger] points@[j])
        implies stairs@.contains(points@[j]) by {
        let p = points@[j];
        assert(points@.to_multiset().count(p) > 0);
        let i = choose|i: int| 0 <= i < n && s@[i] == p;
        assert forall|m: int| 0 <= m < n && (#[trigger] s@[m]).0 > p.0 implies s@[m].1 < p.1 by {
            assert(s@.to_multiset().count(s@[m]) > 0);
            let m2 = choose|m2: int| 0 <= m2 < points@.len() && points@[m2] == s@[m];
        }
        assert(kept@.contains(p));
        let t = choose|t: int| 0 <= t < kept@.len() && kept@[t] == p;
        assert(stairs@[kept@.len() - 1 - t] == kept@[t]);
    }
    stairs
}

} // verus!
