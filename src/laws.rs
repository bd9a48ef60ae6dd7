//! Facts about range queries that relate several calls or hold of every
//! input. Both trees answer `range_query` with `in_region(region, tree@)`,
//! and `construct` gives `tree@ == points@.to_multiset()`; these lemmas are
//! stated over those terms.
use vstd::multiset::Multiset;
use vstd::prelude::*;
use crate::kd_tree::KdTree;
use crate::primitives::{in_region, lemma_in_region_all, lemma_in_region_none, Point, Region};
use crate::range_tree::RangeTree;

verus! {

broadcast use vstd::seq_lib::group_to_multiset_ensures;

/// A kd-tree and a range tree built from the same points answer every
/// region with the same multiset of points.
pub proof fn lemma_trees_agree(points: Seq<Point>, kd: KdTree, rt: RangeTree, region: Region)
    requires
        kd@ == points.to_multiset(),
        rt@ == points.to_multiset(),
    ensures
        in_region(region, kd@) == in_region(region, rt@),
{
}

/// A region that covers every input point returns all of them, each as
/// often as it was given.
pub proof fn lemma_covering_region_returns_all(points: Seq<Point>, region: Region)
    requires
        forall|i: int| 0 <= i < points.len() ==> region.has_point(#[trigger] points[i]),
    ensures
        in_region(region, points.to_multiset()) == points.to_multiset(),
{
    assert forall|p: Point| #[trigger] points.to_multiset().count(p) > 0 implies region.has_point(
        p,
    ) by {
        assert(points.contains(p));
    }
    lemma_in_region_all(region, points.to_multiset());
}

/// A region that holds none of the input points returns nothing.
pub proof fn lemma_disjoint_region_returns_nothing(points: Seq<Point>, region: Region)
    requires
        forall|i: int| 0 <= i < points.len() ==> !region.has_point(#[trigger] points[i]),
    ensures
        in_region(region, points.to_multiset()) == Multiset::<Point>::empty(),
{
    assert forall|p: Point| #[trigger] points.to_multiset().count(p) > 0 implies !region.has_point(
        p,
    ) by {
        assert(points.contains(p));
    }
    lemma_in_region_none(region, points.to_multiset());
}

/// Two answers to the same query on the same tree hold the same multiset
/// of points: a query depends only on the tree's points and the region.
pub proof fn lemma_query_repeatable(
    stored: Multiset<Point>,
    region: Region,
    first: Seq<Point>,
    second: Seq<Point>,
)
    requires
        first.to_multiset() == in_region(region, stored),
        second.to_multiset() == in_region(region, stored),
    ensures
        first.to_multiset() == second.to_multiset(),
{
}

/// A point on an edge or at a corner of a region belongs to it, and a
/// query returns it as often as it was given.
pub proof fn lemma_boundary_included(points: Seq<Point>, region: Region, p: Point)
    requires
        points.contains(p),
        ({
            ||| ((p.0 == region.left_x() || p.0 == region.right_x()) && region.lower_y() <= p.1
                <= region.upper_y())
            ||| ((p.1 == region.lower_y() || p.1 == region.upper_y()) && region.left_x() <= p.0
                <= region.right_x())
        }),
    ensures
        region.has_point(p),
        in_region(region, points.to_multiset()).count(p) == points.to_multiset().count(p),
        in_region(region, points.to_multiset()).count(p) > 0,
{
}

} // verus!
