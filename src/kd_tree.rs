//! A two-dimensional kd-tree: a balanced binary tree whose levels split
//! alternately on `x` and on `y` at the median point.
use vstd::multiset::Multiset;
use vstd::prelude::*;
use crate::order::{
    axis_at, halving_depth, lemma_halving_depth_monotone, lemma_sorted_halves, precedes,
    sort_along, Axis,
};
use crate::primitives::{
    in_region, bounding_box, lemma_in_region_add, lemma_in_region_all, lemma_in_region_none,
    lemma_appended_tail, lemma_in_region_singleton, BuildError, Point, Region,
};

verus! {

broadcast use vstd::seq_lib::group_to_multiset_ensures;

/// A node of a kd-tree. A leaf holds one point of the tree's data. An
/// internal node has both children, and its `data` is only the median that
/// its split line passes through: it is never reported, because the same
/// point is also stored in a leaf of the right subtree.
pub struct Node {
    pub data: Point,
    pub left: Option<Box<Node>>,
    pub right: Option<Box<Node>>,
}

impl Node {
    pub open spec fn spec_is_leaf(self) -> bool {
        self.left is None && self.right is None
    }

    /// The points stored in the leaves below this node.
    pub open spec fn leaves(self) -> Multiset<Point>
        decreases self,
    {
        match self.left {
            Some(l) => match self.right {
                Some(r) => l.leaves().add(r.leaves()),
                None => l.leaves(),
            },
            None => match self.right {
                Some(r) => r.leaves(),
                None => Multiset::singleton(self.data),
            },
        }
    }

    /// The number of edges on the longest path down to a leaf.
    pub open spec fn height(self) -> nat
        decreases self,
    {
        let hl: nat = match self.left {
            Some(l) => 1 + l.height(),
            None => 0,
        };
        let hr: nat = match self.right {
            Some(r) => 1 + r.height(),
            None => 0,
        };
        if hl < hr {
            hr
        } else {
            hl
        }
    }

    /// The number of nodes in this subtree.
    pub open spec fn size(self) -> nat
        decreases self,
    {
        let sl: nat = match self.left {
            Some(l) => l.size(),
            None => 0,
        };
        let sr: nat = match self.right {
            Some(r) => r.size(),
            None => 0,
        };
        1 + sl + sr
    }

    /// Every internal node has two children, and splits its points in the
    /// order of its depth's axis, ties broken by the other coordinate: the
    /// left subtree comes no later than the median, the right subtree no
    /// earlier, and the median itself is a leaf of the right subtree.
    pub open spec fn well_split(self, depth: nat) -> bool
        decreases self,
    {
        match self.left {
            None => self.right is None,
            Some(l) => match self.right {
                None => false,
                Some(r) => {
                    &&& l.well_split(depth + 1)
                    &&& r.well_split(depth + 1)
                    &&& forall|p: Point| #[trigger]
                        l.leaves().count(p) > 0 ==> precedes(p, self.data, axis_at(depth))
                    &&& forall|p: Point| #[trigger]
                        r.leaves().count(p) > 0 ==> precedes(self.data, p, axis_at(depth))
                    &&& r.leaves().count(self.data) > 0
                },
            },
        }
    }

    /// Whether this node is a leaf, that is, stores a point of the data.
    pub fn is_leaf(&self) -> (b: bool)
        ensures
            b == self.spec_is_leaf(),
    {
        self.left.is_none() && self.right.is_none()
    }

    pub fn new(data: Point, left: Option<Box<Node>>, right: Option<Box<Node>>) -> (n: Node)
        ensures
            n.data == data,
            n.left == left,
            n.right == right,
    {
        Node { data: data, left: left, right: right }
    }
}

/// The points stored below the nodes of a stack of subtrees.
pub open spec fn stack_leaves(s: Seq<&Node>) -> Multiset<Point>
    decreases s.len(),
{
    if s.len() == 0 {
        Multiset::empty()
    } else {
        stack_leaves(s.drop_last()).add(s.last().leaves())
    }
}

/// The number of nodes in a stack of subtrees.
pub open spec fn stack_size(s: Seq<&Node>) -> nat
    decreases s.len(),
{
    if s.len() == 0 {
        0
    } else {
        stack_size(s.drop_last()) + s.last().size()
    }
}

/// Reports every leaf below `node`, walking the subtree with an explicit
/// stack, and appends the points to `result`.
fn report_subtree(node: &Node, result: Vec<Point>) -> (r: Vec<Point>)
    ensures
        r@.to_multiset() == result@.to_multiset().add(node.leaves()),
        result@.is_prefix_of(r@),
        r@.subrange(result@.len() as int, r@.len() as int).to_multiset() == node.leaves(),
{
    let ghost start = result@.to_multiset().add(node.leaves());
    let mut result = result;
    let ghost incoming = result@;
    let mut stack: Vec<&Node> = vec![node];
    assert(stack@ == seq![node]);
    assert(stack@.drop_last() =~= Seq::<&Node>::empty());
    assert(stack_leaves(stack@.drop_last()) == Multiset::<Point>::empty());
    assert(stack_leaves(stack@) =~= node.leaves());
    while stack.len() > 0
        invariant
            incoming.is_prefix_of(result@),
            result@.to_multiset().add(stack_leaves(stack@)) == start,
        decreases stack_size(stack@),
    {
        let ghost before = stack@;
        let n = stack.pop().unwrap();
        assert(before.drop_last() == stack@);
        let ghost below = stack@;
        let ghost rest = stack_leaves(below);
        let ghost done = result@.to_multiset();
        assert(stack_leaves(before) == rest.add(n.leaves()));
        assert(stack_size(before) == stack_size(below) + n.size());
        if n.is_leaf() {
            result.push(n.data);
            assert(result@.to_multiset().add(stack_leaves(stack@)) =~= done.add(
                rest.add(n.leaves()),
            ));
        } else {
            match &n.left {
                Some(left) => {
                    stack.push(left);
                    assert(stack@.drop_last() == below);
                    assert(stack_leaves(stack@) == rest.add(left.leaves()));
                    assert(stack_size(stack@) == stack_size(below) + left.size());
                },
                None => {},
            }
            let ghost mid = stack@;
            match &n.right {
                Some(right) => {
                    stack.push(right);
                    assert(stack@.drop_last() == mid);
                    assert(stack_leaves(stack@) == stack_leaves(mid).add(right.leaves()));
                    assert(stack_size(stack@) == stack_size(mid) + right.size());
                },
                None => {},
            }
            assert(result@.to_multiset().add(stack_leaves(stack@)) =~= done.add(
                rest.add(n.leaves()),
            ));
        }
    }
    assert(stack@ =~= Seq::<&Node>::empty());
    assert(result@.to_multiset() =~= start);
    proof {
        assert(result@.to_multiset() =~= incoming.to_multiset().add(node.leaves()));
        lemma_appended_tail(incoming, result@, node.leaves());
    }
    result
}

/// A kd-tree over a fixed, non-empty multiset of points.
pub struct KdTree {
    root: Node,
    /// The smallest rectangle that holds every point of the tree.
    bounds: Region,
}

impl View for KdTree {
    type V = Multiset<Point>;

    /// The points the tree was built from.
    closed spec fn view(&self) -> Multiset<Point> {
        self.root.leaves()
    }
}

impl KdTree {
    /// The number of edges on the longest path from the root to a leaf.
    pub closed spec fn height(&self) -> nat {
        self.root.height()
    }

    /// The tree's invariant: its levels split alternately on `x` and `y`,
    /// starting with `x` at the root, and it is shallow enough that a depth
    /// counter never overflows.
    pub closed spec fn wf(&self) -> bool {
        &&& self.root.well_split(0)
        &&& self.root.height() <= usize::MAX
        &&& forall|p: Point| #[trigger] self.root.leaves().count(p) > 0 ==> self.bounds.has_point(p)
    }

    /// Builds a kd-tree for `points`. Fails exactly when there are none.
    pub fn construct(points: Vec<Point>) -> (r: Result<KdTree, BuildError>)
        ensures
            points@.len() == 0 <==> r is Err,
            r is Err ==> r == Err::<KdTree, BuildError>(BuildError::EmptyInput),
            r matches Ok(t) ==> t.wf() && t@ == points@.to_multiset(),
            r matches Ok(t) ==> t.height() <= halving_depth(points@.len()),
    {
        if points.len() == 0 {
            Err(BuildError::EmptyInput)
        } else {
            let bounds = bounding_box(&points);
            let root = Self::build(points, 0);
            assert forall|p: Point| #[trigger] root.leaves().count(p) > 0 implies bounds.has_point(
                p,
            ) by {
                assert(points@.contains(p));
            }
            Ok(KdTree { root: root, bounds: bounds })
        }
    }

    /// Builds the subtree at `depth` over `points`: a leaf for one point;
    /// otherwise the points are sorted along the depth's axis and split at
    /// the median index, the median going to the right half.
    fn build(points: Vec<Point>, depth: usize) -> (node: Node)
        requires
            points@.len() >= 1,
            depth + points@.len() <= usize::MAX,
        ensures
            node.leaves() == points@.to_multiset(),
            node.well_split(depth as nat),
            node.height() <= halving_depth(points@.len()),
            node.height() < points@.len(),
            points@.len() >= 2 ==> ({
                &&& node.left matches Some(l) && l.leaves().len() == points@.len() / 2
                &&& node.right matches Some(r) && r.leaves().len() == points@.len() - points@.len()
                    / 2
            }),
        decreases points@.len(),
    {
        if points.len() == 1 {
            assert(points@ =~= seq![points@[0]]);
            assert(seq![points@[0]].to_multiset() =~= Multiset::singleton(points@[0]));
            Node::new(points[0], None, None)
        } else {
            let axis = if depth % 2 == 0 {
                Axis::X
            } else {
                Axis::Y
            };
            let mut ordering = points;
            sort_along(&mut ordering, axis);
            let ghost sorted = ordering@;
            assert(points@.len() == points@.to_multiset().len());
            let mid = ordering.len() / 2;
            let median = ordering[mid];
            let right = ordering.split_off(mid);
            let left = ordering;
            proof {
                lemma_sorted_halves(sorted, mid as int, axis);
                assert(sorted =~= left@ + right@);
                vstd::seq_lib::lemma_multiset_commutative(left@, right@);
            }
            let left_child = Self::build(left, depth + 1);
            let right_child = Self::build(right, depth + 1);
            proof {
                lemma_halving_depth_monotone(left@.len(), right@.len());
            }
            let node = Node::new(median, Some(Box::new(left_child)), Some(Box::new(right_child)));
            node
        }
    }

    /// All points of the tree that lie in the closed rectangle `region`,
    /// boundary included, each as often as it was given.
    pub fn range_query(&self, region: &Region) -> (r: Vec<Point>)
        requires
            self.wf(),
        ensures
            r@.to_multiset() == in_region(*region, self@),
    {
        Self::search_tree(region, &self.root, Vec::new(), 0, self.bounds)
    }

    /// Appends to `result` the points below `node`, a node at `depth` whose
    /// points all lie in the rectangle `cell`, that lie in `region`.
    ///
    /// Each child's cell is `cell` clipped by the half-plane on its side of
    /// the split line. A child whose cell is empty holds no point. A child
    /// whose cell the region strictly contains is a canonical subtree and
    /// is reported whole. Otherwise the region is clipped by the same
    /// half-plane: the child is skipped when nothing is left, and searched
    /// when the remaining part meets the region.
    fn search_tree(
        region: &Region,
        node: &Node,
        result: Vec<Point>,
        depth: usize,
        cell: Region,
    ) -> (r: Vec<Point>)
        requires
            node.well_split(depth as nat),
            depth + node.height() <= usize::MAX,
            forall|p: Point| #[trigger] node.leaves().count(p) > 0 ==> cell.has_point(p),
        ensures
            r@.to_multiset() == result@.to_multiset().add(in_region(*region, node.leaves())),
            result@.is_prefix_of(r@),
            r@.subrange(result@.len() as int, r@.len() as int).to_multiset() == in_region(
                *region,
                node.leaves(),
            ),
        decreases node,
    {
        let mut result = result;
        let ghost incoming = result@;
        if node.is_leaf() {
            proof {
                lemma_in_region_singleton(*region, node.data);
            }
            if region.contains_point(&node.data) {
                result.push(node.data);
            }
            proof {
                assert(result@.to_multiset() =~= incoming.to_multiset().add(
                    in_region(*region, node.leaves()),
                ));
                lemma_appended_tail(incoming, result@, in_region(*region, node.leaves()));
            }
            return result;
        }
        let lc = node.left.as_ref().unwrap();
        let rc = node.right.as_ref().unwrap();
        proof {
            lemma_in_region_add(*region, lc.leaves(), rc.leaves());
            assert(forall|p: Point|
                #![trigger lc.leaves().count(p)]
                #![trigger rc.leaves().count(p)]
                node.leaves().count(p) == lc.leaves().count(p) + rc.leaves().count(p));
        }
        let (near_cell, far_cell, near, far) = if depth % 2 == 0 {
            (
                cell.intersect_left_halfplane(node.data.x()),
                cell.intersect_right_halfplane(node.data.x()),
                region.intersect_left_halfplane(node.data.x()),
                region.intersect_right_halfplane(node.data.x()),
            )
        } else {
            (
                cell.intersect_lower_halfplane(node.data.y()),
                cell.intersect_upper_halfplane(node.data.y()),
                region.intersect_lower_halfplane(node.data.y()),
                region.intersect_upper_halfplane(node.data.y()),
            )
        };
        match near_cell {
            Some(child_cell) => {
                if region.strictly_contains(&child_cell) {
                    proof {
                        lemma_in_region_all(*region, lc.leaves());
                    }
                    result = report_subtree(lc, result);
                } else {
                    match near {
                        Some(part) => {
                            if region.intersects(&part) {
                                result = Self::search_tree(
                                    region,
                                    lc,
                                    result,
                                    depth + 1,
                                    child_cell,
                                );
                            }
                        },
                        None => {
                            proof {
                                lemma_in_region_none(*region, lc.leaves());
                            }
                        },
                    }
                }
            },
            None => {
                proof {
                    lemma_in_region_none(*region, lc.leaves());
                }
            },
        }
        match far_cell {
            Some(child_cell) => {
                if region.strictly_contains(&child_cell) {
                    proof {
                        lemma_in_region_all(*region, rc.leaves());
                    }
                    result = report_subtree(rc, result);
                } else {
                    match far {
                        Some(part) => {
                            if region.intersects(&part) {
                                result = Self::search_tree(
                                    region,
                                    rc,
                                    result,
                                    depth + 1,
                                    child_cell,
                                );
                            }
                        },
                        None => {
                            proof {
                                lemma_in_region_none(*region, rc.leaves());
                            }
                        },
                    }
                }
            },
            None => {
                proof {
                    lemma_in_region_none(*region, rc.leaves());
                }
            },
        }
        proof {
            assert(result@.to_multiset() =~= incoming.to_multiset().add(
                in_region(*region, node.leaves()),
            ));
            lemma_appended_tail(incoming, result@, in_region(*region, node.leaves()));
        }
        result
    }
}

} // verus!
