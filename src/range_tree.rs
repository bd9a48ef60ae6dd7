//! A two-level range tree: a balanced search tree on `x` whose every node
//! owns a balanced search tree on `y` over the points below it.
use vstd::multiset::Multiset;
use vstd::prelude::*;
use crate::order::{
    copy_points, precedes, halving_depth, lemma_halving_depth_monotone, lemma_sorted_halves,
    lemma_sorted_subrange, sort_along, sorted_along, Axis,
};
use crate::primitives::{
    in_region, lemma_in_region_add, lemma_in_region_all, lemma_in_region_none,
    lemma_appended_tail, lemma_in_region_singleton, BuildError, Coordinate, Point, Region,
};

verus! {

broadcast use vstd::seq_lib::group_to_multiset_ensures;

/// A node of the main tree or of an associated tree. A leaf holds one point
/// of the data; an internal node has both children, and its `data` is only
/// the median that separates them, also stored in a leaf on the right. A
/// node of the main tree owns, in `assoc`, the associated tree over its own
/// points ordered by `y`; nodes of associated trees own none.
pub struct Node {
    pub data: Point,
    pub assoc: Option<Box<Node>>,
    pub left: Option<Box<Node>>,
    pub right: Option<Box<Node>>,
}

impl Node {
    pub open spec fn spec_is_leaf(self) -> bool {
        self.left is None && self.right is None
    }

    /// The points stored in the leaves below this node.
    pub open spec fn leaves(self) -> Multiset<Point>
        decreases self,
    {
        match self.left {
            Some(l) => match self.right {
                Some(r) => l.leaves().add(r.leaves()),
                None => l.leaves(),
            },
            None => match self.right {
                Some(r) => r.leaves(),
                None => Multiset::singleton(self.data),
            },
        }
    }

    /// The number of edges on the longest path down to a leaf, not counting
    /// associated trees.
    pub open spec fn height(self) -> nat
        decreases self,
    {
        let hl: nat = match self.left {
            Some(l) => 1 + l.height(),
            None => 0,
        };
        let hr: nat = match self.right {
            Some(r) => 1 + r.height(),
            None => 0,
        };
        if hl < hr {
            hr
        } else {
            hl
        }
    }

    /// The points stored in the leaves below this node, from left to right.
    pub open spec fn leaf_seq(self) -> Seq<Point>
        decreases self,
    {
        match self.left {
            Some(l) => match self.right {
                Some(r) => l.leaf_seq() + r.leaf_seq(),
                None => l.leaf_seq(),
            },
            None => match self.right {
                Some(r) => r.leaf_seq(),
                None => seq![self.data],
            },
        }
    }

    /// `d` is this node or a node below it, not counting associated trees.
    pub open spec fn has_descendant(self, d: Node) -> bool
        decreases self,
    {
        ||| self == d
        ||| (match self.left {
            Some(l) => l.has_descendant(d),
            None => false,
        })
        ||| (match self.right {
            Some(r) => r.has_descendant(d),
            None => false,
        })
    }

    /// A child of a node below `self` is below `self` too.
    pub proof fn lemma_descendant_child(self, v: Node, c: Node)
        requires
            self.has_descendant(v),
            (v.left matches Some(b) && *b == c) || (v.right matches Some(b) && *b == c),
        ensures
            self.has_descendant(c),
        decreases self,
    {
        if self != v {
            match self.left {
                Some(l) => {
                    if l.has_descendant(v) {
                        l.lemma_descendant_child(v, c);
                    }
                },
                None => {},
            }
            match self.right {
                Some(r) => {
                    if r.has_descendant(v) {
                        r.lemma_descendant_child(v, c);
                    }
                },
                None => {},
            }
        } else {
            match self.left {
                Some(l) => {
                    assert(l.has_descendant(*l));
                },
                None => {},
            }
            match self.right {
                Some(r) => {
                    assert(r.has_descendant(*r));
                },
                None => {},
            }
        }
    }

    /// The number of nodes in this subtree, not counting associated trees.
    pub open spec fn size(self) -> nat
        decreases self,
    {
        let sl: nat = match self.left {
            Some(l) => l.size(),
            None => 0,
        };
        let sr: nat = match self.right {
            Some(r) => r.size(),
            None => 0,
        };
        1 + sl + sr
    }

    /// A search tree in the order along `axis`, ties broken by the other
    /// coordinate: every internal node has two children, the left subtree
    /// comes no later than the node's median and the right subtree no
    /// earlier, and the median itself is a leaf of the right subtree.
    pub open spec fn ordered_on(self, axis: Axis) -> bool
        decreases self,
    {
        match self.left {
            None => self.right is None,
            Some(l) => match self.right {
                None => false,
                Some(r) => {
                    &&& l.ordered_on(axis)
                    &&& r.ordered_on(axis)
                    &&& forall|p: Point| #[trigger]
                        l.leaves().count(p) > 0 ==> precedes(p, self.data, axis)
                    &&& forall|p: Point| #[trigger]
                        r.leaves().count(p) > 0 ==> precedes(self.data, p, axis)
                    &&& r.leaves().count(self.data) > 0
                },
            },
        }
    }

    /// No node below this one, itself included, owns an associated tree.
    pub open spec fn last_dimension(self) -> bool
        decreases self,
    {
        &&& self.assoc is None
        &&& (match self.left {
            Some(l) => l.last_dimension(),
            None => true,
        })
        &&& (match self.right {
            Some(r) => r.last_dimension(),
            None => true,
        })
    }

    /// An associated tree: a search tree on `y` with no further level.
    pub open spec fn assoc_wf(self) -> bool {
        self.ordered_on(Axis::Y) && self.last_dimension()
    }

    /// A main tree: a search tree on `x`, ties broken by `y`, in which every
    /// node owns an associated tree over exactly its own points, whose
    /// leaves run in order of `y`, ties broken by `x`.
    pub open spec fn main_wf(self) -> bool
        decreases self,
    {
        &&& (match self.assoc {
            Some(a) => {
                &&& a.assoc_wf()
                &&& a.leaves() == self.leaves()
                &&& sorted_along(a.leaf_seq(), Axis::Y)
            },
            None => false,
        })
        &&& (match self.left {
            None => self.right is None,
            Some(l) => match self.right {
                None => false,
                Some(r) => {
                    &&& l.main_wf()
                    &&& r.main_wf()
                    &&& forall|p: Point| #[trigger]
                        l.leaves().count(p) > 0 ==> precedes(p, self.data, Axis::X)
                    &&& forall|p: Point| #[trigger]
                        r.leaves().count(p) > 0 ==> precedes(self.data, p, Axis::X)
                    &&& r.leaves().count(self.data) > 0
                },
            },
        })
    }

    /// Whether this node is a leaf, that is, stores a point of the data.
    pub fn is_leaf(&self) -> (b: bool)
        ensures
            b == self.spec_is_leaf(),
    {
        self.left.is_none() && self.right.is_none()
    }

    /// Whether this node owns no associated tree.
    pub fn is_last_dimension(&self) -> (b: bool)
        ensures
            b == (self.assoc is None),
    {
        self.assoc.is_none()
    }

    /// The associated tree that this node owns, if any.
    pub fn next_dimension(&self) -> (r: &Option<Box<Node>>)
        ensures
            *r == self.assoc,
    {
        &self.assoc
    }

    pub fn new(
        data: Point,
        left: Option<Box<Node>>,
        right: Option<Box<Node>>,
        assoc: Option<Box<Node>>,
    ) -> (n: Node)
        ensures
            n.data == data,
            n.left == left,
            n.right == right,
            n.assoc == assoc,
    {
        Node { data: data, assoc: assoc, left: left, right: right }
    }
}

/// The points stored below the nodes of a stack of subtrees.
pub open spec fn stack_leaves(s: Seq<&Node>) -> Multiset<Point>
    decreases s.len(),
{
    if s.len() == 0 {
        Multiset::empty()
    } else {
        stack_leaves(s.drop_last()).add(s.last().leaves())
    }
}

/// The number of nodes in a stack of subtrees.
pub open spec fn stack_size(s: Seq<&Node>) -> nat
    decreases s.len(),
{
    if s.len() == 0 {
        0
    } else {
        stack_size(s.drop_last()) + s.last().size()
    }
}

/// Reports every leaf below `node`, walking the subtree with an explicit
/// stack, and appends the points to `result`.
fn report_subtree(node: &Node, result: Vec<Point>) -> (r: Vec<Point>)
    ensures
        r@.to_multiset() == result@.to_multiset().add(node.leaves()),
        result@.is_prefix_of(r@),
        r@.subrange(result@.len() as int, r@.len() as int).to_multiset() == node.leaves(),
{
    let ghost start = result@.to_multiset().add(node.leaves());
    let mut result = result;
    let ghost incoming = result@;
    let mut stack: Vec<&Node> = vec![node];
    assert(stack@ == seq![node]);
    assert(stack@.drop_last() =~= Seq::<&Node>::empty());
    assert(stack_leaves(stack@.drop_last()) == Multiset::<Point>::empty());
    assert(stack_leaves(stack@) =~= node.leaves());
    while stack.len() > 0
        invariant
            incoming.is_prefix_of(result@),
            result@.to_multiset().add(stack_leaves(stack@)) == start,
        decreases stack_size(stack@),
    {
        let ghost before = stack@;
        let n = stack.pop().unwrap();
        assert(before.drop_last() == stack@);
        let ghost below = stack@;
        let ghost rest = stack_leaves(below);
        let ghost done = result@.to_multiset();
        assert(stack_leaves(before) == rest.add(n.leaves()));
        assert(stack_size(before) == stack_size(below) + n.size());
        if n.is_leaf() {
            result.push(n.data);
            assert(result@.to_multiset().add(stack_leaves(stack@)) =~= done.add(
                rest.add(n.leaves()),
            ));
        } else {
            match &n.left {
                Some(left) => {
                    stack.push(left);
                    assert(stack@.drop_last() == below);
                    assert(stack_leaves(stack@) == rest.add(left.leaves()));
                    assert(stack_size(stack@) == stack_size(below) + left.size());
                },
                None => {},
            }
            let ghost mid = stack@;
            match &n.right {
                Some(right) => {
                    stack.push(right);
                    assert(stack@.drop_last() == mid);
                    assert(stack_leaves(stack@) == stack_leaves(mid).add(right.leaves()));
                    assert(stack_size(stack@) == stack_size(mid) + right.size());
                },
                None => {},
            }
            assert(result@.to_multiset().add(stack_leaves(stack@)) =~= done.add(
                rest.add(n.leaves()),
            ));
        }
    }
    assert(stack@ =~= Seq::<&Node>::empty());
    assert(result@.to_multiset() =~= start);
    proof {
        assert(result@.to_multiset() =~= incoming.to_multiset().add(node.leaves()));
        lemma_appended_tail(incoming, result@, node.leaves());
    }
    result
}

/// A two-level range tree over a fixed, non-empty multiset of points.
pub struct RangeTree {
    root: Node,
}

impl View for RangeTree {
    type V = Multiset<Point>;

    /// The points the tree was built from.
    closed spec fn view(&self) -> Multiset<Point> {
        self.root.leaves()
    }
}

impl RangeTree {
    /// The number of edges on the longest path from the root of the main
    /// tree to a leaf.
    pub closed spec fn height(&self) -> nat {
        self.root.height()
    }

    /// The tree's invariant: a main tree on `x` with an associated tree on
    /// `y` at every node.
    pub closed spec fn wf(&self) -> bool {
        self.root.main_wf()
    }

    /// Builds a range tree for `points`. Fails exactly when there are none.
    pub fn construct(points: Vec<Point>) -> (r: Result<RangeTree, BuildError>)
        ensures
            points@.len() == 0 <==> r is Err,
            r is Err ==> r == Err::<RangeTree, BuildError>(BuildError::EmptyInput),
            r matches Ok(t) ==> t.wf() && t@ == points@.to_multiset(),
            r matches Ok(t) ==> t.height() <= halving_depth(points@.len()),
    {
        if points.len() == 0 {
            return Err(BuildError::EmptyInput);
        }
        let mut x_sorted = points;
        sort_along(&mut x_sorted, Axis::X);
        assert(x_sorted@.len() == x_sorted@.to_multiset().len());
        Ok(RangeTree { root: Self::build_main_struct(x_sorted) })
    }

    /// Builds the main tree over `points`, sorted by `x`. Every node gets the
    /// associated tree over its own points, sorted anew by `y`; then the
    /// points are split at the median index, the median going right.
    ///
    /// Sorting anew at every level costs O(n log^2 n) in all; merging the
    /// children's `y` orders bottom-up would bring that to O(n log n).
    #[verifier::rlimit(40)]
    fn build_main_struct(points: Vec<Point>) -> (node: Node)
        requires
            points@.len() >= 1,
            sorted_along(points@, Axis::X),
        ensures
            node.leaves() == points@.to_multiset(),
            node.main_wf(),
            node.height() <= halving_depth(points@.len()),
            node.leaf_seq() == points@,
            points@.len() >= 2 ==> ({
                &&& node.data == points@[(points@.len() / 2) as int]
                &&& node.left matches Some(l) && l.leaf_seq() == points@.subrange(
                    0,
                    (points@.len() / 2) as int,
                )
                &&& node.right matches Some(r) && r.leaf_seq() == points@.subrange(
                    (points@.len() / 2) as int,
                    points@.len() as int,
                )
            }),
        decreases points@.len(),
    {
        let mut y_sorted = copy_points(&points);
        sort_along(&mut y_sorted, Axis::Y);
        assert(y_sorted@.len() == y_sorted@.to_multiset().len());
        let t_assoc = Self::build_assoc_struct(y_sorted);
        if points.len() == 1 {
            assert(points@ =~= seq![points@[0]]);
            assert(seq![points@[0]].to_multiset() =~= Multiset::singleton(points@[0]));
            Node::new(points[0], None, None, Some(Box::new(t_assoc)))
        } else {
            let ghost sorted = points@;
            let mut points = points;
            let mid = points.len() / 2;
            let middle = points[mid];
            let right = points.split_off(mid);
            let left = points;
            proof {
                lemma_sorted_halves(sorted, mid as int, Axis::X);
                lemma_sorted_subrange(sorted, 0, mid as int, Axis::X);
                lemma_sorted_subrange(sorted, mid as int, sorted.len() as int, Axis::X);
                assert(sorted =~= left@ + right@);
                vstd::seq_lib::lemma_multiset_commutative(left@, right@);
            }
            let left_child = Self::build_main_struct(left);
            let right_child = Self::build_main_struct(right);
            proof {
                lemma_halving_depth_monotone(left@.len(), right@.len());
            }
            Node::new(
                middle,
                Some(Box::new(left_child)),
                Some(Box::new(right_child)),
                Some(Box::new(t_assoc)),
            )
        }
    }

    /// Builds an associated tree over `points`, sorted by `y`: a balanced
    /// search tree on `y` with no further level.
    fn build_assoc_struct(points: Vec<Point>) -> (node: Node)
        requires
            points@.len() >= 1,
            sorted_along(points@, Axis::Y),
        ensures
            node.leaves() == points@.to_multiset(),
            node.assoc_wf(),
            node.height() <= halving_depth(points@.len()),
            node.leaf_seq() == points@,
            points@.len() >= 2 ==> ({
                &&& node.data == points@[(points@.len() / 2) as int]
                &&& node.left matches Some(l) && l.leaf_seq() == points@.subrange(
                    0,
                    (points@.len() / 2) as int,
                )
                &&& node.right matches Some(r) && r.leaf_seq() == points@.subrange(
                    (points@.len() / 2) as int,
                    points@.len() as int,
                )
            }),
        decreases points@.len(),
    {
        if points.len() == 1 {
            assert(points@ =~= seq![points@[0]]);
            assert(seq![points@[0]].to_multiset() =~= Multiset::singleton(points@[0]));
            Node::new(points[0], None, None, None)
        } else {
            let ghost sorted = points@;
            let mut points = points;
            let mid = points.len() / 2;
            let middle = points[mid];
            let right = points.split_off(mid);
            let left = points;
            proof {
                lemma_sorted_halves(sorted, mid as int, Axis::Y);
                lemma_sorted_subrange(sorted, 0, mid as int, Axis::Y);
                lemma_sorted_subrange(sorted, mid as int, sorted.len() as int, Axis::Y);
                assert(sorted =~= left@ + right@);
                vstd::seq_lib::lemma_multiset_commutative(left@, right@);
            }
            let left_child = Self::build_assoc_struct(left);
            let right_child = Self::build_assoc_struct(right);
            proof {
                lemma_halving_depth_monotone(left@.len(), right@.len());
            }
            Node::new(middle, Some(Box::new(left_child)), Some(Box::new(right_child)), None)
        }
    }
}

impl RangeTree {
    /// All points of the tree that lie in the closed rectangle `region`,
    /// boundary included, each as often as it was given.
    pub fn range_query(&self, region: &Region) -> (r: Vec<Point>)
        requires
            self.wf(),
        ensures
            r@.to_multiset() == in_region(*region, self@),
    {
        Self::search_tree(region, &self.root, Vec::new())
    }

    /// Descends from `node` while the median lies outside `[min_x, max_x]`,
    /// towards the side that can hold points in that range. The node
    /// reached holds every point of `node` whose `x` is in the range.
    fn find_split_node_x(node: &Node, min_x: Coordinate, max_x: Coordinate) -> (r: &Node)
        requires
            node.main_wf(),
        ensures
            r.main_wf(),
            forall|p: Point| #[trigger] r.leaves().count(p) <= node.leaves().count(p),
            forall|p: Point|
                min_x <= p.0 <= max_x ==> #[trigger] r.leaves().count(p) == node.leaves().count(p),
            !r.spec_is_leaf() ==> min_x <= r.data.0 <= max_x,
            node.has_descendant(*r),
    {
        let mut v = node;
        while !v.is_leaf() && (v.data.x() > max_x || v.data.x() < min_x)
            invariant
                node.has_descendant(*v),
                v.main_wf(),
                forall|p: Point| #[trigger] v.leaves().count(p) <= node.leaves().count(p),
                forall|p: Point|
                    min_x <= p.0 <= max_x ==> #[trigger] v.leaves().count(p) == node.leaves().count(
                        p,
                    ),
            decreases v.size(),
        {
            let ghost lc = *v.left.unwrap();
            let ghost rc = *v.right.unwrap();
            assert(forall|p: Point|
                #![trigger lc.leaves().count(p)]
                #![trigger rc.leaves().count(p)]
                v.leaves().count(p) == lc.leaves().count(p) + rc.leaves().count(p));
            proof {
                node.lemma_descendant_child(*v, lc);
                node.lemma_descendant_child(*v, rc);
            }
            if v.data.x() > max_x {
                v = v.left.as_ref().unwrap();
            } else {
                v = v.right.as_ref().unwrap();
            }
        }
        v
    }

    /// Descends from `node` while the median lies outside `[min_y, max_y]`,
    /// towards the side that can hold points in that range. The node
    /// reached holds every point of `node` whose `y` is in the range.
    fn find_split_node_y(node: &Node, min_y: Coordinate, max_y: Coordinate) -> (r: &Node)
        requires
            node.assoc_wf(),
        ensures
            r.assoc_wf(),
            forall|p: Point| #[trigger] r.leaves().count(p) <= node.leaves().count(p),
            forall|p: Point|
                min_y <= p.1 <= max_y ==> #[trigger] r.leaves().count(p) == node.leaves().count(p),
            !r.spec_is_leaf() ==> min_y <= r.data.1 <= max_y,
            node.has_descendant(*r),
    {
        let mut v = node;
        while !v.is_leaf() && (v.data.y() > max_y || v.data.y() < min_y)
            invariant
                node.has_descendant(*v),
                v.assoc_wf(),
                forall|p: Point| #[trigger] v.leaves().count(p) <= node.leaves().count(p),
                forall|p: Point|
                    min_y <= p.1 <= max_y ==> #[trigger] v.leaves().count(p) == node.leaves().count(
                        p,
                    ),
            decreases v.size(),
        {
            let ghost lc = *v.left.unwrap();
            let ghost rc = *v.right.unwrap();
            assert(forall|p: Point|
                #![trigger lc.leaves().count(p)]
                #![trigger rc.leaves().count(p)]
                v.leaves().count(p) == lc.leaves().count(p) + rc.leaves().count(p));
            proof {
                node.lemma_descendant_child(*v, lc);
                node.lemma_descendant_child(*v, rc);
            }
            if v.data.y() > max_y {
                v = v.left.as_ref().unwrap();
            } else {
                v = v.right.as_ref().unwrap();
            }
        }
        v
    }

    /// Appends to `result` the points below the associated tree `node` that
    /// lie in `region`, given that all of them lie within its `x` bounds:
    /// a split-node search on `y`, then one path to each `y` bound, whole
    /// subtrees between the paths reported without further tests.
    fn range_query_1d(node: &Node, region: &Region, result: Vec<Point>) -> (r: Vec<Point>)
        requires
            node.assoc_wf(),
            forall|p: Point| #[trigger]
                node.leaves().count(p) > 0 ==> region.left_x() <= p.0 <= region.right_x(),
        ensures
            r@.to_multiset() == result@.to_multiset().add(in_region(*region, node.leaves())),
            result@.is_prefix_of(r@),
            r@.subrange(result@.len() as int, r@.len() as int).to_multiset() == in_region(
                *region,
                node.leaves(),
            ),
    {
        let mut result = result;
        let ghost incoming = result@;
        let ghost done = result@.to_multiset();
        let v_split = Self::find_split_node_y(node, region.l_y(), region.r_y());
        if v_split.is_leaf() {
            proof {
                lemma_in_region_singleton(*region, v_split.data);
            }
            if region.contains_point(&v_split.data) {
                result.push(v_split.data);
            }
            proof {
                assert(result@.to_multiset() =~= incoming.to_multiset().add(
                    in_region(*region, node.leaves()),
                ));
                lemma_appended_tail(incoming, result@, in_region(*region, node.leaves()));
            }
            return result;
        }
        let ghost split_left = *v_split.left.unwrap();
        let ghost split_right = *v_split.right.unwrap();
        proof {
            lemma_in_region_add(*region, split_left.leaves(), split_right.leaves());
            assert(forall|p: Point|
                #![trigger split_left.leaves().count(p)]
                #![trigger split_right.leaves().count(p)]
                v_split.leaves().count(p) == split_left.leaves().count(p)
                    + split_right.leaves().count(p));
        }
        // the path to the lower bound, reporting the subtrees right of it
        let mut v: &Node = v_split.left.as_ref().unwrap();
        while !v.is_leaf()
            invariant
                incoming.is_prefix_of(result@),
                v.assoc_wf(),
                forall|p: Point| #[trigger]
                    v.leaves().count(p) > 0 ==> region.left_x() <= p.0 <= region.right_x()
                        && p.1 <= region.upper_y(),
                result@.to_multiset().add(in_region(*region, v.leaves())) == done.add(
                    in_region(*region, split_left.leaves()),
                ),
            decreases v.size(),
        {
            let ghost lc = *v.left.unwrap();
            let ghost rc = *v.right.unwrap();
            proof {
                lemma_in_region_add(*region, lc.leaves(), rc.leaves());
                assert(forall|p: Point|
                    #![trigger lc.leaves().count(p)]
                    #![trigger rc.leaves().count(p)]
                    v.leaves().count(p) == lc.leaves().count(p) + rc.leaves().count(p));
            }
            if v.data.y() >= region.l_y() {
                proof {
                    lemma_in_region_all(*region, rc.leaves());
                }
                result = report_subtree(v.right.as_ref().unwrap(), result);
                v = v.left.as_ref().unwrap();
            } else {
                proof {
                    lemma_in_region_none(*region, lc.leaves());
                }
                v = v.right.as_ref().unwrap();
            }
        }
        let ghost found = result@.to_multiset();
        proof {
            lemma_in_region_singleton(*region, v.data);
        }
        if region.contains_point(&v.data) {
            result.push(v.data);
        }
        let ghost after_left = result@.to_multiset();
        // the path to the upper bound, reporting the subtrees left of it
        v = v_split.right.as_ref().unwrap();
        while !v.is_leaf()
            invariant
                incoming.is_prefix_of(result@),
                v.assoc_wf(),
                forall|p: Point| #[trigger]
                    v.leaves().count(p) > 0 ==> region.left_x() <= p.0 <= region.right_x()
                        && region.lower_y() <= p.1,
                result@.to_multiset().add(in_region(*region, v.leaves())) == after_left.add(
                    in_region(*region, split_right.leaves()),
                ),
            decreases v.size(),
        {
            let ghost lc = *v.left.unwrap();
            let ghost rc = *v.right.unwrap();
            proof {
                lemma_in_region_add(*region, lc.leaves(), rc.leaves());
                assert(forall|p: Point|
                    #![trigger lc.leaves().count(p)]
                    #![trigger rc.leaves().count(p)]
                    v.leaves().count(p) == lc.leaves().count(p) + rc.leaves().count(p));
            }
            if v.data.y() <= region.r_y() {
                proof {
                    lemma_in_region_all(*region, lc.leaves());
                }
                result = report_subtree(v.left.as_ref().unwrap(), result);
                v = v.right.as_ref().unwrap();
            } else {
                proof {
                    lemma_in_region_none(*region, rc.leaves());
                }
                v = v.left.as_ref().unwrap();
            }
        }
        let ghost found = result@.to_multiset();
        proof {
            lemma_in_region_singleton(*region, v.data);
        }
        if region.contains_point(&v.data) {
            result.push(v.data);
        }
        assert(result@.to_multiset() =~= found.add(in_region(*region, v.leaves())));
        proof {
            assert(result@.to_multiset() =~= incoming.to_multiset().add(
                in_region(*region, node.leaves()),
            ));
            lemma_appended_tail(incoming, result@, in_region(*region, node.leaves()));
        }
        result
    }

    /// Appends to `result` the points below the main tree `node` that lie
    /// in `region`: a split-node search on `x`, then one path to each `x`
    /// bound; each subtree between the paths is queried on `y` through its
    /// associated tree.
    fn search_tree(region: &Region, node: &Node, result: Vec<Point>) -> (r: Vec<Point>)
        requires
            node.main_wf(),
        ensures
            r@.to_multiset() == result@.to_multiset().add(in_region(*region, node.leaves())),
            result@.is_prefix_of(r@),
            r@.subrange(result@.len() as int, r@.len() as int).to_multiset() == in_region(
                *region,
                node.leaves(),
            ),
    {
        let mut result = result;
        let ghost incoming = result@;
        let ghost done = result@.to_multiset();
        let v_split = Self::find_split_node_x(node, region.l_x(), region.r_x());
        if v_split.is_leaf() {
            proof {
                lemma_in_region_singleton(*region, v_split.data);
            }
            if region.contains_point(&v_split.data) {
                result.push(v_split.data);
            }
            proof {
                assert(result@.to_multiset() =~= incoming.to_multiset().add(
                    in_region(*region, node.leaves()),
                ));
                lemma_appended_tail(incoming, result@, in_region(*region, node.leaves()));
            }
            return result;
        }
        let ghost split_left = *v_split.left.unwrap();
        let ghost split_right = *v_split.right.unwrap();
        proof {
            lemma_in_region_add(*region, split_left.leaves(), split_right.leaves());
            assert(forall|p: Point|
                #![trigger split_left.leaves().count(p)]
                #![trigger split_right.leaves().count(p)]
                v_split.leaves().count(p) == split_left.leaves().count(p)
                    + split_right.leaves().count(p));
        }
        // the path to the left bound, querying the subtrees right of it
        let mut v: &Node = v_split.left.as_ref().unwrap();
        while !v.is_leaf()
            invariant
                incoming.is_prefix_of(result@),
                v.main_wf(),
                forall|p: Point| #[trigger] v.leaves().count(p) > 0 ==> p.0 <= region.right_x(),
                result@.to_multiset().add(in_region(*region, v.leaves())) == done.add(
                    in_region(*region, split_left.leaves()),
                ),
            decreases v.size(),
        {
            let ghost lc = *v.left.unwrap();
            let ghost rc = *v.right.unwrap();
            proof {
                lemma_in_region_add(*region, lc.leaves(), rc.leaves());
                assert(forall|p: Point|
                    #![trigger lc.leaves().count(p)]
                    #![trigger rc.leaves().count(p)]
                    v.leaves().count(p) == lc.leaves().count(p) + rc.leaves().count(p));
                assert(lc.main_wf() && rc.main_wf());
            }
            if v.data.x() >= region.l_x() {
                let rv = v.right.as_ref().unwrap();
                result = Self::range_query_1d(
                    rv.next_dimension().as_ref().unwrap(),
                    region,
                    result,
                );
                v = v.left.as_ref().unwrap();
            } else {
                proof {
                    lemma_in_region_none(*region, lc.leaves());
                }
                v = v.right.as_ref().unwrap();
            }
        }
        let ghost found = result@.to_multiset();
        proof {
            lemma_in_region_singleton(*region, v.data);
        }
        if region.contains_point(&v.data) {
            result.push(v.data);
        }
        let ghost after_left = result@.to_multiset();
        // the path to the right bound, querying the subtrees left of it
        v = v_split.right.as_ref().unwrap();
        while !v.is_leaf()
            invariant
                incoming.is_prefix_of(result@),
                v.main_wf(),
                forall|p: Point| #[trigger] v.leaves().count(p) > 0 ==> region.left_x() <= p.0,
                result@.to_multiset().add(in_region(*region, v.leaves())) == after_left.add(
                    in_region(*region, split_right.leaves()),
                ),
            decreases v.size(),
        {
            let ghost lc = *v.left.unwrap();
            let ghost rc = *v.right.unwrap();
            proof {
                lemma_in_region_add(*region, lc.leaves(), rc.leaves());
                assert(forall|p: Point|
                    #![trigger lc.leaves().count(p)]
                    #![trigger rc.leaves().count(p)]
                    v.leaves().count(p) == lc.leaves().count(p) + rc.leaves().count(p));
                assert(lc.main_wf() && rc.main_wf());
            }
            if v.data.x() <= region.r_x() {
                let lv = v.left.as_ref().unwrap();
                result = Self::range_query_1d(
                    lv.next_dimension().as_ref().unwrap(),
                    region,
                    result,
                );
                v = v.right.as_ref().unwrap();
            } else {
                proof {
                    lemma_in_region_none(*region, rc.leaves());
                }
                v = v.left.as_ref().unwrap();
            }
        }
        let ghost found = result@.to_multiset();
        proof {
            lemma_in_region_singleton(*region, v.data);
        }
        if region.contains_point(&v.data) {
            result.push(v.data);
        }
        assert(result@.to_multiset() =~= found.add(in_region(*region, v.leaves())));
        proof {
            assert(result@.to_multiset() =~= incoming.to_multiset().add(
                in_region(*region, node.leaves()),
            ));
            lemma_appended_tail(incoming, result@, in_region(*region, node.leaves()));
        }
        result
    }
}

} // verus!
