use range_search::kd_tree;
use range_search::primitives::Point;
use range_search::range_tree;

#[test]
fn kd_node_leaf_and_internal() {
    let leaf = kd_tree::Node::new(Point(1, 2), None, None);
    assert!(leaf.is_leaf());
    let other = kd_tree::Node::new(Point(3, 4), None, None);
    let inner = kd_tree::Node::new(Point(3, 4), Some(Box::new(leaf)), Some(Box::new(other)));
    assert!(!inner.is_leaf());
    assert_eq!(inner.data, Point(3, 4));
}

#[test]
fn range_node_dimensions() {
    let assoc = range_tree::Node::new(Point(1, 2), None, None, None);
    assert!(assoc.is_leaf());
    assert!(assoc.is_last_dimension());
    assert!(assoc.next_dimension().is_none());
    let main = range_tree::Node::new(Point(1, 2), None, None, Some(Box::new(assoc)));
    assert!(main.is_leaf());
    assert!(!main.is_last_dimension());
    assert_eq!(main.next_dimension().as_ref().map(|a| a.data), Some(Point(1, 2)));
}
