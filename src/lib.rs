//! Static orthogonal range search in the plane: a kd-tree and a two-level
//! range tree over integer points, with the rectangle primitives both use.
//! Beside them stand the algorithms that consume the same points: convex
//! hulls and the staircase of a point set.
pub mod convex_hull;
pub mod kd_tree;
pub mod laws;
pub mod order;
pub mod primitives;
pub mod range_tree;
pub mod staircase;
