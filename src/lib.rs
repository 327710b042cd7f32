//! A static kd-tree over three-dimensional integer points, answering
//! axis-aligned range queries and k-nearest-neighbour queries.
//!
//! The dataset is never reordered: building the tree permutes an array of
//! indices so that every node covers one contiguous range of it. Each node
//! keeps the tight bounding box of its points, which both queries use to
//! prune. Distances are squared Euclidean distances.
pub mod point;
pub mod bbox;
pub mod tree;
pub mod kdtree;
pub mod query;
pub mod knn;
pub mod laws;

pub use point::{Point, squared_distance};
pub use bbox::Bounding;
pub use tree::TreeNode;
pub use kdtree::{KdTree, KdTreeError};
