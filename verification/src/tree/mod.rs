//! Random projection tree structures and construction.

pub mod benchmark;
pub mod breadth_first;
pub mod crossing;
pub mod division;
pub mod flat_tree;
pub mod growth;
pub mod routing;
pub mod split;

pub use breadth_first::build_breadth_first_leaf_forest;
pub use flat_tree::{FlatTree, QuantizedFlatTree};
