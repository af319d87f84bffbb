//! Search algorithms for querying the k-NN graph.

pub mod arithmetic;
pub mod counting;
pub mod coverage;
pub mod economy;
mod engine;
pub mod greedy;
pub mod model;
pub mod single_leaf;
mod workspace;

pub use arithmetic::Arithmetic;
pub use single_leaf::SearchStats;
pub use workspace::SearchWorkspace;
