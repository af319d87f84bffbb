//! The index: data, graph and trees laid out for search, and queries on them.

pub mod builder;
pub mod quantized;
pub mod query;
pub mod storage;
pub mod widths;

pub use builder::{Construction, NNDescentBuilder, NNDescentParams};
pub use quantized::QuantizedI8Index;
pub use query::NNDescentIndex;
