//! Approximate nearest-neighbour search: random projection trees, graph search, signed
//! quantization and the bookkeeping that ties them to one index.
//!
//! Floating-point numbers are handled as bit patterns ([`single::Single`]). The library orders
//! and routes them; whatever has to be computed from them comes in through a function that the
//! caller supplies, and every contract is stated over the values of that function.

pub mod benchmark;
pub mod calls;
pub mod distance;
pub mod graph;
pub mod heap;
pub mod index;
pub mod layout;
pub mod normalize;
pub mod options;
mod parallel;
pub mod rng;
pub mod search;
pub mod single;
pub mod text;
pub mod tree;
pub mod visited;
