//! Heap data structures for neighbor management.
//!
//! Entries are `(distance, index)` pairs, ordered by the IEEE 754 total order of the distance
//! and then by the index. [`BoundedHeap`] is a max-heap that tracks the `k` smallest entries,
//! [`CandidateHeap`] a min-heap that hands out the smallest entry first.

mod binary;
pub mod bounded;
mod candidate;
pub mod checked;
pub mod order;

pub use bounded::BoundedHeap;
pub use candidate::CandidateHeap;
