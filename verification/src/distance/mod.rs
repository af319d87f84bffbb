//! Distances: the interface that searches use, the named metrics, the proxy distances and the
//! quantized representations.

pub mod alternatives;
pub mod metric;
pub mod pair_sum;
pub mod quantized;
pub mod supplied;

pub use metric::Metric;
pub use pair_sum::PairSum;
pub use supplied::Supplied;

use crate::single::Single;
use vstd::prelude::*;

verus! {

/// A distance between vectors of single-precision numbers, for verified callers to implement; for
/// others there are [`PairSum`] and [`Supplied`].
///
/// An implementation is a function of its two arguments: the same vectors have the same distance
/// on every call.
pub trait Distance {
    /// The distance between two vectors.
    spec fn between(&self, a: Seq<Single>, b: Seq<Single>) -> Single;

    /// Compute the distance between two vectors of one length.
    fn distance(&self, a: &[Single], b: &[Single]) -> (d: Single)
        requires
            a@.len() == b@.len(),
        ensures
            d == self.between(a@, b@),
    ;

    /// The name of the distance.
    spec fn title(&self) -> Seq<char>;

    /// The name of the distance.
    fn name(&self) -> (r: &'static str)
        ensures
            r@ == self.title(),
    ;
}

} // verus!
