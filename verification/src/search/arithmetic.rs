//! The floating-point arithmetic that searches are given.

use crate::calls;
use crate::single::Single;
use vstd::prelude::*;

verus! {

/// The floating-point arithmetic of a search. The library decides with the results; the caller
/// computes them.
pub struct Arithmetic<M, Q, B, S, C> {
    /// `margin(point, hyperplane, offset)` is to be the inner product plus the offset.
    pub margin: M,
    /// `rescale(dot, scale, query_scale, offset)` is to be `dot * scale * query_scale + offset`.
    pub rescale: Q,
    /// `bound(max, epsilon, min)` is to be `max + epsilon * (max - min)`.
    pub bound: B,
    /// `similarity(dot, inv_x, inv_y)` is to be `dot * inv_x * inv_y`.
    pub similarity: S,
    /// `one_minus(s)` is to be `1 - s`.
    pub one_minus: C,
}

impl<
    M: Fn(&[Single], &[Single], Single) -> Single,
    Q,
    B: Fn(Single, Single, Single) -> Single,
    S,
    C,
> Arithmetic<M, Q, B, S, C> {
    /// What a search over vectors needs is a function of its arguments.
    pub open spec fn serves_vectors(&self) -> bool {
        calls::scores(self.margin) && calls::maps3(self.bound)
    }
}

impl<
    M: Fn(&[Single], &[Single], Single) -> Single,
    Q: Fn(i32, Single, Single, Single) -> Single,
    B: Fn(Single, Single, Single) -> Single,
    S,
    C,
> Arithmetic<M, Q, B, S, C> {
    /// What a search with quantized trees needs is a function of its arguments.
    pub open spec fn serves_trees(&self) -> bool {
        self.serves_vectors() && calls::maps4(self.rescale)
    }
}

impl<
    M: Fn(&[Single], &[Single], Single) -> Single,
    Q: Fn(i32, Single, Single, Single) -> Single,
    B: Fn(Single, Single, Single) -> Single,
    S: Fn(i32, Single, Single) -> Single,
    C: Fn(Single) -> Single,
> Arithmetic<M, Q, B, S, C> {
    /// What a search over codes needs is a function of its arguments.
    pub open spec fn serves_codes(&self) -> bool {
        self.serves_trees() && calls::maps3(self.similarity) && calls::maps1(self.one_minus)
    }
}

} // verus!
