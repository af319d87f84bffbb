//! Distances that are made of one sum over the pairs of two vectors.

use crate::calls;
use crate::distance::quantized;
use crate::distance::quantized::accumulate_pairs;
use crate::distance::Distance;
use crate::single::Single;
use vstd::prelude::*;

verus! {

/// A distance that accumulates the pairs of two vectors and then finishes the sum.
pub struct PairSum<F: Fn(Single, Single, Single) -> Single, G: Fn(Single) -> Single> {
    step: F,
    finish: G,
    name: &'static str,
}

impl<F: Fn(Single, Single, Single) -> Single, G: Fn(Single) -> Single> PairSum<F, G> {
    #[verifier::type_invariant]
    spec fn is_computable(&self) -> bool {
        calls::maps3(self.step) && calls::maps1(self.finish)
    }

    /// What accumulates a pair.
    pub closed spec fn spec_step(&self) -> F {
        self.step
    }

    /// What finishes the sum.
    pub closed spec fn spec_finish(&self) -> G {
        self.finish
    }

    /// The name of the distance.
    pub closed spec fn spec_name(&self) -> &'static str {
        self.name
    }

    /// A distance from what accumulates a pair and what finishes the sum.
    pub fn new(step: F, finish: G, name: &'static str) -> (r: PairSum<F, G>)
        requires
            calls::maps3(step),
            calls::maps1(finish),
        ensures
            r.spec_step() == step,
            r.spec_finish() == finish,
            r.spec_name() == name,
    {
        PairSum { step, finish, name }
    }
}

impl<F: Fn(Single, Single, Single) -> Single, G: Fn(Single) -> Single> PairSum<F, G> {
    /// The distance takes the pairs of all dimensions, each once, from the first to the last.
    pub proof fn sums_take_every_dimension(self, a: Seq<Single>, b: Seq<Single>)
        requires
            a.len() == b.len(),
        ensures
            self.between(a, b) == calls::image1(
                self.spec_finish(),
                a.zip_with(b).fold_left(
                    Single::spec_zero(),
                    |acc: Single, pair: (Single, Single)|
                        calls::image3(self.spec_step(), acc, pair.0, pair.1),
                ),
            ),
    {
        quantized::pairs_take_every_dimension(self.spec_step(), a, b);
    }
}

impl<F: Fn(Single, Single, Single) -> Single, G: Fn(Single) -> Single> Distance for PairSum<F, G> {
    open spec fn between(&self, a: Seq<Single>, b: Seq<Single>) -> Single {
        calls::image1(self.spec_finish(), quantized::paired(self.spec_step(), a, b))
    }

    fn distance(&self, a: &[Single], b: &[Single]) -> Single {
        proof {
            use_type_invariant(self);
        }
        (self.finish)(accumulate_pairs(a, b, &self.step))
    }

    open spec fn title(&self) -> Seq<char> {
        self.spec_name()@
    }

    fn name(&self) -> &'static str {
        self.name
    }
}

} // verus!
