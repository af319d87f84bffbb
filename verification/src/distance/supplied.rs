//! Distances that are supplied as functions.

use crate::calls;
use crate::distance::Distance;
use crate::single::Single;
use vstd::prelude::*;

verus! {

/// A distance that a function on two vectors computes.
pub struct Supplied<F: Fn(&[Single], &[Single]) -> Single> {
    function: F,
    name: &'static str,
}

impl<F: Fn(&[Single], &[Single]) -> Single> Supplied<F> {
    #[verifier::type_invariant]
    spec fn is_computable(&self) -> bool {
        calls::compares(self.function)
    }

    /// The function.
    pub closed spec fn spec_function(&self) -> F {
        self.function
    }

    /// The name of the distance.
    pub closed spec fn spec_name(&self) -> &'static str {
        self.name
    }

    /// A distance from a function that computes it.
    pub fn new(function: F, name: &'static str) -> (r: Supplied<F>)
        requires
            calls::compares(function),
        ensures
            r.spec_function() == function,
            r.spec_name() == name,
    {
        Supplied { function, name }
    }
}

impl<F: Fn(&[Single], &[Single]) -> Single> Distance for Supplied<F> {
    open spec fn between(&self, a: Seq<Single>, b: Seq<Single>) -> Single {
        calls::comparison(self.spec_function(), a, b)
    }

    fn distance(&self, a: &[Single], b: &[Single]) -> Single {
        proof {
            use_type_invariant(self);
        }
        let d: Single = (self.function)(a, b);
        assert(calls::compared(self.function, a@, b@, d));
        d
    }

    open spec fn title(&self) -> Seq<char> {
        self.spec_name()@
    }

    fn name(&self) -> &'static str {
        self.name
    }
}

} // verus!
