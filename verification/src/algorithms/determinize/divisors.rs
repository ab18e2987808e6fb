//! Common divisors: what the weights of a group of transitions have in
//! common, which the group's one transition takes over.

use vstd::prelude::*;
use crate::semirings::semiring::Semiring;

verus! {

/// A policy that yields a common left divisor of two weights.
pub trait CommonDivisor<W: Semiring> {
    /// The common divisor of the two weights.
    spec fn common_divisor_spec(w1: W, w2: W) -> W;

    fn common_divisor(w1: &W, w2: &W) -> (r: W)
        ensures
            r == Self::common_divisor_spec(*w1, *w2),
    ;
}

/// The policy that takes the `⊕`-sum of two weights as their common divisor:
/// the lesser of two costs in the tropical semiring.
#[derive(Clone, Copy, Debug, PartialEq, Eq, Default)]
pub struct DefaultCommonDivisor;

impl<W: Semiring> CommonDivisor<W> for DefaultCommonDivisor {
    open spec fn common_divisor_spec(w1: W, w2: W) -> W {
        w1.plus_spec(w2)
    }

    fn common_divisor(w1: &W, w2: &W) -> (r: W) {
        w1.plus(w2)
    }
}

} // verus!
