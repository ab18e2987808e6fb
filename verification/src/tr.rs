//! Transitions.

use vstd::prelude::*;
use crate::semirings::semiring::Semiring;

verus! {

/// A symbol of an input or output alphabet.
pub type Label = u32;

/// The index of a state in its transducer.
pub type StateId = usize;

/// The label that stands for the empty string.
pub const EPS_LABEL: Label = 0;

/// A transition: reading `ilabel` and writing `olabel` it leads to
/// `nextstate` at the cost of `weight`.
#[derive(Clone, Copy, Debug, PartialEq, Eq)]
pub struct Tr<W: Semiring> {
    pub ilabel: Label,
    pub olabel: Label,
    pub weight: W,
    pub nextstate: StateId,
}

impl<W: Semiring> Tr<W> {
    pub fn new(ilabel: Label, olabel: Label, weight: W, nextstate: StateId) -> (tr: Self)
        ensures
            tr == (Tr { ilabel, olabel, weight, nextstate }),
    {
        Tr { ilabel, olabel, weight, nextstate }
    }

    /// Whether the two transitions agree in every field.
    pub fn is_equal(&self, other: &Self) -> (b: bool)
        ensures
            b == (*self == *other),
    {
        self.ilabel == other.ilabel && self.olabel == other.olabel && self.nextstate
            == other.nextstate && self.weight.is_equal(&other.weight)
    }

    /// The transition with its two labels exchanged.
    pub open spec fn inverted(self) -> Self {
        Tr { ilabel: self.olabel, olabel: self.ilabel, weight: self.weight, nextstate: self.nextstate }
    }

    /// The transition with another target.
    pub open spec fn with_nextstate(self, nextstate: StateId) -> Self {
        Tr { ilabel: self.ilabel, olabel: self.olabel, weight: self.weight, nextstate }
    }

    /// The transition with another weight.
    pub open spec fn with_weight(self, weight: W) -> Self {
        Tr { ilabel: self.ilabel, olabel: self.olabel, weight, nextstate: self.nextstate }
    }
}

} // verus!
