//! The Boolean semiring.

use vstd::prelude::*;
use crate::parsers::text::{parse_number, parsed_number};
use crate::semirings::semiring::{
    DivideType, Semiring, SemiringProperties, SerializableSemiring, WeaklyDivisibleSemiring,
    WeightQuantize,
};

verus! {

/// A truth value under `∨` and `∧`, with `false` and `true` as identities.
#[derive(Clone, Copy, Debug, PartialEq, Eq, Structural, Hash, PartialOrd, Ord, Default)]
pub struct BooleanWeight {
    pub value: bool,
}

impl BooleanWeight {
    pub fn new(value: bool) -> (w: Self)
        ensures
            w.value == value,
    {
        BooleanWeight { value }
    }

    pub fn value(&self) -> (v: bool)
        ensures
            v == self.value,
    {
        self.value
    }
}

impl Semiring for BooleanWeight {
    open spec fn zero_spec() -> Self {
        BooleanWeight { value: false }
    }

    open spec fn one_spec() -> Self {
        BooleanWeight { value: true }
    }

    open spec fn plus_spec(self, rhs: Self) -> Self {
        BooleanWeight { value: self.value || rhs.value }
    }

    open spec fn times_spec(self, rhs: Self) -> Self {
        BooleanWeight { value: self.value && rhs.value }
    }

    open spec fn distance_spec(self, rhs: Self) -> nat {
        if self.value == rhs.value {
            0
        } else {
            1
        }
    }

    open spec fn descends() -> bool {
        true
    }

    open spec fn descent_rank(self) -> nat {
        if self.value {
            0
        } else {
            1
        }
    }

    open spec fn properties_spec() -> SemiringProperties {
        SemiringProperties { commutative: true, idempotent: true, path: true }
    }

    proof fn lemma_plus_commutative(a: Self, b: Self) {
    }

    proof fn lemma_plus_associative(a: Self, b: Self, c: Self) {
    }

    proof fn lemma_plus_zero(a: Self) {
    }

    proof fn lemma_times_associative(a: Self, b: Self, c: Self) {
    }

    proof fn lemma_times_one(a: Self) {
    }

    proof fn lemma_times_zero(a: Self) {
    }

    proof fn lemma_distributive(a: Self, b: Self, c: Self) {
    }

    proof fn lemma_distance(a: Self, b: Self) {
    }

    proof fn lemma_descent(a: Self, c: Self) {
    }

    proof fn lemma_descent_idempotent(a: Self) {
    }

    open spec fn cancels() -> bool {
        true
    }

    proof fn lemma_cancel(a: Self, b: Self, x: Self) {
    }

    proof fn lemma_flags_hold() {
    }

    fn is_descending() -> (b: bool) {
        true
    }

    fn zero() -> (r: Self) {
        BooleanWeight { value: false }
    }

    fn one() -> (r: Self) {
        BooleanWeight { value: true }
    }

    fn plus(&self, rhs: &Self) -> (r: Self) {
        BooleanWeight { value: self.value || rhs.value }
    }

    fn times(&self, rhs: &Self) -> (r: Self) {
        BooleanWeight { value: self.value && rhs.value }
    }

    fn is_equal(&self, rhs: &Self) -> (b: bool) {
        self.value == rhs.value
    }

    fn approx_equal(&self, rhs: &Self, delta: u64) -> (b: bool) {
        self.value == rhs.value || delta >= 1
    }

    fn properties() -> (p: SemiringProperties)
        ensures
            p == (SemiringProperties { commutative: true, idempotent: true, path: true }),
    {
        SemiringProperties { commutative: true, idempotent: true, path: true }
    }
}

impl WeaklyDivisibleSemiring for BooleanWeight {
    open spec fn divide_spec(self, rhs: Self, divide_type: DivideType) -> Option<Self> {
        if rhs.value {
            Some(self)
        } else {
            None
        }
    }

    proof fn lemma_divide_is_quotient(a: Self, b: Self, divide_type: DivideType) {
    }

    proof fn lemma_sum_divides(a: Self, b: Self, divide_type: DivideType) {
    }

    fn divide(&self, rhs: &Self, divide_type: DivideType) -> (r: Option<Self>) {
        if rhs.value {
            Some(*self)
        } else {
            None
        }
    }
}

impl WeightQuantize for BooleanWeight {
    open spec fn quantize_spec(self, delta: u64) -> Self {
        self
    }

    proof fn lemma_quantize_idempotent(a: Self, delta: u64) {
    }

    proof fn lemma_quantize_keeps_zero(a: Self, delta: u64) {
    }

    proof fn lemma_quantize_is_near(a: Self, delta: u64) {
    }

    fn quantize(&self, delta: u64) -> (r: Self) {
        *self
    }
}

/// A truth value is written as `0` or `1`.
impl SerializableSemiring for BooleanWeight {
    open spec fn parsed_weight(text: Seq<u8>) -> Option<Self> {
        match parsed_number(text, 1) {
            Some(value) => Some(BooleanWeight { value: value == 1 }),
            None => None,
        }
    }

    fn parse_text(text: &[u8]) -> (r: Option<Self>) {
        match parse_number(text, 1) {
            Some(value) => Some(BooleanWeight { value: value == 1 }),
            None => None,
        }
    }
}

} // verus!
