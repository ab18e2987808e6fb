//! The tropical semiring over the natural numbers.

use vstd::prelude::*;
use crate::parsers::text::{parse_number, parsed_number};
use crate::semirings::semiring::{
    DivideType, Semiring, SemiringProperties, SerializableSemiring, WeaklyDivisibleSemiring,
    WeightQuantize,
};

verus! {

/// A cost under `min` and `+`, with `+∞` and `0` as identities.
///
/// Costs are natural numbers held in 64 bits; `u64::MAX` is `+∞`, and a sum
/// that would pass it is `+∞`. The weights are thus the natural numbers with
/// all those from `u64::MAX` on identified with `+∞`, and the semiring laws
/// hold exactly.
#[derive(Clone, Copy, Debug, PartialEq, Eq, Structural, Hash, PartialOrd, Ord)]
pub struct TropicalWeight {
    pub value: u64,
}

/// The cost that stands for `+∞`.
pub const TROPICAL_INFINITY: u64 = 0xffff_ffff_ffff_ffffu64;

/// `a + b`, or `+∞` where the sum reaches it.
pub open spec fn tropical_sum(a: u64, b: u64) -> u64 {
    if a + b >= TROPICAL_INFINITY {
        TROPICAL_INFINITY
    } else {
        (a + b) as u64
    }
}

/// The lower end of the bin of width `delta` that holds `a`.
pub open spec fn tropical_bin(a: u64, delta: u64) -> u64 {
    if a == TROPICAL_INFINITY || delta <= 1 {
        a
    } else {
        (a - a % delta) as u64
    }
}

impl TropicalWeight {
    pub fn new(value: u64) -> (w: Self)
        ensures
            w.value == value,
    {
        TropicalWeight { value }
    }

    pub fn value(&self) -> (v: u64)
        ensures
            v == self.value,
    {
        self.value
    }
}

impl Semiring for TropicalWeight {
    open spec fn zero_spec() -> Self {
        TropicalWeight { value: TROPICAL_INFINITY }
    }

    open spec fn one_spec() -> Self {
        TropicalWeight { value: 0 }
    }

    open spec fn plus_spec(self, rhs: Self) -> Self {
        if self.value <= rhs.value {
            self
        } else {
            rhs
        }
    }

    open spec fn times_spec(self, rhs: Self) -> Self {
        TropicalWeight { value: tropical_sum(self.value, rhs.value) }
    }

    open spec fn distance_spec(self, rhs: Self) -> nat {
        if self.value <= rhs.value {
            (rhs.value - self.value) as nat
        } else {
            (self.value - rhs.value) as nat
        }
    }

    open spec fn descends() -> bool {
        true
    }

    open spec fn descent_rank(self) -> nat {
        self.value as nat
    }

    open spec fn properties_spec() -> SemiringProperties {
        SemiringProperties { commutative: true, idempotent: true, path: true }
    }

    proof fn lemma_plus_commutative(a: Self, b: Self) {
    }

    proof fn lemma_plus_associative(a: Self, b: Self, c: Self) {
    }

    proof fn lemma_plus_zero(a: Self) {
    }

    proof fn lemma_times_associative(a: Self, b: Self, c: Self) {
    }

    proof fn lemma_times_one(a: Self) {
    }

    proof fn lemma_times_zero(a: Self) {
    }

    proof fn lemma_distributive(a: Self, b: Self, c: Self) {
    }

    proof fn lemma_distance(a: Self, b: Self) {
    }

    proof fn lemma_descent(a: Self, c: Self) {
    }

    proof fn lemma_descent_idempotent(a: Self) {
    }

    open spec fn cancels() -> bool {
        true
    }

    proof fn lemma_cancel(a: Self, b: Self, x: Self) {
    }

    proof fn lemma_flags_hold() {
    }

    fn is_descending() -> (b: bool) {
        true
    }

    fn zero() -> (r: Self) {
        TropicalWeight { value: TROPICAL_INFINITY }
    }

    fn one() -> (r: Self) {
        TropicalWeight { value: 0 }
    }

    fn plus(&self, rhs: &Self) -> (r: Self) {
        if self.value <= rhs.value {
            *self
        } else {
            *rhs
        }
    }

    fn times(&self, rhs: &Self) -> (r: Self) {
        TropicalWeight { value: self.value.saturating_add(rhs.value) }
    }

    fn is_equal(&self, rhs: &Self) -> (b: bool) {
        self.value == rhs.value
    }

    fn approx_equal(&self, rhs: &Self, delta: u64) -> (b: bool) {
        if self.value <= rhs.value {
            rhs.value - self.value <= delta
        } else {
            self.value - rhs.value <= delta
        }
    }

    fn properties() -> (p: SemiringProperties)
        ensures
            p == (SemiringProperties { commutative: true, idempotent: true, path: true }),
    {
        SemiringProperties { commutative: true, idempotent: true, path: true }
    }
}

impl WeaklyDivisibleSemiring for TropicalWeight {
    open spec fn divide_spec(self, rhs: Self, divide_type: DivideType) -> Option<Self> {
        if rhs.value == TROPICAL_INFINITY {
            None
        } else if self.value == TROPICAL_INFINITY {
            Some(self)
        } else if self.value >= rhs.value {
            Some(TropicalWeight { value: (self.value - rhs.value) as u64 })
        } else {
            None
        }
    }

    proof fn lemma_divide_is_quotient(a: Self, b: Self, divide_type: DivideType) {
    }

    proof fn lemma_sum_divides(a: Self, b: Self, divide_type: DivideType) {
    }

    fn divide(&self, rhs: &Self, divide_type: DivideType) -> (r: Option<Self>) {
        if rhs.value == TROPICAL_INFINITY {
            None
        } else if self.value == TROPICAL_INFINITY {
            Some(*self)
        } else if self.value >= rhs.value {
            Some(TropicalWeight { value: self.value - rhs.value })
        } else {
            None
        }
    }
}

impl WeightQuantize for TropicalWeight {
    open spec fn quantize_spec(self, delta: u64) -> Self {
        TropicalWeight { value: tropical_bin(self.value, delta) }
    }

    proof fn lemma_quantize_idempotent(a: Self, delta: u64) {
        if a.value != TROPICAL_INFINITY && delta > 1 {
            let v = a.value as int;
            let d = delta as int;
            vstd::arithmetic::div_mod::lemma_fundamental_div_mod(v, d);
            vstd::arithmetic::div_mod::lemma_mod_multiples_basic(v / d, d);
            assert(d * (v / d) == (v / d) * d) by (nonlinear_arith);
            vstd::arithmetic::div_mod::lemma_mod_pos_bound(v, d);
        }
    }

    proof fn lemma_quantize_keeps_zero(a: Self, delta: u64) {
        if a.value != TROPICAL_INFINITY && delta > 1 {
            vstd::arithmetic::div_mod::lemma_mod_pos_bound(a.value as int, delta as int);
            vstd::arithmetic::div_mod::lemma_mod_decreases(a.value as nat, delta as nat);
        }
    }

    proof fn lemma_quantize_is_near(a: Self, delta: u64) {
        if a.value != TROPICAL_INFINITY && delta > 1 {
            let v = a.value as int;
            let d = delta as int;
            vstd::arithmetic::div_mod::lemma_mod_pos_bound(v, d);
            vstd::arithmetic::div_mod::lemma_mod_decreases(a.value as nat, delta as nat);
            let binned = a.quantize_spec(delta);
            assert(binned.value == v - v % d);
            assert(binned.value <= a.value);
            assert(a.distance_spec(binned) == v % d);
        }
    }

    fn quantize(&self, delta: u64) -> (r: Self) {
        if self.value == TROPICAL_INFINITY || delta <= 1 {
            *self
        } else {
            let rest: u64 = self.value % delta;
            proof {
                vstd::arithmetic::div_mod::lemma_mod_decreases(self.value as nat, delta as nat);
            }
            TropicalWeight { value: self.value - rest }
        }
    }
}

/// A cost is written as a decimal number; `u64::MAX` stands for `+∞`.
impl SerializableSemiring for TropicalWeight {
    open spec fn parsed_weight(text: Seq<u8>) -> Option<Self> {
        match parsed_number(text, u64::MAX) {
            Some(value) => Some(TropicalWeight { value }),
            None => None,
        }
    }

    fn parse_text(text: &[u8]) -> (r: Option<Self>) {
        match parse_number(text, u64::MAX) {
            Some(value) => Some(TropicalWeight { value }),
            None => None,
        }
    }
}

} // verus!
