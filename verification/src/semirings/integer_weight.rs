//! The counting semiring of natural numbers.

use vstd::prelude::*;
use crate::parsers::text::{parse_number, parsed_number};
use crate::semirings::semiring::{
    Semiring, SemiringProperties, SerializableSemiring, WeightQuantize,
};

verus! {

/// A natural number under `+` and `×`, with `0` and `1` as identities.
///
/// The value is held in 64 bits and both operations saturate at `u64::MAX`,
/// which keeps every semiring law exact: the weights are the natural numbers
/// with all those from `u64::MAX` on identified.
#[derive(Clone, Copy, Debug, PartialEq, Eq, Structural, Hash, PartialOrd, Ord, Default)]
pub struct IntegerWeight {
    pub value: u64,
}

/// `n` capped at `u64::MAX`.
pub open spec fn saturate(n: int) -> u64 {
    if n >= u64::MAX { u64::MAX } else if n < 0 { 0u64 } else { n as u64 }
}

impl IntegerWeight {
    pub fn new(value: u64) -> (w: Self)
        ensures
            w.value == value,
    {
        IntegerWeight { value }
    }

    pub fn value(&self) -> (v: u64)
        ensures
            v == self.value,
    {
        self.value
    }
}

proof fn lemma_saturate_mul_assoc(a: int, b: int, c: int)
    requires
        0 <= a <= u64::MAX,
        0 <= b <= u64::MAX,
        0 <= c <= u64::MAX,
    ensures
        saturate(saturate(a * b) * c) == saturate(a * b * c),
        saturate(a * saturate(b * c)) == saturate(a * b * c),
{
    let m = u64::MAX as int;
    assert(a * b >= 0 && b * c >= 0) by (nonlinear_arith)
        requires a >= 0, b >= 0, c >= 0;
    assert(a * b * c == a * (b * c)) by (nonlinear_arith);
    if a * b >= m {
        if c == 0 {
            assert(a * b * c == 0) by (nonlinear_arith) requires c == 0;
        } else {
            assert(a * b * c >= m && m * c >= m) by (nonlinear_arith)
                requires a * b >= m, c >= 1, m >= 0;
        }
    }
    if b * c >= m {
        if a == 0 {
            assert(a * (b * c) == 0 && a * m == 0) by (nonlinear_arith) requires a == 0;
        } else {
            assert(a * (b * c) >= m && a * m >= m) by (nonlinear_arith)
                requires b * c >= m, a >= 1, m >= 0;
        }
    }
}

proof fn lemma_saturate_distributive(a: int, b: int, c: int)
    requires
        0 <= a <= u64::MAX,
        0 <= b <= u64::MAX,
        0 <= c <= u64::MAX,
    ensures
        saturate(a * saturate(b + c)) == saturate(saturate(a * b) + saturate(a * c)),
        saturate(saturate(b + c) * a) == saturate(saturate(b * a) + saturate(c * a)),
{
    let m = u64::MAX as int;
    assert(a * b >= 0 && a * c >= 0 && a * (b + c) == a * b + a * c && b * a == a * b && c * a == a * c
        && (b + c) * a == a * (b + c)) by (nonlinear_arith)
        requires a >= 0, b >= 0, c >= 0;
    if b + c >= m {
        if a == 0 {
            assert(a * m == 0 && m * a == 0) by (nonlinear_arith) requires a == 0;
        } else {
            assert(a * m >= m && m * a >= m && a * (b + c) >= m) by (nonlinear_arith)
                requires a >= 1, m >= 0, b + c >= m;
        }
    }
}

impl Semiring for IntegerWeight {
    open spec fn zero_spec() -> Self {
        IntegerWeight { value: 0 }
    }

    open spec fn one_spec() -> Self {
        IntegerWeight { value: 1 }
    }

    open spec fn plus_spec(self, rhs: Self) -> Self {
        IntegerWeight { value: saturate(self.value + rhs.value) }
    }

    open spec fn times_spec(self, rhs: Self) -> Self {
        IntegerWeight { value: saturate(self.value * rhs.value) }
    }

    open spec fn distance_spec(self, rhs: Self) -> nat {
        if self.value <= rhs.value {
            (rhs.value - self.value) as nat
        } else {
            (self.value - rhs.value) as nat
        }
    }

    open spec fn descends() -> bool {
        false
    }

    open spec fn descent_rank(self) -> nat {
        0
    }

    open spec fn properties_spec() -> SemiringProperties {
        SemiringProperties { commutative: true, idempotent: false, path: false }
    }

    proof fn lemma_plus_commutative(a: Self, b: Self) {
    }

    proof fn lemma_plus_associative(a: Self, b: Self, c: Self) {
    }

    proof fn lemma_plus_zero(a: Self) {
    }

    proof fn lemma_times_associative(a: Self, b: Self, c: Self) {
        lemma_saturate_mul_assoc(a.value as int, b.value as int, c.value as int);
    }

    proof fn lemma_times_one(a: Self) {
        assert(1 * a.value == a.value && a.value * 1 == a.value) by (nonlinear_arith);
    }

    proof fn lemma_times_zero(a: Self) {
        assert(0 * a.value == 0 && a.value * 0 == 0) by (nonlinear_arith);
    }

    proof fn lemma_distributive(a: Self, b: Self, c: Self) {
        lemma_saturate_distributive(a.value as int, b.value as int, c.value as int);
    }

    proof fn lemma_distance(a: Self, b: Self) {
    }

    proof fn lemma_descent(a: Self, c: Self) {
    }

    proof fn lemma_descent_idempotent(a: Self) {
    }

    open spec fn cancels() -> bool {
        false
    }

    proof fn lemma_cancel(a: Self, b: Self, x: Self) {
    }

    proof fn lemma_flags_hold() {
    }

    fn is_descending() -> (b: bool) {
        false
    }

    fn zero() -> (r: Self) {
        IntegerWeight { value: 0 }
    }

    fn one() -> (r: Self) {
        IntegerWeight { value: 1 }
    }

    fn plus(&self, rhs: &Self) -> (r: Self) {
        IntegerWeight { value: self.value.saturating_add(rhs.value) }
    }

    fn times(&self, rhs: &Self) -> (r: Self) {
        match self.value.checked_mul(rhs.value) {
            Some(v) => IntegerWeight { value: v },
            None => IntegerWeight { value: u64::MAX },
        }
    }

    fn is_equal(&self, rhs: &Self) -> (b: bool) {
        self.value == rhs.value
    }

    fn approx_equal(&self, rhs: &Self, delta: u64) -> (b: bool) {
        if self.value <= rhs.value {
            rhs.value - self.value <= delta
        } else {
            self.value - rhs.value <= delta
        }
    }

    fn properties() -> (p: SemiringProperties)
        ensures
            p == (SemiringProperties { commutative: true, idempotent: false, path: false }),
    {
        proof {
            assert forall|a: IntegerWeight, b: IntegerWeight| #[trigger]
                a.times_spec(b) == b.times_spec(a) by {
                assert(a.value * b.value == b.value * a.value) by (nonlinear_arith);
            }
        }
        SemiringProperties { commutative: true, idempotent: false, path: false }
    }
}

impl WeightQuantize for IntegerWeight {
    open spec fn quantize_spec(self, delta: u64) -> Self {
        self
    }

    proof fn lemma_quantize_idempotent(a: Self, delta: u64) {
    }

    proof fn lemma_quantize_keeps_zero(a: Self, delta: u64) {
    }

    proof fn lemma_quantize_is_near(a: Self, delta: u64) {
    }

    fn quantize(&self, delta: u64) -> (r: Self) {
        *self
    }
}

/// A count is written as a decimal number.
impl SerializableSemiring for IntegerWeight {
    open spec fn parsed_weight(text: Seq<u8>) -> Option<Self> {
        match parsed_number(text, u64::MAX) {
            Some(value) => Some(IntegerWeight { value }),
            None => None,
        }
    }

    fn parse_text(text: &[u8]) -> (r: Option<Self>) {
        match parse_number(text, u64::MAX) {
            Some(value) => Some(IntegerWeight { value }),
            None => None,
        }
    }
}

} // verus!
