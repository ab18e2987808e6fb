//! The abstract interface of a semiring `(W, ⊕, ⊗, 0̄, 1̄)`.

use vstd::prelude::*;

verus! {

/// Static facts about a semiring that algorithms may test at run time.
#[derive(Clone, Copy, Debug, PartialEq, Eq, Structural)]
pub struct SemiringProperties {
    /// `⊗` is commutative.
    pub commutative: bool,
    /// `a ⊕ a = a` for every `a`.
    pub idempotent: bool,
    /// `a ⊕ b` is always one of `a` and `b`.
    pub path: bool,
}

/// A semiring. `⊕` is a commutative monoid with identity `0̄`, `⊗` is a monoid
/// with identity `1̄`, `⊗` distributes over `⊕` on both sides and `0̄`
/// annihilates `⊗`. Every implementor proves these laws.
///
/// Two weights are the same weight exactly when they are equal as values, so
/// an implementor keeps its representation canonical.
pub trait Semiring: Sized + Copy {
    /// The identity of `⊕`.
    spec fn zero_spec() -> Self;

    /// The identity of `⊗`.
    spec fn one_spec() -> Self;

    /// `self ⊕ rhs`.
    spec fn plus_spec(self, rhs: Self) -> Self;

    /// `self ⊗ rhs`.
    spec fn times_spec(self, rhs: Self) -> Self;

    /// The distance between two weights that `approx_equal` compares with its
    /// tolerance.
    spec fn distance_spec(self, rhs: Self) -> nat;

    /// Whether `⊕` is idempotent and every strict `⊕`-update lowers
    /// `descent_rank`. Where it holds, a value can only be updated finitely
    /// often, which bounds relaxation algorithms on cyclic graphs.
    spec fn descends() -> bool;

    /// The rank that strict `⊕`-updates lower in a descending semiring.
    spec fn descent_rank(self) -> nat;

    /// The static flags of the semiring.
    spec fn properties_spec() -> SemiringProperties;

    proof fn lemma_plus_commutative(a: Self, b: Self)
        ensures
            a.plus_spec(b) == b.plus_spec(a),
    ;

    proof fn lemma_plus_associative(a: Self, b: Self, c: Self)
        ensures
            a.plus_spec(b).plus_spec(c) == a.plus_spec(b.plus_spec(c)),
    ;

    proof fn lemma_plus_zero(a: Self)
        ensures
            Self::zero_spec().plus_spec(a) == a,
            a.plus_spec(Self::zero_spec()) == a,
    ;

    proof fn lemma_times_associative(a: Self, b: Self, c: Self)
        ensures
            a.times_spec(b).times_spec(c) == a.times_spec(b.times_spec(c)),
    ;

    proof fn lemma_times_one(a: Self)
        ensures
            Self::one_spec().times_spec(a) == a,
            a.times_spec(Self::one_spec()) == a,
    ;

    proof fn lemma_times_zero(a: Self)
        ensures
            Self::zero_spec().times_spec(a) == Self::zero_spec(),
            a.times_spec(Self::zero_spec()) == Self::zero_spec(),
    ;

    proof fn lemma_distributive(a: Self, b: Self, c: Self)
        ensures
            a.times_spec(b.plus_spec(c)) == a.times_spec(b).plus_spec(a.times_spec(c)),
            b.plus_spec(c).times_spec(a) == b.times_spec(a).plus_spec(c.times_spec(a)),
    ;

    proof fn lemma_distance(a: Self, b: Self)
        ensures
            a.distance_spec(b) == 0 <==> a == b,
            a.distance_spec(b) == b.distance_spec(a),
    ;

    proof fn lemma_descent(a: Self, c: Self)
        ensures
            Self::descends() && a.plus_spec(c) != a ==> a.plus_spec(c).descent_rank()
                < a.descent_rank(),
    ;

    /// In a semiring that descends `⊕` is idempotent.
    proof fn lemma_descent_idempotent(a: Self)
        ensures
            Self::descends() ==> a.plus_spec(a) == a,
    ;

    /// Whether a factor on the right can be cancelled in the order of `⊕`:
    /// where `a ⊗ x` is not `0̄` and is no worse than `b ⊗ x`, `a` is no worse
    /// than `b`.
    spec fn cancels() -> bool;

    proof fn lemma_cancel(a: Self, b: Self, x: Self)
        ensures
            Self::cancels() && a.times_spec(x) != Self::zero_spec() && a.times_spec(x).plus_spec(
                b.times_spec(x),
            ) == a.times_spec(x) ==> a.plus_spec(b) == a,
    ;

    /// A flag that is set holds.
    proof fn lemma_flags_hold()
        ensures
            Self::properties_spec().commutative ==> forall|a: Self, b: Self| #[trigger]
                a.times_spec(b) == b.times_spec(a),
            Self::properties_spec().idempotent ==> forall|a: Self| #[trigger] a.plus_spec(a) == a,
            Self::properties_spec().path ==> forall|a: Self, b: Self| #[trigger]
                a.plus_spec(b) == a || a.plus_spec(b) == b,
    ;

    fn zero() -> (r: Self)
        ensures
            r == Self::zero_spec(),
    ;

    fn one() -> (r: Self)
        ensures
            r == Self::one_spec(),
    ;

    fn plus(&self, rhs: &Self) -> (r: Self)
        ensures
            r == self.plus_spec(*rhs),
    ;

    fn times(&self, rhs: &Self) -> (r: Self)
        ensures
            r == self.times_spec(*rhs),
    ;

    /// Whether the two weights are the same weight.
    fn is_equal(&self, rhs: &Self) -> (b: bool)
        ensures
            b == (*self == *rhs),
    ;

    /// Whether the two weights differ by at most `delta`.
    fn approx_equal(&self, rhs: &Self, delta: u64) -> (b: bool)
        ensures
            b == (self.distance_spec(*rhs) <= delta),
    ;

    /// The static flags of the semiring; a flag that is set holds.
    fn properties() -> (p: SemiringProperties)
        ensures
            p == Self::properties_spec(),
            p.commutative ==> forall|a: Self, b: Self| #[trigger] a.times_spec(b) == b.times_spec(a),
            p.idempotent ==> forall|a: Self| #[trigger] a.plus_spec(a) == a,
            p.path ==> forall|a: Self, b: Self| #[trigger]
                a.plus_spec(b) == a || a.plus_spec(b) == b,
    ;

    /// Whether every strict `⊕`-update lowers the rank of a weight.
    fn is_descending() -> (b: bool)
        ensures
            b == Self::descends(),
    ;

    fn is_zero(&self) -> (b: bool)
        ensures
            b == (*self == Self::zero_spec()),
    {
        let z = Self::zero();
        self.is_equal(&z)
    }

    fn is_one(&self) -> (b: bool)
        ensures
            b == (*self == Self::one_spec()),
    {
        let o = Self::one();
        self.is_equal(&o)
    }
}

/// `⊗` is commutative in `W`.
pub open spec fn is_commutative<W: Semiring>() -> bool {
    forall|a: W, b: W| #[trigger] a.times_spec(b) == b.times_spec(a)
}

/// `⊕` is idempotent in `W`.
pub open spec fn is_idempotent<W: Semiring>() -> bool {
    forall|a: W| #[trigger] a.plus_spec(a) == a
}

/// `⊕` selects one of its operands in `W`.
pub open spec fn has_path_property<W: Semiring>() -> bool {
    forall|a: W, b: W| #[trigger] a.plus_spec(b) == a || a.plus_spec(b) == b
}

/// What the flags of a semiring promise: each flag that is set names a law
/// that holds.
pub proof fn lemma_flags_name_laws<W: Semiring>()
    ensures
        W::properties_spec().commutative ==> is_commutative::<W>(),
        W::properties_spec().idempotent ==> is_idempotent::<W>(),
        W::properties_spec().path ==> has_path_property::<W>(),
{
    W::lemma_flags_hold();
}

/// No two non-zero weights of `W` sum to `0̄`.
pub open spec fn is_zero_sum_free<W: Semiring>() -> bool {
    forall|a: W, b: W| #[trigger] a.plus_spec(b) == W::zero_spec() ==> a == W::zero_spec() && b == W::zero_spec()
}

/// No two non-zero weights of `W` multiply to `0̄`.
pub open spec fn has_no_zero_divisors<W: Semiring>() -> bool {
    forall|a: W, b: W| #[trigger] a.times_spec(b) == W::zero_spec() ==> a == W::zero_spec() || b == W::zero_spec()
}

/// Which side a division removes a factor from.
#[derive(Clone, Copy, Debug, PartialEq, Eq, Structural)]
pub enum DivideType {
    /// `divide(a, b)` is a `c` with `b ⊗ c = a`.
    DivideLeft,
    /// `divide(a, b)` is a `c` with `c ⊗ b = a`.
    DivideRight,
    /// Either side; only meaningful where `⊗` is commutative.
    DivideAny,
}

/// What `c` must satisfy to be the quotient of `a` by `b` on the given side.
pub open spec fn is_quotient<W: Semiring>(a: W, b: W, c: W, divide_type: DivideType) -> bool {
    match divide_type {
        DivideType::DivideLeft => b.times_spec(c) == a,
        DivideType::DivideRight => c.times_spec(b) == a,
        DivideType::DivideAny => b.times_spec(c) == a && c.times_spec(b) == a,
    }
}

/// A semiring in which a sum divides its summands: whenever `a ⊕ b ≠ 0̄`
/// there is a `c` with `(a ⊕ b) ⊗ c = a`.
pub trait WeaklyDivisibleSemiring: Semiring {
    /// The quotient of `self` by `rhs`, where the semiring defines one.
    spec fn divide_spec(self, rhs: Self, divide_type: DivideType) -> Option<Self>;

    proof fn lemma_divide_is_quotient(a: Self, b: Self, divide_type: DivideType)
        ensures
            a.divide_spec(b, divide_type) matches Some(c) ==> is_quotient(a, b, c, divide_type),
    ;

    proof fn lemma_sum_divides(a: Self, b: Self, divide_type: DivideType)
        requires
            a.plus_spec(b) != Self::zero_spec(),
        ensures
            a.divide_spec(a.plus_spec(b), divide_type) is Some,
    ;

    /// Divides `self` by `rhs`; `None` where the semiring defines no quotient,
    /// as for a division by `0̄`.
    fn divide(&self, rhs: &Self, divide_type: DivideType) -> (r: Option<Self>)
        ensures
            r == self.divide_spec(*rhs, divide_type),
    ;
}

/// A semiring whose weights can be binned into classes of width `delta`, so
/// that weights that differ by rounding noise become the same value.
pub trait WeightQuantize: Semiring {
    /// The representative of the class of `self`.
    spec fn quantize_spec(self, delta: u64) -> Self;

    proof fn lemma_quantize_idempotent(a: Self, delta: u64)
        ensures
            a.quantize_spec(delta).quantize_spec(delta) == a.quantize_spec(delta),
    ;

    /// Binning puts `0̄` in a bin of its own.
    proof fn lemma_quantize_keeps_zero(a: Self, delta: u64)
        ensures
            a.quantize_spec(delta) == Self::zero_spec() <==> a == Self::zero_spec(),
    ;

    /// Binning moves a weight by less than the width of the bins, if it moves
    /// it at all.
    proof fn lemma_quantize_is_near(a: Self, delta: u64)
        ensures
            a.quantize_spec(delta) == a || a.distance_spec(a.quantize_spec(delta)) < delta,
    ;

    fn quantize(&self, delta: u64) -> (r: Self)
        ensures
            r == self.quantize_spec(delta),
    ;
}

/// A semiring whose weights can be written as text.
pub trait SerializableSemiring: Semiring {
    /// The weight that the text stands for, where it stands for one.
    spec fn parsed_weight(text: Seq<u8>) -> Option<Self>;

    /// Reads a weight.
    fn parse_text(text: &[u8]) -> (r: Option<Self>)
        ensures
            r == Self::parsed_weight(text@),
    ;
}

} // verus!
