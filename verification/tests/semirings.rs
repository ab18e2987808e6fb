use rustfst::semirings::boolean_weight::BooleanWeight;
use rustfst::semirings::integer_weight::IntegerWeight;
use rustfst::semirings::semiring::{
    DivideType, Semiring, SemiringProperties, WeaklyDivisibleSemiring, WeightQuantize,
};
use rustfst::semirings::tropical_weight::{TropicalWeight, TROPICAL_INFINITY};

#[test]
fn tropical_is_min_plus() {
    let a = TropicalWeight::new(3);
    let b = TropicalWeight::new(5);
    assert_eq!(a.plus(&b), TropicalWeight::new(3));
    assert_eq!(b.plus(&a), TropicalWeight::new(3));
    assert_eq!(a.times(&b), TropicalWeight::new(8));
    assert_eq!(TropicalWeight::zero(), TropicalWeight::new(TROPICAL_INFINITY));
    assert_eq!(TropicalWeight::one(), TropicalWeight::new(0));
    assert_eq!(TropicalWeight::zero().plus(&a), a);
    assert_eq!(TropicalWeight::one().times(&a), a);
    assert_eq!(TropicalWeight::zero().times(&a), TropicalWeight::zero());
    assert!(TropicalWeight::zero().is_zero());
    assert!(TropicalWeight::one().is_one());
}

#[test]
fn tropical_sum_reaching_infinity_is_infinity() {
    let a = TropicalWeight::new(u64::MAX - 1);
    let b = TropicalWeight::new(1);
    assert_eq!(a.times(&b), TropicalWeight::zero());
    assert_eq!(a.times(&a), TropicalWeight::zero());
}

#[test]
fn tropical_divide_is_subtraction() {
    let a = TropicalWeight::new(7);
    let b = TropicalWeight::new(4);
    assert_eq!(a.divide(&b, DivideType::DivideLeft), Some(TropicalWeight::new(3)));
    assert_eq!(b.divide(&a, DivideType::DivideLeft), None);
    assert_eq!(a.divide(&TropicalWeight::zero(), DivideType::DivideAny), None);
    assert_eq!(
        TropicalWeight::zero().divide(&a, DivideType::DivideRight),
        Some(TropicalWeight::zero())
    );
    let c = a.plus(&b);
    let q = a.divide(&c, DivideType::DivideLeft).unwrap();
    assert_eq!(c.times(&q), a);
}

#[test]
fn tropical_quantize_bins_costs() {
    assert_eq!(TropicalWeight::new(17).quantize(5), TropicalWeight::new(15));
    assert_eq!(TropicalWeight::new(15).quantize(5), TropicalWeight::new(15));
    assert_eq!(TropicalWeight::new(17).quantize(1), TropicalWeight::new(17));
    assert_eq!(TropicalWeight::new(17).quantize(0), TropicalWeight::new(17));
    assert_eq!(TropicalWeight::zero().quantize(5), TropicalWeight::zero());
}

#[test]
fn approx_equal_compares_within_delta() {
    assert!(TropicalWeight::new(10).approx_equal(&TropicalWeight::new(12), 2));
    assert!(!TropicalWeight::new(10).approx_equal(&TropicalWeight::new(13), 2));
    assert!(IntegerWeight::new(5).approx_equal(&IntegerWeight::new(5), 0));
    assert!(!IntegerWeight::new(5).approx_equal(&IntegerWeight::new(6), 0));
    assert!(BooleanWeight::new(true).approx_equal(&BooleanWeight::new(true), 0));
    assert!(!BooleanWeight::new(true).approx_equal(&BooleanWeight::new(false), 0));
}

#[test]
fn integer_is_plus_times() {
    let a = IntegerWeight::new(18);
    let b = IntegerWeight::new(55);
    assert_eq!(a.plus(&b), IntegerWeight::new(73));
    assert_eq!(a.times(&b), IntegerWeight::new(990));
    assert_eq!(IntegerWeight::zero(), IntegerWeight::new(0));
    assert_eq!(IntegerWeight::one(), IntegerWeight::new(1));
    assert_eq!(IntegerWeight::new(21).plus(&a.times(&b)), IntegerWeight::new(1011));
    assert_eq!(a.value(), 18);
}

#[test]
fn integer_saturates() {
    let big = IntegerWeight::new(u64::MAX);
    assert_eq!(big.plus(&IntegerWeight::new(1)), big);
    assert_eq!(big.times(&IntegerWeight::new(2)), big);
    assert_eq!(big.times(&IntegerWeight::zero()), IntegerWeight::zero());
    assert_eq!(
        IntegerWeight::new(1 << 40).times(&IntegerWeight::new(1 << 40)),
        big
    );
}

#[test]
fn boolean_is_or_and() {
    let t = BooleanWeight::new(true);
    let f = BooleanWeight::new(false);
    assert_eq!(t.plus(&f), t);
    assert_eq!(f.plus(&f), f);
    assert_eq!(t.times(&f), f);
    assert_eq!(t.times(&t), t);
    assert_eq!(BooleanWeight::zero(), f);
    assert_eq!(BooleanWeight::one(), t);
    assert_eq!(t.divide(&t, DivideType::DivideLeft), Some(t));
    assert_eq!(t.divide(&f, DivideType::DivideLeft), None);
    assert_eq!(f.quantize(3), f);
    assert!(t.value());
}

#[test]
fn semiring_flags() {
    assert_eq!(
        TropicalWeight::properties(),
        SemiringProperties { commutative: true, idempotent: true, path: true }
    );
    assert_eq!(
        BooleanWeight::properties(),
        SemiringProperties { commutative: true, idempotent: true, path: true }
    );
    assert_eq!(
        IntegerWeight::properties(),
        SemiringProperties { commutative: true, idempotent: false, path: false }
    );
}
