use rustfst::algorithms::inversion::invert;
use rustfst::algorithms::rational::{closure, union, ClosureType};
use rustfst::algorithms::reweight::ReweightType;
use rustfst::algorithms::rm_epsilon::rm_epsilon;
use rustfst::algorithms::weight_pushing::push_weights;
use rustfst::fst_impls::vector_fst::VectorFst;
use rustfst::fst_traits::{Fst, MutableFst};
use rustfst::semirings::integer_weight::IntegerWeight;
use rustfst::semirings::semiring::Semiring;
use rustfst::semirings::tropical_weight::TropicalWeight;
use rustfst::tr::{Tr, EPS_LABEL};

/// What is left of `x` when a transition with label `l` was taken.
fn consume(l: u32, x: &[u32]) -> Option<&[u32]> {
    if l == EPS_LABEL {
        Some(x)
    } else if !x.is_empty() && x[0] == l {
        Some(&x[1..])
    } else {
        None
    }
}

/// The sum of the weights of the successful paths from `s` with `k`
/// transitions at most that spell the pair `(x, y)`.
fn weight_from<W: Semiring>(fst: &VectorFst<W>, s: usize, x: &[u32], y: &[u32], k: usize) -> W {
    let mut sum = W::zero();
    if x.is_empty() && y.is_empty() {
        if let Some(w) = fst.final_weight(s).unwrap() {
            sum = sum.plus(&w);
        }
    }
    if k > 0 {
        for tr in fst.get_trs(s).unwrap() {
            if let (Some(x2), Some(y2)) = (consume(tr.ilabel, x), consume(tr.olabel, y)) {
                let rest = weight_from(fst, tr.nextstate, x2, y2, k - 1);
                sum = sum.plus(&tr.weight.times(&rest));
            }
        }
    }
    sum
}

fn pair_weight<W: Semiring>(fst: &VectorFst<W>, x: &[u32], y: &[u32], k: usize) -> W {
    match fst.start() {
        Some(s) => weight_from(fst, s, x, y, k),
        None => W::zero(),
    }
}

fn i(value: u64) -> IntegerWeight {
    IntegerWeight::new(value)
}

/// Maps 1 to 7 with weight 2 and 1 2 to 7 8 with weight 2 · 3 · 5.
fn first() -> VectorFst<IntegerWeight> {
    let mut fst = VectorFst::new();
    fst.add_states(3);
    fst.set_start(0).unwrap();
    fst.add_tr(0, Tr::new(1, 7, i(2), 1)).unwrap();
    fst.add_tr(1, Tr::new(2, 8, i(3), 2)).unwrap();
    fst.set_final(1, i(1)).unwrap();
    fst.set_final(2, i(5)).unwrap();
    fst
}

/// Maps 1 to 7 with weight 11, on two paths.
fn second() -> VectorFst<IntegerWeight> {
    let mut fst = VectorFst::new();
    fst.add_states(2);
    fst.set_start(0).unwrap();
    fst.add_tr(0, Tr::new(1, 7, i(4), 1)).unwrap();
    fst.add_tr(0, Tr::new(1, 7, i(7), 1)).unwrap();
    fst.set_final(1, i(1)).unwrap();
    fst
}

#[test]
fn the_inverted_transducer_maps_the_strings_the_other_way() {
    let fst = first();
    let mut inverted = fst.clone();
    invert(&mut inverted).unwrap();
    for k in 0..4 {
        assert_eq!(pair_weight(&inverted, &[7, 8], &[1, 2], k), pair_weight(&fst, &[1, 2], &[7, 8], k));
        assert_eq!(pair_weight(&inverted, &[7], &[1], k), pair_weight(&fst, &[1], &[7], k));
    }
    assert_eq!(pair_weight(&inverted, &[7, 8], &[1, 2], 2), i(30));
    assert_eq!(pair_weight(&inverted, &[1, 2], &[7, 8], 2), i(0));
}

#[test]
fn the_union_sums_the_weights_of_its_parts() {
    let a = first();
    let b = second();
    let mut both = a.clone();
    union(&mut both, &b).unwrap();
    for k in 0..4 {
        assert_eq!(
            pair_weight(&both, &[1], &[7], k + 1),
            pair_weight(&a, &[1], &[7], k).plus(&pair_weight(&b, &[1], &[7], k))
        );
        assert_eq!(
            pair_weight(&both, &[1, 2], &[7, 8], k + 1),
            pair_weight(&a, &[1, 2], &[7, 8], k).plus(&pair_weight(&b, &[1, 2], &[7, 8], k))
        );
    }
    assert_eq!(pair_weight(&both, &[1], &[7], 2), i(13));
}

#[test]
fn the_closure_star_accepts_the_empty_string() {
    let mut fst = first();
    assert_eq!(pair_weight(&fst, &[], &[], 3), i(0));
    closure(&mut fst, ClosureType::ClosureStar).unwrap();
    assert_eq!(pair_weight(&fst, &[], &[], 0), IntegerWeight::one());
    // 1 : 7 twice, each time with weight 2, on three transitions and one
    // that leads back
    assert_eq!(pair_weight(&fst, &[1, 1], &[7, 7], 4), i(4));
}

#[test]
fn the_closure_plus_does_not_accept_the_empty_string() {
    let mut fst = first();
    closure(&mut fst, ClosureType::ClosurePlus).unwrap();
    assert_eq!(pair_weight(&fst, &[], &[], 5), i(0));
    assert_eq!(pair_weight(&fst, &[1], &[7], 1), i(2));
    assert_eq!(pair_weight(&fst, &[1, 1], &[7, 7], 3), i(4));
}

#[test]
fn pushed_weights_give_each_pair_of_strings_its_weight() {
    let w = TropicalWeight::new;
    let mut fst: VectorFst<TropicalWeight> = VectorFst::new();
    fst.add_states(3);
    fst.set_start(0).unwrap();
    fst.add_tr(0, Tr::new(1, 1, w(2), 1)).unwrap();
    fst.add_tr(0, Tr::new(2, 2, w(5), 2)).unwrap();
    fst.add_tr(1, Tr::new(3, 3, w(1), 2)).unwrap();
    fst.add_tr(1, Tr::new(4, 4, w(9), 1)).unwrap();
    fst.set_final(2, w(3)).unwrap();
    let mut pushed = fst.clone();
    push_weights(&mut pushed, ReweightType::ReweightToInitial).unwrap();
    // a new start state makes up for the distance 6 of the old one
    assert_eq!(pushed.num_states(), 4);
    let pairs: Vec<Vec<u32>> = vec![vec![1, 3], vec![2], vec![1, 4, 3], vec![1, 4, 4, 3], vec![1]];
    for x in &pairs {
        for k in 0..5 {
            assert_eq!(pair_weight(&pushed, x, x, k + 1), pair_weight(&fst, x, x, k));
        }
    }
    assert_eq!(pair_weight(&pushed, &[1, 4, 3], &[1, 4, 3], 4), w(15));
    let mut to_final = fst.clone();
    push_weights(&mut to_final, ReweightType::ReweightToFinal).unwrap();
    for x in &pairs {
        assert_eq!(pair_weight(&to_final, x, x, 5), pair_weight(&fst, x, x, 5));
    }
}

#[test]
fn without_epsilon_transitions_each_pair_of_strings_keeps_its_weight() {
    let mut fst: VectorFst<IntegerWeight> = VectorFst::new();
    fst.add_states(4);
    fst.set_start(0).unwrap();
    fst.add_tr(0, Tr::new(EPS_LABEL, EPS_LABEL, i(2), 1)).unwrap();
    fst.add_tr(0, Tr::new(EPS_LABEL, EPS_LABEL, i(3), 2)).unwrap();
    fst.add_tr(1, Tr::new(1, 7, i(5), 3)).unwrap();
    fst.add_tr(2, Tr::new(1, 7, i(7), 3)).unwrap();
    fst.add_tr(2, Tr::new(EPS_LABEL, EPS_LABEL, i(1), 3)).unwrap();
    fst.add_tr(3, Tr::new(2, 8, i(1), 0)).unwrap();
    fst.set_final(3, i(11)).unwrap();
    let out: VectorFst<IntegerWeight> = rm_epsilon(&fst).unwrap();
    // paths of the first have up to two ε-transitions for each other one
    assert_eq!(pair_weight(&out, &[], &[], 0), pair_weight(&fst, &[], &[], 2));
    assert_eq!(pair_weight(&out, &[1], &[7], 1), pair_weight(&fst, &[1], &[7], 4));
    assert_eq!(pair_weight(&out, &[1], &[7], 1), i((2 * 5 + 3 * 7) * 11));
    assert_eq!(pair_weight(&out, &[], &[], 0), i(3 * 11));
    assert_eq!(pair_weight(&out, &[1, 2, 1], &[7, 8, 7], 3), pair_weight(&fst, &[1, 2, 1], &[7, 8, 7], 9));
}
