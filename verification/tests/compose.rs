use rustfst::algorithms::compose::compose;
use rustfst::fst_impls::vector_fst::VectorFst;
use rustfst::fst_properties::FstProperties;
use rustfst::fst_traits::{Fst, MutableFst};
use rustfst::semirings::integer_weight::IntegerWeight;
use rustfst::semirings::semiring::Semiring;
use rustfst::semirings::tropical_weight::TropicalWeight;
use rustfst::symbol_table::SymbolTable;
use rustfst::tr::{Tr, EPS_LABEL};
use std::sync::Arc;

fn i(value: u64) -> IntegerWeight {
    IntegerWeight::new(value)
}

/// The sum of the weights of the successful paths from `state` that spell
/// `x` on the input side and `y` on the output side, in a transducer
/// without cycles.
fn weight_from(fst: &VectorFst<IntegerWeight>, state: usize, x: &[u32], y: &[u32]) -> u64 {
    let mut sum = 0;
    if x.is_empty() && y.is_empty() {
        if let Some(w) = fst.final_weight(state).unwrap() {
            sum += w.value;
        }
    }
    for tr in fst.get_trs(state).unwrap() {
        let x2 = if tr.ilabel == EPS_LABEL {
            Some(x)
        } else if !x.is_empty() && x[0] == tr.ilabel {
            Some(&x[1..])
        } else {
            None
        };
        let y2 = if tr.olabel == EPS_LABEL {
            Some(y)
        } else if !y.is_empty() && y[0] == tr.olabel {
            Some(&y[1..])
        } else {
            None
        };
        if let (Some(x2), Some(y2)) = (x2, y2) {
            sum += tr.weight.value * weight_from(fst, tr.nextstate, x2, y2);
        }
    }
    sum
}

fn pair_weight(fst: &VectorFst<IntegerWeight>, x: &[u32], y: &[u32]) -> u64 {
    match fst.start() {
        Some(s) => weight_from(fst, s, x, y),
        None => 0,
    }
}

#[test]
fn matching_labels_are_taken_together() {
    let w = TropicalWeight::new;
    let mut a: VectorFst<TropicalWeight> = VectorFst::new();
    a.add_states(2);
    a.set_start(0).unwrap();
    a.add_tr(0, Tr::new(1, 2, w(2), 1)).unwrap();
    a.add_tr(0, Tr::new(1, 9, w(1), 1)).unwrap();
    a.set_final(1, w(4)).unwrap();
    let mut b: VectorFst<TropicalWeight> = VectorFst::new();
    b.add_states(2);
    b.set_start(0).unwrap();
    b.add_tr(0, Tr::new(2, 3, w(3), 1)).unwrap();
    b.set_final(1, w(5)).unwrap();
    let c: VectorFst<TropicalWeight> = compose(&a, &b).unwrap();
    assert_eq!(c.num_states(), 2);
    assert_eq!(c.start(), Some(0));
    assert_eq!(c.get_trs(0).unwrap().to_vec(), vec![Tr::new(1, 3, w(5), 1)]);
    assert_eq!(c.get_trs(1).unwrap().to_vec(), vec![]);
    assert_eq!(c.final_weight(0), Ok(None));
    assert_eq!(c.final_weight(1), Ok(Some(w(9))));
    assert_eq!(c.properties(), FstProperties::empty());
}

#[test]
fn the_symbols_are_the_outer_ones() {
    let mut inner = SymbolTable::new();
    inner.add_symbol("y");
    let mut outer_in = SymbolTable::new();
    outer_in.add_symbol("x");
    let mut outer_out = SymbolTable::new();
    outer_out.add_symbol("z");
    let mut a: VectorFst<TropicalWeight> = VectorFst::new();
    a.add_state();
    a.set_start(0).unwrap();
    a.set_input_symbols(Arc::new(outer_in));
    a.set_output_symbols(Arc::new(inner));
    let mut b: VectorFst<TropicalWeight> = VectorFst::new();
    b.add_state();
    b.set_start(0).unwrap();
    b.set_output_symbols(Arc::new(outer_out));
    let c: VectorFst<TropicalWeight> = compose(&a, &b).unwrap();
    assert_eq!(c.input_symbols().unwrap().get_label("x"), Some(1));
    assert_eq!(c.output_symbols().unwrap().get_label("z"), Some(1));
    assert_eq!(c.num_states(), 1);
}

#[test]
fn without_a_start_state_the_composition_is_empty() {
    let mut a: VectorFst<TropicalWeight> = VectorFst::new();
    a.add_states(2);
    a.set_start(0).unwrap();
    let mut b: VectorFst<TropicalWeight> = VectorFst::new();
    b.add_states(2);
    let c: VectorFst<TropicalWeight> = compose(&a, &b).unwrap();
    assert_eq!(c.num_states(), 0);
    assert_eq!(c.start(), None);
    let d: VectorFst<TropicalWeight> = compose(&b, &a).unwrap();
    assert_eq!(d.num_states(), 0);
}

/// a b : ε ε, each transition with weight 1 but the last, which has 2
fn eats() -> VectorFst<IntegerWeight> {
    let mut a = VectorFst::new();
    a.add_states(3);
    a.set_start(0).unwrap();
    a.add_tr(0, Tr::new(1, EPS_LABEL, i(1), 1)).unwrap();
    a.add_tr(1, Tr::new(2, EPS_LABEL, i(2), 2)).unwrap();
    a.set_final(2, i(1)).unwrap();
    a
}

/// ε ε ε : c d e, each transition with weight 1 but the first, which has 3
fn spits() -> VectorFst<IntegerWeight> {
    let mut b = VectorFst::new();
    b.add_states(4);
    b.set_start(0).unwrap();
    b.add_tr(0, Tr::new(EPS_LABEL, 3, i(3), 1)).unwrap();
    b.add_tr(1, Tr::new(EPS_LABEL, 4, i(1), 2)).unwrap();
    b.add_tr(2, Tr::new(EPS_LABEL, 5, i(1), 3)).unwrap();
    b.set_final(3, i(1)).unwrap();
    b
}

#[test]
fn runs_of_epsilon_transitions_are_taken_in_one_order_only() {
    let a = eats();
    let b = spits();
    let c: VectorFst<IntegerWeight> = compose(&a, &b).unwrap();
    // one path in each of the two, so one path in the composition
    assert_eq!(pair_weight(&a, &[1, 2], &[]), 2);
    assert_eq!(pair_weight(&b, &[], &[3, 4, 5]), 3);
    assert_eq!(pair_weight(&c, &[1, 2], &[3, 4, 5]), 6);
    assert_eq!(pair_weight(&c, &[1, 2], &[3, 4]), 0);
    assert_eq!(pair_weight(&c, &[1], &[3, 4, 5]), 0);
    let d: VectorFst<IntegerWeight> = compose(&b, &a).unwrap();
    // the inner string of `b` is never empty, that of `a` always is
    assert_eq!(pair_weight(&d, &[], &[]), 0);
}

#[test]
fn the_start_state_stands_for_the_two_start_states() {
    let a = eats();
    let b = spits();
    let c: VectorFst<IntegerWeight> = compose(&a, &b).unwrap();
    assert_eq!(c.start(), Some(0));
    // together, then the second alone, then the first alone
    assert_eq!(
        c.get_trs(0).unwrap().to_vec(),
        vec![Tr::new(1, 3, i(3), 1), Tr::new(EPS_LABEL, 3, i(3), 2), Tr::new(1, EPS_LABEL, i(1), 3)]
    );
}

#[test]
fn the_inner_strings_are_summed_over() {
    // a maps x to y1 with weight 2 and to y2 with weight 3;
    // b maps y1 to z with weight 5 and y2 to z with weight 7
    let mut a: VectorFst<IntegerWeight> = VectorFst::new();
    a.add_states(2);
    a.set_start(0).unwrap();
    a.add_tr(0, Tr::new(1, 11, i(2), 1)).unwrap();
    a.add_tr(0, Tr::new(1, 12, i(3), 1)).unwrap();
    a.set_final(1, i(1)).unwrap();
    let mut b: VectorFst<IntegerWeight> = VectorFst::new();
    b.add_states(2);
    b.set_start(0).unwrap();
    b.add_tr(0, Tr::new(11, 9, i(5), 1)).unwrap();
    b.add_tr(0, Tr::new(12, 9, i(7), 1)).unwrap();
    b.add_tr(0, Tr::new(13, 9, i(100), 1)).unwrap();
    b.set_final(1, i(1)).unwrap();
    let c: VectorFst<IntegerWeight> = compose(&a, &b).unwrap();
    assert_eq!(pair_weight(&c, &[1], &[9]), 2 * 5 + 3 * 7);
    assert_eq!(c.num_states(), 2);
    assert_eq!(
        c.get_trs(0).unwrap().to_vec(),
        vec![Tr::new(1, 9, i(10), 1), Tr::new(1, 9, i(21), 1)]
    );
}

#[test]
fn epsilon_on_one_side_waits_for_the_other() {
    // a: x:y then ε:y2 ; b: y:z then y2:z2 with an ε:e in between
    let mut a: VectorFst<IntegerWeight> = VectorFst::new();
    a.add_states(3);
    a.set_start(0).unwrap();
    a.add_tr(0, Tr::new(1, 11, i(2), 1)).unwrap();
    a.add_tr(1, Tr::new(EPS_LABEL, 12, i(3), 2)).unwrap();
    a.set_final(2, i(1)).unwrap();
    let mut b: VectorFst<IntegerWeight> = VectorFst::new();
    b.add_states(4);
    b.set_start(0).unwrap();
    b.add_tr(0, Tr::new(11, 21, i(5), 1)).unwrap();
    b.add_tr(1, Tr::new(EPS_LABEL, 22, i(7), 2)).unwrap();
    b.add_tr(2, Tr::new(12, 23, i(11), 3)).unwrap();
    b.set_final(3, i(1)).unwrap();
    let c: VectorFst<IntegerWeight> = compose(&a, &b).unwrap();
    assert_eq!(pair_weight(&c, &[1], &[21, 22, 23]), 2 * 3 * 5 * 7 * 11);
    assert_eq!(pair_weight(&c, &[1], &[21, 23]), 0);
}
