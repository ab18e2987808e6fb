use rustfst::algorithms::reweight::{can_reweight, reweight, ReweightType};
use rustfst::algorithms::weight_pushing::push_weights;
use rustfst::error::FstError;
use rustfst::fst_impls::const_fst::ConstFst;
use rustfst::fst_impls::vector_fst::VectorFst;
use rustfst::fst_properties::FstProperties;
use rustfst::fst_traits::{Fst, MutableFst};
use rustfst::semirings::boolean_weight::BooleanWeight;
use rustfst::semirings::semiring::Semiring;
use rustfst::semirings::tropical_weight::TropicalWeight;
use rustfst::tr::{Tr, EPS_LABEL};
use rustfst::validation::{is_graph_well_formed, is_well_formed};

fn w(value: u64) -> TropicalWeight {
    TropicalWeight::new(value)
}

/// 0 -a/2-> 1 -c/1-> 2, 0 -b/5-> 2, state 2 final with weight 3; state 3
/// leads nowhere.
fn diamond() -> VectorFst<TropicalWeight> {
    let mut fst = VectorFst::new();
    fst.add_states(4);
    fst.set_start(0).unwrap();
    fst.add_tr(0, Tr::new(1, 1, w(2), 1)).unwrap();
    fst.add_tr(0, Tr::new(2, 2, w(5), 2)).unwrap();
    fst.add_tr(1, Tr::new(3, 3, w(1), 2)).unwrap();
    fst.add_tr(1, Tr::new(4, 4, w(9), 3)).unwrap();
    fst.set_final(2, w(3)).unwrap();
    fst
}

#[test]
fn reweighting_toward_the_start_takes_the_potential_off_each_state() {
    let mut fst = diamond();
    let potentials = vec![w(6), w(4), w(3), TropicalWeight::zero()];
    assert!(can_reweight(&fst, &potentials, ReweightType::ReweightToInitial));
    reweight(&mut fst, &potentials, ReweightType::ReweightToInitial).unwrap();
    assert_eq!(
        fst.get_trs(0).unwrap().to_vec(),
        vec![Tr::new(1, 1, w(0), 1), Tr::new(2, 2, w(2), 2)]
    );
    assert_eq!(
        fst.get_trs(1).unwrap().to_vec(),
        vec![Tr::new(3, 3, w(0), 2), Tr::new(4, 4, w(9), 3)]
    );
    assert_eq!(fst.final_weight(2), Ok(Some(w(0))));
    assert_eq!(fst.start(), Some(0));
    assert_eq!(fst.num_states(), 4);
    assert_eq!(fst.properties(), FstProperties::empty());
}

#[test]
fn reweighting_toward_the_final_states_puts_the_potential_on_each_state() {
    let mut fst = diamond();
    let potentials = vec![w(0), w(2), w(3), w(11)];
    reweight(&mut fst, &potentials, ReweightType::ReweightToFinal).unwrap();
    assert_eq!(
        fst.get_trs(0).unwrap().to_vec(),
        vec![Tr::new(1, 1, w(0), 1), Tr::new(2, 2, w(2), 2)]
    );
    assert_eq!(
        fst.get_trs(1).unwrap().to_vec(),
        vec![Tr::new(3, 3, w(0), 2), Tr::new(4, 4, w(0), 3)]
    );
    assert_eq!(fst.final_weight(2), Ok(Some(w(6))));
}

#[test]
fn potentials_that_do_not_fit_are_refused() {
    let mut fst = diamond();
    let before = fst.clone();
    let short = vec![w(6), w(4), w(3)];
    assert!(!can_reweight(&fst, &short, ReweightType::ReweightToInitial));
    assert_eq!(
        reweight(&mut fst, &short, ReweightType::ReweightToInitial),
        Err(FstError::InvalidInput)
    );
    assert_eq!(fst, before);
    // 2 + 4 cannot be divided by 7
    let large = vec![w(7), w(4), w(3), w(1)];
    assert!(!can_reweight(&fst, &large, ReweightType::ReweightToInitial));
    assert_eq!(
        reweight(&mut fst, &large, ReweightType::ReweightToInitial),
        Err(FstError::InvalidInput)
    );
    assert_eq!(fst, before);
}

#[test]
fn pushing_toward_the_start_state_keeps_the_weight_of_each_path() {
    let mut fst = diamond();
    push_weights(&mut fst, ReweightType::ReweightToInitial).unwrap();
    assert_eq!(fst.num_states(), 5);
    assert_eq!(fst.start(), Some(4));
    assert_eq!(fst.get_trs(4).unwrap().to_vec(), vec![Tr::new(EPS_LABEL, EPS_LABEL, w(6), 0)]);
    assert_eq!(
        fst.get_trs(0).unwrap().to_vec(),
        vec![Tr::new(1, 1, w(0), 1), Tr::new(2, 2, w(2), 2)]
    );
    // the transition to the state that leads nowhere keeps its weight
    assert_eq!(
        fst.get_trs(1).unwrap().to_vec(),
        vec![Tr::new(3, 3, w(0), 2), Tr::new(4, 4, w(9), 3)]
    );
    assert_eq!(fst.final_weight(2), Ok(Some(w(0))));
    assert_eq!(fst.final_weight(4), Ok(None));
    // the pair (a c, a c) had 2 + 1 + 3 and has 6 + 0 + 0 + 0
    // the pair (b, b) had 5 + 3 and has 6 + 2 + 0
    assert!(is_well_formed(&fst));
}

#[test]
fn pushing_toward_the_final_states_keeps_the_weight_of_each_path() {
    let mut fst = diamond();
    push_weights(&mut fst, ReweightType::ReweightToFinal).unwrap();
    assert_eq!(fst.num_states(), 4);
    assert_eq!(fst.start(), Some(0));
    assert_eq!(
        fst.get_trs(0).unwrap().to_vec(),
        vec![Tr::new(1, 1, w(0), 1), Tr::new(2, 2, w(2), 2)]
    );
    assert_eq!(
        fst.get_trs(1).unwrap().to_vec(),
        vec![Tr::new(3, 3, w(0), 2), Tr::new(4, 4, w(0), 3)]
    );
    assert_eq!(fst.final_weight(2), Ok(Some(w(6))));
}

#[test]
fn pushing_a_transducer_without_start_state_changes_no_weight() {
    let mut fst = diamond();
    fst.unset_start();
    let before = fst.clone();
    push_weights(&mut fst, ReweightType::ReweightToFinal).unwrap();
    assert_eq!(fst.num_states(), 4);
    for s in 0..4 {
        assert_eq!(fst.get_trs(s).unwrap().to_vec(), before.get_trs(s).unwrap().to_vec());
        assert_eq!(fst.final_weight(s), before.final_weight(s));
    }
}

#[test]
fn a_transducer_in_one_array_reads_like_the_one_it_was_made_from() {
    let fst = diamond();
    let fixed = ConstFst::from_fst(&fst);
    assert_eq!(fixed.num_states(), 4);
    assert_eq!(fixed.start(), Some(0));
    for s in 0..4 {
        assert_eq!(fixed.get_trs(s).unwrap().to_vec(), fst.get_trs(s).unwrap().to_vec());
        assert_eq!(fixed.num_trs(s), fst.num_trs(s));
        assert_eq!(fixed.final_weight(s), fst.final_weight(s));
        assert_eq!(fixed.is_final(s), fst.is_final(s));
    }
    assert_eq!(fixed.get_trs(4).err(), Some(FstError::StateNotFound(4)));
    assert_eq!(fixed.num_trs(4), Err(FstError::StateNotFound(4)));
    assert_eq!(fixed.final_weight(7), Err(FstError::StateNotFound(7)));
    assert_eq!(fixed.properties(), fst.properties());
    assert!(fixed.input_symbols().is_none());
    assert!(is_well_formed(&fixed));
}

#[test]
fn well_formed_transducers_pass_the_test() {
    let fst = diamond();
    assert!(is_graph_well_formed(&fst));
    assert!(is_well_formed(&fst));
    let empty: VectorFst<BooleanWeight> = VectorFst::new();
    assert!(is_well_formed(&empty));
    assert!(TropicalWeight::is_descending());
    assert!(BooleanWeight::is_descending());
}
