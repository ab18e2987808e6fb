use rustfst::algorithms::rm_epsilon::rm_epsilon;
use rustfst::error::FstError;
use rustfst::fst_impls::vector_fst::VectorFst;
use rustfst::fst_properties::FstProperties;
use rustfst::fst_traits::{Fst, MutableFst};
use rustfst::semirings::integer_weight::IntegerWeight;
use rustfst::semirings::semiring::Semiring;
use rustfst::semirings::tropical_weight::TropicalWeight;
use rustfst::tr::{Tr, EPS_LABEL};

fn w(value: u64) -> TropicalWeight {
    TropicalWeight::new(value)
}

/// 0 -ε/1-> 1 -a/2-> 2, 1 -ε/1-> 2, 0 -b/4-> 2, state 2 final with weight 3.
fn with_epsilons() -> VectorFst<TropicalWeight> {
    let mut fst = VectorFst::new();
    fst.add_states(3);
    fst.set_start(0).unwrap();
    fst.add_tr(0, Tr::new(EPS_LABEL, EPS_LABEL, w(1), 1)).unwrap();
    fst.add_tr(0, Tr::new(2, 2, w(4), 2)).unwrap();
    fst.add_tr(1, Tr::new(1, 1, w(2), 2)).unwrap();
    fst.add_tr(1, Tr::new(EPS_LABEL, EPS_LABEL, w(1), 2)).unwrap();
    fst.set_final(2, w(3)).unwrap();
    fst
}

#[test]
fn each_state_gets_what_its_epsilon_transitions_lead_to() {
    let fst = with_epsilons();
    let out: VectorFst<TropicalWeight> = rm_epsilon(&fst).unwrap();
    assert_eq!(out.num_states(), 3);
    assert_eq!(out.start(), Some(0));
    assert_eq!(
        out.get_trs(0).unwrap().to_vec(),
        vec![Tr::new(2, 2, w(4), 2), Tr::new(1, 1, w(3), 2)]
    );
    assert_eq!(out.final_weight(0), Ok(Some(w(5))));
    assert_eq!(out.get_trs(1).unwrap().to_vec(), vec![Tr::new(1, 1, w(2), 2)]);
    assert_eq!(out.final_weight(1), Ok(Some(w(4))));
    assert_eq!(out.get_trs(2).unwrap().to_vec(), vec![]);
    assert_eq!(out.final_weight(2), Ok(Some(w(3))));
    assert_eq!(out.properties(), FstProperties::empty());
}

#[test]
fn a_transition_with_one_epsilon_label_stays() {
    let mut fst: VectorFst<TropicalWeight> = VectorFst::new();
    fst.add_states(2);
    fst.set_start(0).unwrap();
    fst.add_tr(0, Tr::new(EPS_LABEL, 7, w(1), 1)).unwrap();
    fst.add_tr(0, Tr::new(7, EPS_LABEL, w(2), 1)).unwrap();
    fst.set_final(1, TropicalWeight::one()).unwrap();
    let out: VectorFst<TropicalWeight> = rm_epsilon(&fst).unwrap();
    assert_eq!(
        out.get_trs(0).unwrap().to_vec(),
        vec![Tr::new(EPS_LABEL, 7, w(1), 1), Tr::new(7, EPS_LABEL, w(2), 1)]
    );
    assert_eq!(out.final_weight(0), Ok(None));
    assert_eq!(out.final_weight(1), Ok(Some(TropicalWeight::one())));
}

#[test]
fn a_cycle_of_epsilon_transitions_is_closed_where_weights_settle() {
    let mut fst: VectorFst<TropicalWeight> = VectorFst::new();
    fst.add_states(2);
    fst.set_start(0).unwrap();
    fst.add_tr(0, Tr::new(EPS_LABEL, EPS_LABEL, w(1), 1)).unwrap();
    fst.add_tr(1, Tr::new(EPS_LABEL, EPS_LABEL, w(1), 0)).unwrap();
    fst.add_tr(1, Tr::new(5, 5, w(2), 1)).unwrap();
    fst.set_final(0, w(7)).unwrap();
    let out: VectorFst<TropicalWeight> = rm_epsilon(&fst).unwrap();
    assert_eq!(out.get_trs(0).unwrap().to_vec(), vec![Tr::new(5, 5, w(3), 1)]);
    assert_eq!(out.final_weight(0), Ok(Some(w(7))));
    assert_eq!(out.get_trs(1).unwrap().to_vec(), vec![Tr::new(5, 5, w(2), 1)]);
    assert_eq!(out.final_weight(1), Ok(Some(w(8))));
}

#[test]
fn a_cycle_of_epsilon_transitions_is_refused_where_weights_do_not_settle() {
    let mut fst: VectorFst<IntegerWeight> = VectorFst::new();
    fst.add_states(2);
    fst.set_start(0).unwrap();
    fst.add_tr(0, Tr::new(EPS_LABEL, EPS_LABEL, IntegerWeight::new(1), 1)).unwrap();
    fst.add_tr(1, Tr::new(EPS_LABEL, EPS_LABEL, IntegerWeight::new(1), 0)).unwrap();
    let r: Result<VectorFst<IntegerWeight>, FstError> = rm_epsilon(&fst);
    assert_eq!(r.err(), Some(FstError::NotConvergent));
}

#[test]
fn paths_are_counted_through_epsilon_transitions() {
    // two ε-paths from 0 to 2, each of weight 1 · 1
    let i = IntegerWeight::new;
    let mut fst: VectorFst<IntegerWeight> = VectorFst::new();
    fst.add_states(4);
    fst.set_start(0).unwrap();
    fst.add_tr(0, Tr::new(EPS_LABEL, EPS_LABEL, i(1), 1)).unwrap();
    fst.add_tr(0, Tr::new(EPS_LABEL, EPS_LABEL, i(1), 3)).unwrap();
    fst.add_tr(1, Tr::new(EPS_LABEL, EPS_LABEL, i(1), 2)).unwrap();
    fst.add_tr(3, Tr::new(EPS_LABEL, EPS_LABEL, i(1), 2)).unwrap();
    fst.add_tr(2, Tr::new(9, 9, i(5), 2)).unwrap();
    fst.set_final(2, i(3)).unwrap();
    let out: VectorFst<IntegerWeight> = rm_epsilon(&fst).unwrap();
    assert_eq!(out.get_trs(0).unwrap().to_vec(), vec![Tr::new(9, 9, i(10), 2)]);
    assert_eq!(out.final_weight(0), Ok(Some(i(6))));
    assert_eq!(out.get_trs(1).unwrap().to_vec(), vec![Tr::new(9, 9, i(5), 2)]);
    assert_eq!(out.final_weight(1), Ok(Some(i(3))));
    assert_eq!(out.get_trs(2).unwrap().to_vec(), vec![Tr::new(9, 9, i(5), 2)]);
}
