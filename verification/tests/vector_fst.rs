use rustfst::algorithms::tr_map::{tr_map, IdentityTrMapper, RmWeightMapper, TimesMapper};
use rustfst::error::FstError;
use rustfst::fst_impls::vector_fst::VectorFst;
use rustfst::fst_properties::{
    FstProperties, ACCEPTOR, ACCEPTOR_BIT, ACYCLIC, ACYCLIC_BIT, CYCLIC, CYCLIC_BIT, EPSILONS_BIT,
    I_DETERMINISTIC_BIT, I_EPSILONS_BIT, I_LABEL_SORTED_BIT, NOT_ACCEPTOR_BIT,
    NOT_I_DETERMINISTIC_BIT, NOT_I_LABEL_SORTED_BIT, NOT_TOP_SORTED_BIT, NO_EPSILONS_BIT,
    NO_O_EPSILONS_BIT, TOP_SORTED, TOP_SORTED_BIT, UNWEIGHTED_BIT, WEIGHTED_BIT,
};
use rustfst::fst_traits::{Fst, MutableFst};
use rustfst::semirings::boolean_weight::BooleanWeight;
use rustfst::semirings::integer_weight::IntegerWeight;
use rustfst::semirings::semiring::Semiring;
use rustfst::semirings::tropical_weight::TropicalWeight;
use rustfst::tr::Tr;

fn three_states() -> VectorFst<IntegerWeight> {
    let mut fst = VectorFst::new();
    let s0 = fst.add_state();
    let s1 = fst.add_state();
    let s2 = fst.add_state();
    fst.set_start(s0).unwrap();
    fst.add_tr(s0, Tr::new(1, 1, IntegerWeight::new(2), s1)).unwrap();
    fst.add_tr(s0, Tr::new(2, 2, IntegerWeight::new(3), s2)).unwrap();
    fst.add_tr(s1, Tr::new(3, 3, IntegerWeight::new(5), s2)).unwrap();
    fst.add_tr(s2, Tr::new(4, 4, IntegerWeight::new(7), s2)).unwrap();
    fst.set_final(s2, IntegerWeight::new(11)).unwrap();
    fst
}

#[test]
fn new_fst_is_empty() {
    let fst: VectorFst<BooleanWeight> = VectorFst::new();
    assert_eq!(fst.num_states(), 0);
    assert_eq!(fst.start(), None);
    assert_eq!(fst.final_weight(0), Err(FstError::StateNotFound(0)));
}

#[test]
fn add_state_returns_the_next_index() {
    let mut fst: VectorFst<BooleanWeight> = VectorFst::new();
    assert_eq!(fst.add_state(), 0);
    assert_eq!(fst.add_state(), 1);
    fst.add_states(3);
    assert_eq!(fst.num_states(), 5);
    assert_eq!(fst.num_trs(4), Ok(0));
    assert_eq!(fst.final_weight(4), Ok(None));
}

#[test]
fn set_start_replaces_the_start_state() {
    let mut fst: VectorFst<BooleanWeight> = VectorFst::new();
    let s1 = fst.add_state();
    let s2 = fst.add_state();
    assert_eq!(fst.start(), None);
    fst.set_start(s1).unwrap();
    assert_eq!(fst.start(), Some(s1));
    assert!(fst.is_start(s1));
    fst.set_start(s2).unwrap();
    assert_eq!(fst.start(), Some(s2));
    assert!(!fst.is_start(s1));
    assert_eq!(fst.set_start(2), Err(FstError::StateNotFound(2)));
    assert_eq!(fst.start(), Some(s2));
}

#[test]
fn set_final_and_final_weight_agree_with_is_final() {
    let mut fst: VectorFst<BooleanWeight> = VectorFst::new();
    let s1 = fst.add_state();
    let s2 = fst.add_state();
    assert_eq!(fst.final_weight(s1).unwrap(), None);
    assert_eq!(fst.final_weight(s2).unwrap(), None);
    fst.set_final(s1, BooleanWeight::one()).unwrap();
    assert_eq!(fst.final_weight(s1).unwrap(), Some(BooleanWeight::one()));
    assert_eq!(fst.final_weight(s2).unwrap(), None);
    for s in 0..fst.num_states() {
        assert_eq!(fst.final_weight(s).unwrap().is_some(), fst.is_final(s).unwrap());
    }
    assert_eq!(fst.is_final(7), Err(FstError::StateNotFound(7)));
    assert_eq!(
        fst.set_final(9, BooleanWeight::one()),
        Err(FstError::StateNotFound(9))
    );
}

#[test]
fn final_weight_zero_means_not_final() {
    let mut fst: VectorFst<IntegerWeight> = VectorFst::new();
    let s = fst.add_state();
    fst.set_final(s, IntegerWeight::new(4)).unwrap();
    assert_eq!(fst.is_final(s), Ok(true));
    fst.set_final(s, IntegerWeight::zero()).unwrap();
    assert_eq!(fst.final_weight(s), Ok(None));
    assert_eq!(fst.is_final(s), Ok(false));
}

#[test]
fn take_and_delete_final_weight() {
    let mut fst: VectorFst<IntegerWeight> = VectorFst::new();
    let s1 = fst.add_state();
    fst.set_final(s1, IntegerWeight::new(12)).unwrap();
    assert_eq!(fst.final_weight(s1).unwrap(), Some(IntegerWeight::new(12)));
    let weight = fst.take_final_weight(s1).unwrap();
    assert_eq!(weight, Some(IntegerWeight::new(12)));
    assert_eq!(fst.final_weight(s1).unwrap(), None);
    fst.set_final(s1, IntegerWeight::new(3)).unwrap();
    fst.delete_final_weight(s1).unwrap();
    assert_eq!(fst.final_weight(s1).unwrap(), None);
    assert_eq!(fst.take_final_weight(5), Err(FstError::StateNotFound(5)));
    assert_eq!(fst.delete_final_weight(5), Err(FstError::StateNotFound(5)));
}

#[test]
fn add_tr_appends_and_checks_both_states() {
    let mut fst: VectorFst<IntegerWeight> = VectorFst::new();
    let s1 = fst.add_state();
    let s2 = fst.add_state();
    assert_eq!(fst.num_trs(s1).unwrap(), 0);
    fst.add_tr(s1, Tr::new(3, 5, IntegerWeight::new(12), s2)).unwrap();
    assert_eq!(fst.num_trs(s1).unwrap(), 1);
    fst.emplace_tr(s1, 4, 6, IntegerWeight::new(2), s1).unwrap();
    assert_eq!(fst.num_trs(s1).unwrap(), 2);
    assert_eq!(
        fst.get_trs(s1).unwrap().to_vec(),
        vec![
            Tr::new(3, 5, IntegerWeight::new(12), s2),
            Tr::new(4, 6, IntegerWeight::new(2), s1)
        ]
    );
    assert_eq!(
        fst.add_tr(2, Tr::new(1, 1, IntegerWeight::one(), s1)),
        Err(FstError::StateNotFound(2))
    );
    assert_eq!(
        fst.add_tr(s1, Tr::new(1, 1, IntegerWeight::one(), 8)),
        Err(FstError::StateNotFound(8))
    );
    assert_eq!(fst.num_trs(s1).unwrap(), 2);
    assert_eq!(fst.num_trs(2), Err(FstError::StateNotFound(2)));
}

#[test]
fn num_trs_is_the_length_of_get_trs() {
    let fst = three_states();
    for s in 0..fst.num_states() {
        assert_eq!(fst.num_trs(s).unwrap(), fst.get_trs(s).unwrap().len());
        assert_eq!(fst.num_trs_unchecked(s), fst.get_trs_unchecked(s).len());
    }
    assert!(fst.get_trs(3).is_err());
}

#[test]
fn pop_and_delete_trs() {
    let mut fst = three_states();
    let popped = fst.pop_trs(0).unwrap();
    assert_eq!(
        popped,
        vec![
            Tr::new(1, 1, IntegerWeight::new(2), 1),
            Tr::new(2, 2, IntegerWeight::new(3), 2)
        ]
    );
    assert_eq!(fst.num_trs(0), Ok(0));
    fst.delete_trs(1).unwrap();
    assert_eq!(fst.num_trs(1), Ok(0));
    assert_eq!(fst.num_trs(2), Ok(1));
    assert_eq!(fst.pop_trs(3), Err(FstError::StateNotFound(3)));
    assert_eq!(fst.delete_trs(3), Err(FstError::StateNotFound(3)));
}

#[test]
fn del_state_renumbers_and_drops_incoming_transitions() {
    let mut fst = three_states();
    fst.del_state(1).unwrap();
    assert_eq!(fst.num_states(), 2);
    assert_eq!(fst.start(), Some(0));
    assert_eq!(
        fst.get_trs(0).unwrap().to_vec(),
        vec![Tr::new(2, 2, IntegerWeight::new(3), 1)]
    );
    assert_eq!(
        fst.get_trs(1).unwrap().to_vec(),
        vec![Tr::new(4, 4, IntegerWeight::new(7), 1)]
    );
    assert_eq!(fst.final_weight(1), Ok(Some(IntegerWeight::new(11))));
    assert_eq!(fst.del_state(2), Err(FstError::StateNotFound(2)));
}

#[test]
fn del_states_treats_duplicates_as_one_deletion() {
    let mut fst = three_states();
    fst.del_states(&[0, 0, 1, 0]).unwrap();
    assert_eq!(fst.num_states(), 1);
    assert_eq!(fst.start(), None);
    assert_eq!(
        fst.get_trs(0).unwrap().to_vec(),
        vec![Tr::new(4, 4, IntegerWeight::new(7), 0)]
    );
}

#[test]
fn del_states_with_a_missing_state_changes_nothing() {
    let mut fst = three_states();
    let before = fst.clone();
    assert_eq!(fst.del_states(&[1, 5, 9]), Err(FstError::StateNotFound(5)));
    assert_eq!(fst, before);
}

#[test]
fn del_states_example_removes_everything() {
    let mut fst: VectorFst<BooleanWeight> = VectorFst::new();
    let s1 = fst.add_state();
    let s2 = fst.add_state();
    assert_eq!(fst.num_states(), 2);
    fst.del_states(&[s1, s2]).unwrap();
    assert_eq!(fst.num_states(), 0);
}

#[test]
fn del_all_states_keeps_nothing_but_symbols() {
    let mut fst = three_states();
    fst.del_all_states();
    assert_eq!(fst.num_states(), 0);
    assert_eq!(fst.start(), None);
    assert!(fst.properties().has(ACYCLIC_BIT));
}

#[test]
fn set_trs_replaces_transitions_and_forgets_properties() {
    let mut fst = three_states();
    fst.set_trs_unchecked(0, vec![Tr::new(9, 9, IntegerWeight::one(), 2)]);
    assert_eq!(
        fst.get_trs(0).unwrap().to_vec(),
        vec![Tr::new(9, 9, IntegerWeight::one(), 2)]
    );
    assert_eq!(fst.properties(), FstProperties::empty());
}

#[test]
fn num_epsilons_counts_labels_zero() {
    let mut fst: VectorFst<IntegerWeight> = VectorFst::new();
    let s = fst.add_state();
    fst.add_tr(s, Tr::new(0, 1, IntegerWeight::one(), s)).unwrap();
    fst.add_tr(s, Tr::new(0, 0, IntegerWeight::one(), s)).unwrap();
    fst.add_tr(s, Tr::new(2, 0, IntegerWeight::one(), s)).unwrap();
    fst.add_tr(s, Tr::new(0, 3, IntegerWeight::one(), s)).unwrap();
    assert_eq!(fst.num_input_epsilons(s), Ok(3));
    assert_eq!(fst.num_output_epsilons(s), Ok(2));
    assert_eq!(fst.num_input_epsilons(1), Err(FstError::StateNotFound(1)));
}

#[test]
fn properties_follow_each_added_transition() {
    let mut fst: VectorFst<IntegerWeight> = VectorFst::new();
    let s0 = fst.add_state();
    let s1 = fst.add_state();
    let p = fst.properties();
    assert!(p.has(ACCEPTOR_BIT) && p.has(TOP_SORTED_BIT) && p.has(ACYCLIC_BIT));
    assert!(p.has(I_DETERMINISTIC_BIT) && p.has(UNWEIGHTED_BIT));

    fst.add_tr(s0, Tr::new(1, 1, IntegerWeight::one(), s1)).unwrap();
    let p = fst.properties();
    assert!(p.has(ACCEPTOR_BIT) && p.has(TOP_SORTED_BIT) && p.has(UNWEIGHTED_BIT));
    assert!(p.has(NO_EPSILONS_BIT) && p.has(I_LABEL_SORTED_BIT));
    assert!(!p.has(ACYCLIC_BIT) && !p.has(I_DETERMINISTIC_BIT));

    fst.add_tr(s0, Tr::new(0, 2, IntegerWeight::new(5), s0)).unwrap();
    let p = fst.properties();
    assert!(p.has(NOT_ACCEPTOR_BIT) && !p.has(ACCEPTOR_BIT));
    assert!(p.has(NOT_TOP_SORTED_BIT) && !p.has(TOP_SORTED_BIT));
    assert!(p.has(WEIGHTED_BIT) && !p.has(UNWEIGHTED_BIT));
    assert!(p.has(I_EPSILONS_BIT) && !p.has(EPSILONS_BIT) && p.has(NO_O_EPSILONS_BIT));
    assert!(p.has(NOT_I_LABEL_SORTED_BIT) && !p.has(I_LABEL_SORTED_BIT));
}

#[test]
fn compute_and_update_properties_finds_the_facts() {
    let mut fst = three_states();
    let all = fst.compute_and_update_properties_all().unwrap();
    assert!(all.has(ACCEPTOR_BIT));
    assert!(all.has(CYCLIC_BIT) && !all.has(ACYCLIC_BIT));
    assert!(all.has(NOT_TOP_SORTED_BIT));
    assert!(all.has(I_DETERMINISTIC_BIT) && !all.has(NOT_I_DETERMINISTIC_BIT));
    assert!(all.has(I_LABEL_SORTED_BIT));
    assert!(all.has(WEIGHTED_BIT));
    assert_eq!(fst.properties(), all);

    let masked = fst
        .compute_and_update_properties(FstProperties::new(ACCEPTOR | CYCLIC | ACYCLIC | TOP_SORTED))
        .unwrap();
    assert_eq!(masked, FstProperties::new(ACCEPTOR | CYCLIC));
}

#[test]
fn compute_properties_sees_duplicate_labels() {
    let mut fst: VectorFst<IntegerWeight> = VectorFst::new();
    let s0 = fst.add_state();
    let s1 = fst.add_state();
    fst.add_tr(s0, Tr::new(1, 1, IntegerWeight::one(), s1)).unwrap();
    fst.add_tr(s0, Tr::new(1, 1, IntegerWeight::one(), s1)).unwrap();
    let all = fst.compute_and_update_properties_all().unwrap();
    assert!(all.has(NOT_I_DETERMINISTIC_BIT));
    assert!(all.has(ACYCLIC_BIT) && all.has(TOP_SORTED_BIT));
}

#[test]
fn set_properties_with_mask_touches_only_the_mask() {
    let mut fst = three_states();
    fst.set_properties(FstProperties::empty());
    fst.set_properties_with_mask(
        FstProperties::new(ACCEPTOR | CYCLIC | TOP_SORTED),
        FstProperties::new(ACCEPTOR | CYCLIC),
    );
    assert_eq!(fst.properties(), FstProperties::new(ACCEPTOR | CYCLIC));
}

#[test]
fn property_sets_behave_as_sets() {
    let a = FstProperties::new(ACCEPTOR | CYCLIC);
    let b = FstProperties::new(CYCLIC | TOP_SORTED);
    assert_eq!(a.union(b), FstProperties::new(ACCEPTOR | CYCLIC | TOP_SORTED));
    assert_eq!(a.intersection(b), FstProperties::new(CYCLIC));
    assert_eq!(a.difference(b), FstProperties::new(ACCEPTOR));
    assert!(a.contains(FstProperties::new(ACCEPTOR)));
    assert!(!a.contains(b));
    assert!(a.has(ACCEPTOR_BIT) && !a.has(TOP_SORTED_BIT));
    assert_eq!(FstProperties::empty().insert_bit(ACCEPTOR_BIT), FstProperties::new(ACCEPTOR));
    assert_eq!(a.remove_bit(ACCEPTOR_BIT), FstProperties::new(CYCLIC));
}

#[test]
fn one_transition_is_replaced_in_place() {
    let mut fst: VectorFst<TropicalWeight> = VectorFst::new();
    fst.add_states(2);
    fst.set_start(0).unwrap();
    fst.add_tr(0, Tr::new(1, 1, TropicalWeight::new(2), 1)).unwrap();
    fst.add_tr(0, Tr::new(3, 3, TropicalWeight::new(4), 1)).unwrap();
    fst.set_tr_unchecked(0, 1, Tr::new(5, 6, TropicalWeight::new(7), 0));
    assert_eq!(
        fst.get_trs(0).unwrap().to_vec(),
        vec![Tr::new(1, 1, TropicalWeight::new(2), 1), Tr::new(5, 6, TropicalWeight::new(7), 0)]
    );
    assert_eq!(fst.properties(), FstProperties::empty());
    assert_eq!(fst.start(), Some(0));
}

#[test]
fn a_mapper_changes_every_transition_and_final_weight() {
    let mut fst: VectorFst<TropicalWeight> = VectorFst::new();
    fst.add_states(2);
    fst.set_start(0).unwrap();
    fst.add_tr(0, Tr::new(1, 2, TropicalWeight::new(2), 1)).unwrap();
    fst.add_tr(1, Tr::new(3, 4, TropicalWeight::new(4), 0)).unwrap();
    fst.set_final(1, TropicalWeight::new(5)).unwrap();
    let before = fst.clone();
    fst.tr_map(&IdentityTrMapper {}).unwrap();
    assert_eq!(fst.get_trs(0).unwrap().to_vec(), before.get_trs(0).unwrap().to_vec());
    assert_eq!(fst.final_weight(1), before.final_weight(1));
    let mut plus_three = fst.clone();
    tr_map(&mut plus_three, &TimesMapper { to_multiply: TropicalWeight::new(3) }).unwrap();
    assert_eq!(
        plus_three.get_trs(0).unwrap().to_vec(),
        vec![Tr::new(1, 2, TropicalWeight::new(5), 1)]
    );
    assert_eq!(
        plus_three.get_trs(1).unwrap().to_vec(),
        vec![Tr::new(3, 4, TropicalWeight::new(7), 0)]
    );
    assert_eq!(plus_three.final_weight(1), Ok(Some(TropicalWeight::new(8))));
    assert_eq!(plus_three.final_weight(0), Ok(None));
    fst.tr_map(&RmWeightMapper {}).unwrap();
    assert_eq!(fst.get_trs(0).unwrap().to_vec(), vec![Tr::new(1, 2, TropicalWeight::one(), 1)]);
    assert_eq!(fst.final_weight(1), Ok(Some(TropicalWeight::one())));
    assert_eq!(fst.properties(), FstProperties::empty());
}

#[test]
fn checked_operations_on_transitions_report_a_missing_state() {
    let mut fst: VectorFst<TropicalWeight> = VectorFst::new();
    fst.add_states(2);
    fst.set_start(0).unwrap();
    fst.add_tr(0, Tr::new(2, 2, TropicalWeight::new(4), 1)).unwrap();
    fst.add_tr(0, Tr::new(1, 1, TropicalWeight::new(2), 1)).unwrap();
    fst.add_tr(0, Tr::new(1, 1, TropicalWeight::new(2), 1)).unwrap();
    let before = fst.clone();
    let by_label = |a: &Tr<TropicalWeight>, b: &Tr<TropicalWeight>| a.ilabel.cmp(&b.ilabel);
    assert_eq!(fst.sort_trs(2, &by_label), Err(FstError::StateNotFound(2)));
    assert_eq!(fst.unique_trs(5), Err(FstError::StateNotFound(5)));
    assert_eq!(fst.sum_trs(9), Err(FstError::StateNotFound(9)));
    assert_eq!(
        fst.set_tr(2, 0, Tr::new(1, 1, TropicalWeight::one(), 0)),
        Err(FstError::StateNotFound(2))
    );
    assert_eq!(
        fst.set_tr(0, 0, Tr::new(1, 1, TropicalWeight::one(), 7)),
        Err(FstError::StateNotFound(7))
    );
    assert_eq!(
        fst.set_tr(0, 3, Tr::new(1, 1, TropicalWeight::one(), 0)),
        Err(FstError::InvalidInput)
    );
    assert_eq!(fst, before);
    assert_eq!(fst.sort_trs(0, &by_label), Ok(()));
    assert_eq!(
        fst.get_trs(0).unwrap().to_vec(),
        vec![
            Tr::new(1, 1, TropicalWeight::new(2), 1),
            Tr::new(1, 1, TropicalWeight::new(2), 1),
            Tr::new(2, 2, TropicalWeight::new(4), 1)
        ]
    );
    assert_eq!(fst.unique_trs(0), Ok(()));
    assert_eq!(fst.num_trs(0), Ok(2));
    assert_eq!(fst.set_tr(0, 1, Tr::new(1, 1, TropicalWeight::new(5), 1)), Ok(()));
    assert_eq!(fst.sum_trs(0), Ok(()));
    assert_eq!(fst.get_trs(0).unwrap().to_vec(), vec![Tr::new(1, 1, TropicalWeight::new(2), 1)]);
}
