use rustfst::algorithms::determinize::determinize_fsa::DeterminizeFsa;
use rustfst::algorithms::determinize::divisors::{CommonDivisor, DefaultCommonDivisor};
use rustfst::algorithms::determinize::subset::{
    canonicalize, collect_items, collect_labels, DeterminizeElement,
};
use rustfst::algorithms::lazy::simple_vec_cache::{CacheStatus, SimpleVecCache};
use rustfst::error::FstError;
use rustfst::fst_impls::vector_fst::VectorFst;
use rustfst::fst_properties::{I_DETERMINISTIC_BIT, I_LABEL_SORTED_BIT};
use rustfst::fst_traits::{Fst, MutableFst};
use rustfst::semirings::boolean_weight::BooleanWeight;
use rustfst::semirings::semiring::{Semiring, WeightQuantize};
use rustfst::semirings::tropical_weight::TropicalWeight;
use rustfst::symbol_table::SymbolTable;
use rustfst::tr::Tr;
use std::sync::Arc;

type TropicalDet = DeterminizeFsa<TropicalWeight, VectorFst<TropicalWeight>, DefaultCommonDivisor>;

fn ambiguous() -> VectorFst<TropicalWeight> {
    let a = 1;
    let b = 2;
    let mut fst = VectorFst::new();
    fst.add_states(4);
    fst.set_start(0).unwrap();
    fst.add_tr(0, Tr::new(a, a, TropicalWeight::new(1), 1)).unwrap();
    fst.add_tr(0, Tr::new(a, a, TropicalWeight::new(3), 2)).unwrap();
    fst.add_tr(1, Tr::new(b, b, TropicalWeight::new(5), 3)).unwrap();
    fst.add_tr(2, Tr::new(b, b, TropicalWeight::new(2), 3)).unwrap();
    fst.set_final(3, TropicalWeight::one()).unwrap();
    fst
}

#[test]
fn test_determinize_fsa_sync() {
    fn is_sync<T: Sync>() {}
    is_sync::<DeterminizeFsa<TropicalWeight, VectorFst<TropicalWeight>, DefaultCommonDivisor>>();
}

#[test]
fn determinize_an_ambiguous_tropical_acceptor() {
    let mut det = TropicalDet::new(ambiguous(), None).unwrap();
    let dfst: VectorFst<TropicalWeight> = det.compute().unwrap();
    assert_eq!(dfst.start(), Some(0));
    assert_eq!(dfst.num_states(), 3);
    // exactly one a-transition out of the start state, with weight min(1, 3)
    assert_eq!(dfst.get_trs(0).unwrap().to_vec(), vec![Tr::new(1, 1, TropicalWeight::new(1), 1)]);
    // its b-transition has weight min(5 - 1 + ..., ...) = 4
    assert_eq!(dfst.get_trs(1).unwrap().to_vec(), vec![Tr::new(2, 2, TropicalWeight::new(4), 2)]);
    assert_eq!(dfst.get_trs(2).unwrap().to_vec(), vec![]);
    assert_eq!(dfst.final_weight(2), Ok(Some(TropicalWeight::one())));
    assert_eq!(dfst.final_weight(0), Ok(None));
    assert_eq!(dfst.final_weight(1), Ok(None));
    // the weight of the one path for "a b" is that of the best path of the input
    let total = TropicalWeight::new(1).times(&TropicalWeight::new(4));
    assert_eq!(total, TropicalWeight::new(5));
    assert!(dfst.properties().has(I_DETERMINISTIC_BIT));
    assert!(dfst.properties().has(I_LABEL_SORTED_BIT));
}

#[test]
fn determinize_lazily_state_by_state() {
    let mut det = TropicalDet::new(ambiguous(), None).unwrap();
    assert_eq!(det.num_known_states(), 0);
    assert_eq!(det.get_trs(0), Err(FstError::StateNotFound(0)));
    assert_eq!(det.start(), Ok(Some(0)));
    assert_eq!(det.num_known_states(), 1);
    assert_eq!(det.final_weight(0), Ok(None));
    let trs = det.get_trs(0).unwrap();
    assert_eq!(trs, vec![Tr::new(1, 1, TropicalWeight::new(1), 1)]);
    assert_eq!(det.num_known_states(), 2);
    // asking again gives the same answer and meets no further state
    assert_eq!(det.get_trs(0).unwrap(), trs);
    assert_eq!(det.start(), Ok(Some(0)));
    assert_eq!(det.num_known_states(), 2);
    assert_eq!(det.num_trs(1), Ok(1));
    assert_eq!(det.num_known_states(), 3);
    assert_eq!(det.final_weight(2), Ok(Some(TropicalWeight::one())));
    assert_eq!(det.final_weight(3), Err(FstError::StateNotFound(3)));
}

#[test]
fn determinize_merges_equal_subsets() {
    // two ways to read "a" that end in the same state with the same residual
    let mut fst: VectorFst<TropicalWeight> = VectorFst::new();
    fst.add_states(3);
    fst.set_start(0).unwrap();
    fst.add_tr(0, Tr::new(1, 1, TropicalWeight::new(2), 1)).unwrap();
    fst.add_tr(0, Tr::new(1, 1, TropicalWeight::new(2), 1)).unwrap();
    fst.add_tr(0, Tr::new(2, 2, TropicalWeight::new(7), 1)).unwrap();
    fst.add_tr(1, Tr::new(1, 1, TropicalWeight::new(1), 1)).unwrap();
    fst.set_final(1, TropicalWeight::new(3)).unwrap();
    let mut det = TropicalDet::new(fst, None).unwrap();
    let dfst: VectorFst<TropicalWeight> = det.compute().unwrap();
    assert_eq!(dfst.num_states(), 2);
    assert_eq!(
        dfst.get_trs(0).unwrap().to_vec(),
        vec![
            Tr::new(1, 1, TropicalWeight::new(2), 1),
            Tr::new(2, 2, TropicalWeight::new(7), 1)
        ]
    );
    assert_eq!(dfst.get_trs(1).unwrap().to_vec(), vec![Tr::new(1, 1, TropicalWeight::new(1), 1)]);
    assert_eq!(dfst.final_weight(1), Ok(Some(TropicalWeight::new(3))));
}

#[test]
fn determinize_without_start_state_is_empty() {
    let mut fst: VectorFst<TropicalWeight> = VectorFst::new();
    fst.add_states(2);
    fst.add_tr(0, Tr::new(1, 1, TropicalWeight::new(2), 1)).unwrap();
    let mut det = TropicalDet::new(fst, None).unwrap();
    let dfst: VectorFst<TropicalWeight> = det.compute().unwrap();
    assert_eq!(dfst.num_states(), 0);
    assert_eq!(dfst.start(), None);
}

#[test]
fn determinize_refuses_a_transducer() {
    let mut fst = ambiguous();
    fst.add_tr(3, Tr::new(1, 2, TropicalWeight::one(), 3)).unwrap();
    assert!(matches!(TropicalDet::new(fst, None), Err(FstError::PropertyViolation)));
}

#[test]
fn determinize_refuses_distances_of_the_wrong_length() {
    let dist = vec![TropicalWeight::one(); 3];
    assert!(matches!(
        TropicalDet::new(ambiguous(), Some(dist)),
        Err(FstError::InvalidInput)
    ));
}

#[test]
fn determinize_with_distance() {
    // distances to the final state in the input
    let in_dist = vec![
        TropicalWeight::new(5),
        TropicalWeight::new(5),
        TropicalWeight::new(2),
        TropicalWeight::new(0),
    ];
    let det = TropicalDet::new(ambiguous(), Some(in_dist)).unwrap();
    let (dfst, out_dist): (VectorFst<TropicalWeight>, Vec<TropicalWeight>) =
        det.compute_with_distance().unwrap();
    assert_eq!(dfst.num_states(), 3);
    // {(0, 0)} -> 5, {(1, 0), (2, 2)} -> min(0 + 5, 2 + 2), {(3, 0)} -> 0
    assert_eq!(
        out_dist,
        vec![TropicalWeight::new(5), TropicalWeight::new(4), TropicalWeight::new(0)]
    );
}

#[test]
fn out_dist_needs_distances() {
    let mut det = TropicalDet::new(ambiguous(), None).unwrap();
    let _: VectorFst<TropicalWeight> = det.compute().unwrap();
    assert_eq!(det.out_dist(), Err(FstError::InvalidInput));
}

#[test]
fn determinize_gives_up_when_the_budget_is_used() {
    // two cycles that read the same label at different costs: the residual of
    // the dearer one grows without end
    let mut fst: VectorFst<TropicalWeight> = VectorFst::new();
    fst.add_states(3);
    fst.set_start(0).unwrap();
    fst.add_tr(0, Tr::new(1, 1, TropicalWeight::new(0), 1)).unwrap();
    fst.add_tr(0, Tr::new(1, 1, TropicalWeight::new(0), 2)).unwrap();
    fst.add_tr(1, Tr::new(2, 2, TropicalWeight::new(1), 1)).unwrap();
    fst.add_tr(2, Tr::new(2, 2, TropicalWeight::new(2), 2)).unwrap();
    fst.set_final(1, TropicalWeight::one()).unwrap();
    fst.set_final(2, TropicalWeight::one()).unwrap();
    let mut det = TropicalDet::new(fst, None).unwrap();
    det.set_max_states(50);
    let r: Result<VectorFst<TropicalWeight>, FstError> = det.compute();
    assert_eq!(r.err(), Some(FstError::NotConvergent));
    assert_eq!(det.num_known_states(), 50);
}

#[test]
fn determinize_boolean_acceptor() {
    let mut fst: VectorFst<BooleanWeight> = VectorFst::new();
    fst.add_states(3);
    fst.set_start(0).unwrap();
    fst.add_tr(0, Tr::new(1, 1, BooleanWeight::one(), 1)).unwrap();
    fst.add_tr(0, Tr::new(1, 1, BooleanWeight::one(), 2)).unwrap();
    fst.add_tr(1, Tr::new(1, 1, BooleanWeight::one(), 1)).unwrap();
    fst.add_tr(2, Tr::new(2, 2, BooleanWeight::one(), 2)).unwrap();
    fst.set_final(1, BooleanWeight::one()).unwrap();
    fst.set_final(2, BooleanWeight::one()).unwrap();
    let mut det: DeterminizeFsa<BooleanWeight, VectorFst<BooleanWeight>, DefaultCommonDivisor> =
        DeterminizeFsa::new(fst, None).unwrap();
    let dfst: VectorFst<BooleanWeight> = det.compute().unwrap();
    // {0}, {1, 2}, {1}, {2}
    assert_eq!(dfst.num_states(), 4);
    assert_eq!(dfst.num_trs(1), Ok(2));
    for s in 0..dfst.num_states() {
        let labels: Vec<u32> = dfst.get_trs(s).unwrap().iter().map(|tr| tr.ilabel).collect();
        let mut unique = labels.clone();
        unique.dedup();
        assert_eq!(labels, unique);
    }
}

#[test]
fn determinize_copies_the_symbol_tables() {
    let mut fst = ambiguous();
    let mut symt = SymbolTable::new();
    symt.add_symbol("a");
    symt.add_symbol("b");
    fst.set_input_symbols(Arc::new(symt));
    let mut det = TropicalDet::new(fst, None).unwrap();
    let dfst: VectorFst<TropicalWeight> = det.compute().unwrap();
    assert_eq!(dfst.input_symbols().unwrap().get_label("b"), Some(2));
    assert!(dfst.output_symbols().is_none());
}

#[test]
fn subset_helpers() {
    let fst = ambiguous();
    let subset = vec![
        DeterminizeElement::new(1, TropicalWeight::new(0)),
        DeterminizeElement::new(2, TropicalWeight::new(2)),
    ];
    assert_eq!(collect_labels(&fst, &subset), vec![2]);
    let items = collect_items(&fst, &subset, 2);
    assert_eq!(
        items,
        vec![
            DeterminizeElement::new(3, TropicalWeight::new(5)),
            DeterminizeElement::new(3, TropicalWeight::new(4)),
        ]
    );
    assert_eq!(canonicalize(&items), vec![DeterminizeElement::new(3, TropicalWeight::new(4))]);
    let mixed = vec![
        DeterminizeElement::new(4, TropicalWeight::new(1)),
        DeterminizeElement::new(2, TropicalWeight::new(9)),
        DeterminizeElement::new(4, TropicalWeight::new(0)),
        DeterminizeElement::new(3, TropicalWeight::new(7)),
    ];
    assert_eq!(
        canonicalize(&mixed),
        vec![
            DeterminizeElement::new(2, TropicalWeight::new(9)),
            DeterminizeElement::new(3, TropicalWeight::new(7)),
            DeterminizeElement::new(4, TropicalWeight::new(0)),
        ]
    );
    assert_eq!(
        <DefaultCommonDivisor as CommonDivisor<TropicalWeight>>::common_divisor(
            &TropicalWeight::new(5),
            &TropicalWeight::new(4)
        ),
        TropicalWeight::new(4)
    );
}

#[test]
fn cache_remembers_what_it_was_given() {
    let mut cache: SimpleVecCache<TropicalWeight> = SimpleVecCache::new();
    assert_eq!(cache.get_start(), CacheStatus::NotComputed);
    assert_eq!(cache.get_trs(3), CacheStatus::NotComputed);
    assert_eq!(cache.get_final_weight(3), CacheStatus::NotComputed);
    cache.insert_start(Some(4));
    cache.insert_trs(3, vec![Tr::new(1, 1, TropicalWeight::new(2), 0)]);
    cache.insert_final_weight(5, None);
    assert_eq!(cache.get_start(), CacheStatus::Computed(Some(4)));
    assert_eq!(
        cache.get_trs(3),
        CacheStatus::Computed(vec![Tr::new(1, 1, TropicalWeight::new(2), 0)])
    );
    assert_eq!(cache.num_trs(3), CacheStatus::Computed(1));
    assert_eq!(cache.get_trs(2), CacheStatus::NotComputed);
    assert_eq!(cache.get_final_weight(5), CacheStatus::Computed(None));
    assert_eq!(cache.get_final_weight(4), CacheStatus::NotComputed);
}

#[test]
fn the_lazy_acceptor_answers_like_a_transducer() {
    let mut det = TropicalDet::new(ambiguous(), None).unwrap();
    assert_eq!(det.start(), Ok(Some(0)));
    assert_eq!(det.final_weight_unchecked(0), None);
    assert_eq!(det.num_trs_unchecked(0), Ok(1));
    assert_eq!(
        det.get_trs_unchecked(0),
        Ok(vec![Tr::new(1, 1, TropicalWeight::new(1), 1)])
    );
    assert_eq!(det.num_input_epsilons(0), Ok(0));
    assert_eq!(det.num_output_epsilons(0), Ok(0));
    assert_eq!(det.num_input_epsilons(9), Err(FstError::StateNotFound(9)));
    assert!(det.properties().has(I_DETERMINISTIC_BIT));
    assert!(det.properties().has(I_LABEL_SORTED_BIT));
    assert!(det.input_symbols().is_none());
    assert!(det.output_symbols().is_none());
}

#[test]
fn computing_twice_gives_the_same_acceptor() {
    let mut det = TropicalDet::new(ambiguous(), None).unwrap();
    let first: VectorFst<TropicalWeight> = det.compute().unwrap();
    let known = det.num_known_states();
    let second: VectorFst<TropicalWeight> = det.compute().unwrap();
    assert_eq!(first, second);
    assert_eq!(det.num_known_states(), known);
    assert_eq!(det.states_iter(), vec![0, 1, 2]);
}

#[test]
fn the_lazy_acceptor_has_symbol_tables_of_its_own() {
    let mut table = SymbolTable::new();
    table.add_symbol("a");
    let mut det = TropicalDet::new(ambiguous(), None).unwrap();
    assert!(det.input_symbols().is_none());
    det.set_input_symbols(Arc::new(table));
    assert_eq!(det.input_symbols().unwrap().get_label("a"), Some(1));
    assert!(det.output_symbols().is_none());
    let dfst: VectorFst<TropicalWeight> = det.compute().unwrap();
    assert_eq!(dfst.input_symbols().unwrap().get_label("a"), Some(1));
    assert!(dfst.output_symbols().is_none());
    assert!(det.take_input_symbols().is_some());
    assert!(det.input_symbols().is_none());
    let mut out = SymbolTable::new();
    out.add_symbol("b");
    det.set_output_symbols(Arc::new(out));
    assert_eq!(det.take_output_symbols().unwrap().get_label("b"), Some(1));
}

#[test]
fn the_distances_of_the_subsets_come_with_the_acceptor() {
    let dist = vec![
        TropicalWeight::new(5),
        TropicalWeight::new(5),
        TropicalWeight::new(2),
        TropicalWeight::new(0),
    ];
    let det = TropicalDet::new(ambiguous(), Some(dist)).unwrap();
    let (dfst, out): (VectorFst<TropicalWeight>, Vec<TropicalWeight>) =
        det.compute_with_distance().unwrap();
    assert_eq!(dfst.num_states(), 3);
    assert_eq!(out, vec![TropicalWeight::new(5), TropicalWeight::new(4), TropicalWeight::new(0)]);
}

#[test]
fn wider_bins_change_weights_but_not_what_is_accepted() {
    let mut det = TropicalDet::new(ambiguous(), None).unwrap();
    det.set_delta(4);
    let dfst: VectorFst<TropicalWeight> = det.compute().unwrap();
    // the string "a b" still has its one path, and no other string has one
    assert_eq!(dfst.num_states(), 3);
    assert_eq!(dfst.get_trs(0).unwrap().to_vec(), vec![Tr::new(1, 1, TropicalWeight::new(1), 1)]);
    assert_eq!(dfst.get_trs(2).unwrap().to_vec(), vec![]);
    assert_eq!(dfst.final_weight(2), Ok(Some(TropicalWeight::one())));
    assert_eq!(dfst.final_weight(0), Ok(None));
    assert_eq!(dfst.final_weight(1), Ok(None));
    // what was left of the dearer way, 2, fell into the bin of 0
    assert_eq!(dfst.get_trs(1).unwrap().to_vec(), vec![Tr::new(2, 2, TropicalWeight::new(2), 2)]);
    // binning moves a weight by less than the width
    let binned = TropicalWeight::new(2).quantize(4);
    assert_eq!(binned, TropicalWeight::new(0));
    assert!(TropicalWeight::new(2).value() - binned.value() < 4);
}
