use rustfst::algorithms::connect::{accessible_states, coaccessible_states, connect};
use rustfst::algorithms::dfs::compute_top_order;
use rustfst::algorithms::inversion::invert;
use rustfst::algorithms::reverse::reverse;
use rustfst::algorithms::shortest_distance::shortest_distance;
use rustfst::algorithms::state_sort::{invert_order, state_sort};
use rustfst::algorithms::top_sort::{is_top_sorted, top_sort};
use rustfst::algorithms::tr_sort::{ilabel_compare, olabel_compare, tr_sort};
use rustfst::error::FstError;
use rustfst::fst_impls::vector_fst::VectorFst;
use rustfst::fst_properties::{ACYCLIC_BIT, TOP_SORTED_BIT};
use rustfst::fst_traits::{Fst, MutableFst};
use rustfst::semirings::integer_weight::IntegerWeight;
use rustfst::semirings::semiring::Semiring;
use rustfst::semirings::tropical_weight::TropicalWeight;
use rustfst::tr::Tr;
use rustfst::utils::{acceptor, transducer};
use std::cmp::Ordering;

#[test]
fn test_invert() {
    let a = vec![1, 2, 3];
    let b = vec![4, 5, 6];

    let mut fst: VectorFst<IntegerWeight> = transducer(&a, &b).unwrap();
    invert(&mut fst).unwrap();

    let ref_fst = transducer(&b, &a).unwrap();

    assert_eq!(fst, ref_fst);
}

#[test]
fn invert_swaps_the_labels_of_every_transition() {
    let mut fst: VectorFst<IntegerWeight> = transducer(&[1, 2, 3], &[4, 5, 6]).unwrap();
    invert(&mut fst).unwrap();
    assert_eq!(fst.get_trs(0).unwrap().to_vec(), vec![Tr::new(4, 1, IntegerWeight::one(), 1)]);
    assert_eq!(fst.get_trs(1).unwrap().to_vec(), vec![Tr::new(5, 2, IntegerWeight::one(), 2)]);
    assert_eq!(fst.get_trs(2).unwrap().to_vec(), vec![Tr::new(6, 3, IntegerWeight::one(), 3)]);
    assert_eq!(fst.final_weight(3), Ok(Some(IntegerWeight::one())));
    assert_eq!(fst.start(), Some(0));
}

#[test]
fn invert_twice_gives_the_transducer_back() {
    let mut fst: VectorFst<TropicalWeight> = VectorFst::new();
    let s0 = fst.add_state();
    let s1 = fst.add_state();
    fst.set_start(s0).unwrap();
    fst.add_tr(s0, Tr::new(0, 7, TropicalWeight::new(2), s1)).unwrap();
    fst.add_tr(s0, Tr::new(3, 3, TropicalWeight::new(1), s0)).unwrap();
    fst.add_tr(s1, Tr::new(5, 0, TropicalWeight::new(4), s0)).unwrap();
    fst.set_final(s1, TropicalWeight::new(9)).unwrap();
    let before = fst.clone();
    invert(&mut fst).unwrap();
    assert_ne!(fst, before);
    invert(&mut fst).unwrap();
    assert_eq!(fst, before);
}

#[test]
fn transducer_is_a_chain() {
    let fst: VectorFst<IntegerWeight> = transducer(&[1, 2, 3], &[4, 5]).unwrap();
    assert_eq!(fst.num_states(), 3);
    assert_eq!(fst.start(), Some(0));
    assert_eq!(fst.get_trs(1).unwrap().to_vec(), vec![Tr::new(2, 5, IntegerWeight::one(), 2)]);
    assert_eq!(fst.final_weight(2), Ok(Some(IntegerWeight::one())));
    assert_eq!(fst.final_weight(0), Ok(None));
    let acc: VectorFst<IntegerWeight> = acceptor(&[8, 9]).unwrap();
    assert_eq!(acc.get_trs(0).unwrap().to_vec(), vec![Tr::new(8, 8, IntegerWeight::one(), 1)]);
}

fn unsorted() -> VectorFst<IntegerWeight> {
    let mut fst = VectorFst::new();
    let s0 = fst.add_state();
    let s1 = fst.add_state();
    fst.set_start(s0).unwrap();
    fst.add_tr(s0, Tr::new(3, 1, IntegerWeight::new(1), s1)).unwrap();
    fst.add_tr(s0, Tr::new(1, 9, IntegerWeight::new(2), s1)).unwrap();
    fst.add_tr(s0, Tr::new(3, 0, IntegerWeight::new(3), s0)).unwrap();
    fst.add_tr(s0, Tr::new(1, 4, IntegerWeight::new(4), s0)).unwrap();
    fst.add_tr(s1, Tr::new(2, 2, IntegerWeight::new(5), s0)).unwrap();
    fst.add_tr(s1, Tr::new(1, 3, IntegerWeight::new(6), s0)).unwrap();
    fst.set_final(s1, IntegerWeight::one()).unwrap();
    fst
}

#[test]
fn compare_functions_order_by_one_label() {
    let a = Tr::new(1, 9, IntegerWeight::one(), 0);
    let b = Tr::new(2, 3, IntegerWeight::one(), 0);
    assert_eq!(ilabel_compare(&a, &b), Ordering::Less);
    assert_eq!(ilabel_compare(&b, &a), Ordering::Greater);
    assert_eq!(ilabel_compare(&a, &a), Ordering::Equal);
    assert_eq!(olabel_compare(&a, &b), Ordering::Greater);
    assert_eq!(olabel_compare(&b, &a), Ordering::Less);
    assert_eq!(olabel_compare(&b, &b), Ordering::Equal);
}

#[test]
fn tr_sort_by_ilabel_is_stable() {
    let mut fst = unsorted();
    tr_sort(&mut fst, ilabel_compare);
    assert_eq!(
        fst.get_trs(0).unwrap().to_vec(),
        vec![
            Tr::new(1, 9, IntegerWeight::new(2), 1),
            Tr::new(1, 4, IntegerWeight::new(4), 0),
            Tr::new(3, 1, IntegerWeight::new(1), 1),
            Tr::new(3, 0, IntegerWeight::new(3), 0),
        ]
    );
    assert_eq!(
        fst.get_trs(1).unwrap().to_vec(),
        vec![
            Tr::new(1, 3, IntegerWeight::new(6), 0),
            Tr::new(2, 2, IntegerWeight::new(5), 0),
        ]
    );
    assert_eq!(fst.start(), Some(0));
    assert_eq!(fst.final_weight(1), Ok(Some(IntegerWeight::one())));
}

#[test]
fn tr_sort_by_olabel() {
    let mut fst = unsorted();
    tr_sort(&mut fst, olabel_compare);
    let olabels: Vec<u32> = fst.get_trs(0).unwrap().iter().map(|tr| tr.olabel).collect();
    assert_eq!(olabels, vec![0, 1, 4, 9]);
}

#[test]
fn sort_trs_with_a_closure() {
    let mut fst = unsorted();
    let by_weight_descending =
        |a: &Tr<IntegerWeight>, b: &Tr<IntegerWeight>| b.weight.value().cmp(&a.weight.value());
    fst.sort_trs_unchecked(0, &by_weight_descending);
    let weights: Vec<u64> = fst.get_trs(0).unwrap().iter().map(|tr| tr.weight.value()).collect();
    assert_eq!(weights, vec![4, 3, 2, 1]);
}

fn acyclic_unsorted() -> VectorFst<IntegerWeight> {
    // 2 -> 0 -> 3 -> 1, and 2 -> 3
    let mut fst = VectorFst::new();
    fst.add_states(4);
    fst.set_start(2).unwrap();
    fst.add_tr(2, Tr::new(1, 1, IntegerWeight::new(2), 0)).unwrap();
    fst.add_tr(0, Tr::new(2, 2, IntegerWeight::new(3), 3)).unwrap();
    fst.add_tr(3, Tr::new(3, 3, IntegerWeight::new(5), 1)).unwrap();
    fst.add_tr(2, Tr::new(4, 4, IntegerWeight::new(7), 3)).unwrap();
    fst.set_final(1, IntegerWeight::new(11)).unwrap();
    fst
}

fn count_trs(fst: &VectorFst<IntegerWeight>) -> usize {
    (0..fst.num_states()).map(|s| fst.num_trs(s).unwrap()).sum()
}

fn sorted_labels_and_weights(fst: &VectorFst<IntegerWeight>) -> Vec<(u32, u32, u64)> {
    let mut all: Vec<(u32, u32, u64)> = Vec::new();
    for s in 0..fst.num_states() {
        for tr in fst.get_trs(s).unwrap() {
            all.push((tr.ilabel, tr.olabel, tr.weight.value()));
        }
    }
    all.sort();
    all
}

#[test]
fn top_sort_orders_an_acyclic_transducer() {
    let mut fst = acyclic_unsorted();
    let before = fst.clone();
    assert!(!is_top_sorted(&fst));
    top_sort(&mut fst).unwrap();
    assert!(is_top_sorted(&fst));
    assert!(fst.properties().has(TOP_SORTED_BIT));
    assert!(fst.properties().has(ACYCLIC_BIT));
    assert_eq!(fst.num_states(), before.num_states());
    assert_eq!(count_trs(&fst), count_trs(&before));
    assert_eq!(sorted_labels_and_weights(&fst), sorted_labels_and_weights(&before));
    for s in 0..fst.num_states() {
        for tr in fst.get_trs(s).unwrap() {
            assert!(tr.nextstate > s);
        }
    }
    // the start state leads the order and the final state ends it
    assert_eq!(fst.start(), Some(0));
    assert_eq!(fst.final_weight(3), Ok(Some(IntegerWeight::new(11))));
}

#[test]
fn top_sort_leaves_a_sorted_transducer_as_it_is() {
    let mut fst: VectorFst<IntegerWeight> = transducer(&[1, 2, 3], &[4, 5, 6]).unwrap();
    let mut expected = fst.clone();
    expected.compute_and_update_properties_all().unwrap();
    top_sort(&mut fst).unwrap();
    assert_eq!(fst.get_trs(0).unwrap(), expected.get_trs(0).unwrap());
    assert_eq!(fst.get_trs(1).unwrap(), expected.get_trs(1).unwrap());
    assert_eq!(fst.get_trs(2).unwrap(), expected.get_trs(2).unwrap());
    assert_eq!(fst.start(), Some(0));
    assert!(fst.properties().has(TOP_SORTED_BIT));
}

#[test]
fn top_sort_refuses_a_cycle_and_changes_nothing() {
    let mut fst = acyclic_unsorted();
    fst.add_tr(1, Tr::new(9, 9, IntegerWeight::one(), 2)).unwrap();
    let before = fst.clone();
    assert_eq!(top_sort(&mut fst), Err(FstError::PropertyViolation));
    assert_eq!(fst, before);
    assert_eq!(compute_top_order(&fst), None);
}

#[test]
fn top_order_respects_every_transition() {
    let fst = acyclic_unsorted();
    let order = compute_top_order(&fst).unwrap();
    assert_eq!(order.len(), 4);
    for s in 0..fst.num_states() {
        for tr in fst.get_trs(s).unwrap() {
            assert!(order[s] < order[tr.nextstate]);
        }
    }
    let mut places = order.clone();
    places.sort();
    assert_eq!(places, vec![0, 1, 2, 3]);
}

#[test]
fn state_sort_moves_states_to_their_places() {
    let mut fst = acyclic_unsorted();
    state_sort(&mut fst, &[1, 3, 0, 2]).unwrap();
    assert_eq!(fst.start(), Some(0));
    assert_eq!(
        fst.get_trs(0).unwrap().to_vec(),
        vec![
            Tr::new(1, 1, IntegerWeight::new(2), 1),
            Tr::new(4, 4, IntegerWeight::new(7), 2)
        ]
    );
    assert_eq!(fst.get_trs(1).unwrap().to_vec(), vec![Tr::new(2, 2, IntegerWeight::new(3), 2)]);
    assert_eq!(fst.get_trs(2).unwrap().to_vec(), vec![Tr::new(3, 3, IntegerWeight::new(5), 3)]);
    assert_eq!(fst.final_weight(3), Ok(Some(IntegerWeight::new(11))));
}

#[test]
fn state_sort_refuses_what_is_no_permutation() {
    let mut fst = acyclic_unsorted();
    let before = fst.clone();
    assert_eq!(state_sort(&mut fst, &[0, 1, 1, 2]), Err(FstError::InvalidInput));
    assert_eq!(state_sort(&mut fst, &[0, 1, 2]), Err(FstError::InvalidInput));
    assert_eq!(state_sort(&mut fst, &[0, 1, 2, 4]), Err(FstError::InvalidInput));
    assert_eq!(fst, before);
    assert_eq!(invert_order(&[2, 0, 1]), Some(vec![1, 2, 0]));
    assert_eq!(invert_order(&[2, 2, 1]), None);
}

fn with_dead_ends() -> VectorFst<IntegerWeight> {
    // 0 -> 1 -> 4 (final); 2 cannot be reached; 3 leads nowhere
    let mut fst = VectorFst::new();
    fst.add_states(5);
    fst.set_start(0).unwrap();
    fst.add_tr(0, Tr::new(1, 1, IntegerWeight::new(2), 1)).unwrap();
    fst.add_tr(0, Tr::new(2, 2, IntegerWeight::new(3), 3)).unwrap();
    fst.add_tr(1, Tr::new(3, 3, IntegerWeight::new(5), 3)).unwrap();
    fst.add_tr(1, Tr::new(4, 4, IntegerWeight::new(7), 4)).unwrap();
    fst.add_tr(2, Tr::new(5, 5, IntegerWeight::new(9), 4)).unwrap();
    fst.add_tr(4, Tr::new(6, 6, IntegerWeight::new(1), 0)).unwrap();
    fst.set_final(4, IntegerWeight::new(11)).unwrap();
    fst
}

#[test]
fn accessible_and_coaccessible_states() {
    let fst = with_dead_ends();
    assert_eq!(accessible_states(&fst), vec![true, true, false, true, true]);
    assert_eq!(coaccessible_states(&fst), vec![true, true, true, false, true]);
}

#[test]
fn connect_keeps_the_states_on_successful_paths() {
    let mut fst = with_dead_ends();
    connect(&mut fst).unwrap();
    assert_eq!(fst.num_states(), 3);
    assert_eq!(fst.start(), Some(0));
    assert_eq!(fst.get_trs(0).unwrap().to_vec(), vec![Tr::new(1, 1, IntegerWeight::new(2), 1)]);
    assert_eq!(fst.get_trs(1).unwrap().to_vec(), vec![Tr::new(4, 4, IntegerWeight::new(7), 2)]);
    assert_eq!(fst.get_trs(2).unwrap().to_vec(), vec![Tr::new(6, 6, IntegerWeight::new(1), 0)]);
    assert_eq!(fst.final_weight(2), Ok(Some(IntegerWeight::new(11))));
    assert_eq!(accessible_states(&fst), vec![true, true, true]);
    assert_eq!(coaccessible_states(&fst), vec![true, true, true]);
}

#[test]
fn connect_without_final_state_leaves_nothing() {
    let mut fst = with_dead_ends();
    fst.delete_final_weight(4).unwrap();
    connect(&mut fst).unwrap();
    assert_eq!(fst.num_states(), 0);
    assert_eq!(fst.start(), None);
}

#[test]
fn the_linear_transducer_knows_its_properties() {
    let fst: VectorFst<IntegerWeight> = transducer(&[1, 2], &[3, 0]).unwrap();
    let mut same = fst.clone();
    let found = same.compute_and_update_properties_all().unwrap();
    assert_eq!(fst.properties(), found);
    assert!(fst.properties().has(ACYCLIC_BIT));
    assert!(fst.properties().has(TOP_SORTED_BIT));
    let acc: VectorFst<IntegerWeight> = acceptor(&[1, 2]).unwrap();
    assert!(acc.properties().has(rustfst::fst_properties::ACCEPTOR_BIT));
}

#[test]
fn connect_keeps_what_is_known_of_cycles_and_order() {
    let mut fst: VectorFst<TropicalWeight> = VectorFst::new();
    fst.add_states(4);
    fst.set_start(0).unwrap();
    fst.add_tr(0, Tr::new(1, 1, TropicalWeight::new(1), 1)).unwrap();
    fst.add_tr(1, Tr::new(2, 2, TropicalWeight::new(1), 3)).unwrap();
    fst.add_tr(0, Tr::new(3, 3, TropicalWeight::new(1), 2)).unwrap();
    fst.set_final(3, TropicalWeight::one()).unwrap();
    fst.compute_and_update_properties_all().unwrap();
    assert!(fst.properties().has(ACYCLIC_BIT));
    assert!(fst.properties().has(TOP_SORTED_BIT));
    connect(&mut fst).unwrap();
    assert_eq!(fst.num_states(), 3);
    assert!(fst.properties().has(ACYCLIC_BIT));
    assert!(fst.properties().has(TOP_SORTED_BIT));
}

/// The sum over the final states of distance times final weight.
fn total_weight(fst: &VectorFst<IntegerWeight>) -> u64 {
    let d = shortest_distance(fst).unwrap();
    let mut sum = IntegerWeight::zero();
    for s in 0..fst.num_states() {
        if let Some(w) = fst.final_weight(s).unwrap() {
            sum = sum.plus(&d[s].times(&w));
        }
    }
    sum.value()
}

fn distances(fst: &VectorFst<IntegerWeight>) -> Vec<u64> {
    shortest_distance(fst).unwrap().iter().map(|w| w.value()).collect()
}

#[test]
fn connect_keeps_the_distances_and_their_sum_at_the_final_states() {
    // 0 -> 1 -> 3 (final), 0 -> 2 -> 3; 4 leads nowhere; 5 cannot be reached
    let mut fst: VectorFst<IntegerWeight> = VectorFst::new();
    fst.add_states(6);
    fst.set_start(0).unwrap();
    fst.add_tr(0, Tr::new(1, 1, IntegerWeight::new(2), 1)).unwrap();
    fst.add_tr(0, Tr::new(2, 2, IntegerWeight::new(3), 2)).unwrap();
    fst.add_tr(1, Tr::new(3, 3, IntegerWeight::new(5), 3)).unwrap();
    fst.add_tr(2, Tr::new(4, 4, IntegerWeight::new(7), 3)).unwrap();
    fst.add_tr(1, Tr::new(5, 5, IntegerWeight::new(4), 4)).unwrap();
    fst.add_tr(5, Tr::new(6, 6, IntegerWeight::new(6), 3)).unwrap();
    fst.set_final(3, IntegerWeight::new(11)).unwrap();
    fst.set_final(5, IntegerWeight::new(13)).unwrap();
    assert_eq!(distances(&fst), vec![1, 2, 3, 31, 8, 0]);
    assert_eq!(total_weight(&fst), 341);
    connect(&mut fst).unwrap();
    assert_eq!(fst.num_states(), 4);
    assert_eq!(distances(&fst), vec![1, 2, 3, 31]);
    assert_eq!(total_weight(&fst), 341);
}

#[test]
fn top_sort_moves_each_distance_with_its_state() {
    let mut fst = acyclic_unsorted();
    assert_eq!(distances(&fst), vec![2, 65, 1, 13]);
    assert_eq!(total_weight(&fst), 715);
    top_sort(&mut fst).unwrap();
    assert_eq!(fst.start(), Some(0));
    assert_eq!(distances(&fst), vec![1, 2, 13, 65]);
    assert_eq!(total_weight(&fst), 715);
}

#[test]
fn reversing_twice_keeps_the_sum_of_the_distances_at_the_final_states() {
    let fst = acyclic_unsorted();
    let once: VectorFst<IntegerWeight> = reverse(&fst).unwrap();
    let twice: VectorFst<IntegerWeight> = reverse(&once).unwrap();
    assert_eq!(twice.num_states(), fst.num_states() + 2);
    assert_eq!(total_weight(&twice), 715);
    assert_eq!(total_weight(&fst), 715);
}
