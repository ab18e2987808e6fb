use rustfst::algorithms::projection::{project, ProjectType};
use rustfst::algorithms::rational;
use rustfst::algorithms::rational::{closure, union, ClosureType};
use rustfst::fst_impls::vector_fst::VectorFst;
use rustfst::fst_properties::{FstProperties, ACCEPTOR_BIT};
use rustfst::fst_traits::{Fst, MutableFst};
use rustfst::semirings::integer_weight::IntegerWeight;
use rustfst::semirings::semiring::Semiring;
use rustfst::semirings::tropical_weight::TropicalWeight;
use rustfst::tr::{Tr, EPS_LABEL};
use rustfst::trs::{drop_listed, drop_repeats, sum_runs};
use rustfst::utils::transducer;

fn w(value: u64) -> TropicalWeight {
    TropicalWeight::new(value)
}

fn eps(weight: TropicalWeight, nextstate: usize) -> Tr<TropicalWeight> {
    Tr::new(EPS_LABEL, EPS_LABEL, weight, nextstate)
}

/// 0 -1:2/3-> 1, state 1 final with weight 4.
fn one_step() -> VectorFst<TropicalWeight> {
    let mut fst = VectorFst::new();
    fst.add_states(2);
    fst.set_start(0).unwrap();
    fst.add_tr(0, Tr::new(1, 2, w(3), 1)).unwrap();
    fst.set_final(1, w(4)).unwrap();
    fst
}

/// 0 -5:6/7-> 1 -8:9/1-> 0, state 0 final with weight 2, start 1.
fn loop_of_two() -> VectorFst<TropicalWeight> {
    let mut fst = VectorFst::new();
    fst.add_states(2);
    fst.set_start(1).unwrap();
    fst.add_tr(0, Tr::new(5, 6, w(7), 1)).unwrap();
    fst.add_tr(1, Tr::new(8, 9, w(1), 0)).unwrap();
    fst.set_final(0, w(2)).unwrap();
    fst
}

#[test]
fn projection_copies_one_side_onto_the_other() {
    let mut fst: VectorFst<IntegerWeight> = transducer(&[1, 2], &[3, 4]).unwrap();
    project(&mut fst, ProjectType::ProjectInput);
    assert_eq!(fst.get_trs(0).unwrap().to_vec(), vec![Tr::new(1, 1, IntegerWeight::one(), 1)]);
    assert_eq!(fst.get_trs(1).unwrap().to_vec(), vec![Tr::new(2, 2, IntegerWeight::one(), 2)]);
    assert_eq!(fst.final_weight(2), Ok(Some(IntegerWeight::one())));
    assert_eq!(fst.start(), Some(0));
    assert_eq!(fst.properties(), FstProperties::empty().insert_bit(ACCEPTOR_BIT));

    let mut fst: VectorFst<IntegerWeight> = transducer(&[1, 2], &[3, 4]).unwrap();
    project(&mut fst, ProjectType::ProjectOutput);
    assert_eq!(fst.get_trs(0).unwrap().to_vec(), vec![Tr::new(3, 3, IntegerWeight::one(), 1)]);
    assert_eq!(fst.get_trs(1).unwrap().to_vec(), vec![Tr::new(4, 4, IntegerWeight::one(), 2)]);
}

#[test]
fn closure_plus_leads_from_each_final_state_back_to_the_start() {
    let mut fst = one_step();
    closure(&mut fst, ClosureType::ClosurePlus).unwrap();
    assert_eq!(fst.num_states(), 2);
    assert_eq!(fst.start(), Some(0));
    assert_eq!(fst.get_trs(0).unwrap().to_vec(), vec![Tr::new(1, 2, w(3), 1)]);
    assert_eq!(fst.get_trs(1).unwrap().to_vec(), vec![eps(w(4), 0)]);
    assert_eq!(fst.final_weight(1), Ok(Some(w(4))));
    assert_eq!(fst.properties(), FstProperties::empty());
}

#[test]
fn closure_star_adds_a_final_start_state() {
    let mut fst = one_step();
    closure(&mut fst, ClosureType::ClosureStar).unwrap();
    assert_eq!(fst.num_states(), 3);
    assert_eq!(fst.start(), Some(2));
    assert_eq!(fst.get_trs(0).unwrap().to_vec(), vec![Tr::new(1, 2, w(3), 1)]);
    assert_eq!(fst.get_trs(1).unwrap().to_vec(), vec![eps(w(4), 0)]);
    assert_eq!(fst.get_trs(2).unwrap().to_vec(), vec![eps(TropicalWeight::one(), 0)]);
    assert_eq!(fst.final_weight(2), Ok(Some(TropicalWeight::one())));
}

#[test]
fn closure_of_a_transducer_without_start_state() {
    let mut fst: VectorFst<TropicalWeight> = VectorFst::new();
    fst.add_state();
    fst.set_final(0, w(1)).unwrap();
    closure(&mut fst, ClosureType::ClosurePlus).unwrap();
    assert_eq!(fst.start(), None);
    assert_eq!(fst.get_trs(0).unwrap().to_vec(), vec![]);
    closure(&mut fst, ClosureType::ClosureStar).unwrap();
    assert_eq!(fst.start(), Some(1));
    assert_eq!(fst.get_trs(1).unwrap().to_vec(), vec![]);
    assert_eq!(fst.final_weight(1), Ok(Some(TropicalWeight::one())));
}

#[test]
fn concat_links_the_final_states_of_the_first_to_the_start_of_the_second() {
    let mut fst = one_step();
    rational::concat(&mut fst, &loop_of_two()).unwrap();
    assert_eq!(fst.num_states(), 4);
    assert_eq!(fst.start(), Some(0));
    assert_eq!(fst.get_trs(0).unwrap().to_vec(), vec![Tr::new(1, 2, w(3), 1)]);
    assert_eq!(fst.get_trs(1).unwrap().to_vec(), vec![eps(w(4), 3)]);
    assert_eq!(fst.get_trs(2).unwrap().to_vec(), vec![Tr::new(5, 6, w(7), 3)]);
    assert_eq!(fst.get_trs(3).unwrap().to_vec(), vec![Tr::new(8, 9, w(1), 2)]);
    assert_eq!(fst.final_weight(0), Ok(None));
    assert_eq!(fst.final_weight(1), Ok(None));
    assert_eq!(fst.final_weight(2), Ok(Some(w(2))));
    assert_eq!(fst.final_weight(3), Ok(None));
    assert_eq!(fst.properties(), FstProperties::empty());
}

#[test]
fn concat_with_a_transducer_without_start_state_accepts_nothing() {
    let mut fst = one_step();
    let mut second = loop_of_two();
    second.unset_start();
    rational::concat(&mut fst, &second).unwrap();
    assert_eq!(fst.num_states(), 4);
    assert_eq!(fst.get_trs(1).unwrap().to_vec(), vec![]);
    assert_eq!(fst.final_weight(1), Ok(None));
    assert_eq!(fst.final_weight(2), Ok(Some(w(2))));
}

#[test]
fn union_adds_a_start_state_that_leads_to_both() {
    let mut fst = one_step();
    union(&mut fst, &loop_of_two()).unwrap();
    assert_eq!(fst.num_states(), 5);
    assert_eq!(fst.start(), Some(4));
    assert_eq!(fst.get_trs(0).unwrap().to_vec(), vec![Tr::new(1, 2, w(3), 1)]);
    assert_eq!(fst.get_trs(1).unwrap().to_vec(), vec![]);
    assert_eq!(fst.get_trs(2).unwrap().to_vec(), vec![Tr::new(5, 6, w(7), 3)]);
    assert_eq!(fst.get_trs(3).unwrap().to_vec(), vec![Tr::new(8, 9, w(1), 2)]);
    assert_eq!(
        fst.get_trs(4).unwrap().to_vec(),
        vec![eps(TropicalWeight::one(), 0), eps(TropicalWeight::one(), 3)]
    );
    assert_eq!(fst.final_weight(1), Ok(Some(w(4))));
    assert_eq!(fst.final_weight(2), Ok(Some(w(2))));
    assert_eq!(fst.final_weight(4), Ok(None));
}

#[test]
fn union_with_the_empty_transducer() {
    let mut fst = one_step();
    let empty: VectorFst<TropicalWeight> = VectorFst::new();
    union(&mut fst, &empty).unwrap();
    assert_eq!(fst.num_states(), 3);
    assert_eq!(fst.start(), Some(2));
    assert_eq!(fst.get_trs(2).unwrap().to_vec(), vec![eps(TropicalWeight::one(), 0)]);
}

#[test]
fn listed_transitions_are_dropped() {
    let trs = vec![
        Tr::new(1, 1, w(1), 0),
        Tr::new(2, 2, w(2), 0),
        Tr::new(3, 3, w(3), 0),
        Tr::new(4, 4, w(4), 0),
    ];
    assert_eq!(drop_listed(&trs, &[]), trs);
    assert_eq!(drop_listed(&trs, &[0, 2]), vec![trs[1], trs[3]]);
    assert_eq!(drop_listed(&trs, &[1, 1, 3, 9]), vec![trs[0], trs[2]]);
    assert_eq!(drop_listed(&trs, &[0, 1, 2, 3]), vec![]);
}

#[test]
fn repeated_transitions_are_dropped() {
    let a = Tr::new(1, 1, w(1), 0);
    let b = Tr::new(1, 1, w(2), 0);
    assert_eq!(drop_repeats(&vec![a, a, b, b, b, a]), vec![a, b, a]);
    assert_eq!(drop_repeats(&Vec::<Tr<TropicalWeight>>::new()), vec![]);
    assert_eq!(drop_repeats(&vec![a]), vec![a]);
}

#[test]
fn runs_of_like_transitions_are_summed() {
    let i = IntegerWeight::new;
    let trs = vec![
        Tr::new(1, 1, i(2), 0),
        Tr::new(1, 1, i(3), 0),
        Tr::new(1, 1, i(4), 0),
        Tr::new(1, 2, i(5), 0),
        Tr::new(1, 1, i(6), 0),
        Tr::new(1, 1, i(7), 1),
    ];
    assert_eq!(
        sum_runs(&trs),
        vec![
            Tr::new(1, 1, i(9), 0),
            Tr::new(1, 2, i(5), 0),
            Tr::new(1, 1, i(6), 0),
            Tr::new(1, 1, i(7), 1)
        ]
    );
    let t = vec![Tr::new(1, 1, w(5), 0), Tr::new(1, 1, w(3), 0)];
    assert_eq!(sum_runs(&t), vec![Tr::new(1, 1, w(3), 0)]);
}

#[test]
fn the_transitions_of_a_state_are_thinned_in_place() {
    let mut fst: VectorFst<TropicalWeight> = VectorFst::new();
    fst.add_states(2);
    fst.set_start(0).unwrap();
    for tr in [
        Tr::new(1, 1, w(1), 1),
        Tr::new(1, 1, w(1), 1),
        Tr::new(1, 1, w(4), 1),
        Tr::new(2, 2, w(4), 1),
    ] {
        fst.add_tr(0, tr).unwrap();
    }
    fst.add_tr(1, Tr::new(7, 7, w(7), 0)).unwrap();
    let mut unique = fst.clone();
    unique.unique_trs_unchecked(0);
    assert_eq!(
        unique.get_trs(0).unwrap().to_vec(),
        vec![Tr::new(1, 1, w(1), 1), Tr::new(1, 1, w(4), 1), Tr::new(2, 2, w(4), 1)]
    );
    assert_eq!(unique.get_trs(1).unwrap().to_vec(), vec![Tr::new(7, 7, w(7), 0)]);
    assert_eq!(unique.properties(), FstProperties::empty());
    let mut summed = fst.clone();
    summed.sum_trs_unchecked(0);
    assert_eq!(
        summed.get_trs(0).unwrap().to_vec(),
        vec![Tr::new(1, 1, w(1), 1), Tr::new(2, 2, w(4), 1)]
    );
    let mut thinned = fst.clone();
    thinned.del_trs_id_sorted_unchecked(0, &[1, 3]);
    assert_eq!(
        thinned.get_trs(0).unwrap().to_vec(),
        vec![Tr::new(1, 1, w(1), 1), Tr::new(1, 1, w(4), 1)]
    );
    assert_eq!(thinned.start(), Some(0));
    thinned.unset_start();
    assert_eq!(thinned.start(), None);
    assert_eq!(thinned.num_states(), 2);
}
