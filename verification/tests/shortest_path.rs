use rustfst::algorithms::reverse::reverse;
use rustfst::algorithms::shortest_path::{copy_fst, shortest_path};
use rustfst::error::FstError;
use rustfst::fst_impls::vector_fst::VectorFst;
use rustfst::fst_properties::FstProperties;
use rustfst::fst_traits::{Fst, MutableFst};
use rustfst::semirings::boolean_weight::BooleanWeight;
use rustfst::semirings::semiring::Semiring;
use rustfst::semirings::tropical_weight::TropicalWeight;
use rustfst::tr::Tr;

fn ambiguous() -> VectorFst<TropicalWeight> {
    let a = 1;
    let b = 2;
    let mut fst = VectorFst::new();
    fst.add_states(4);
    fst.set_start(0).unwrap();
    fst.add_tr(0, Tr::new(a, a, TropicalWeight::new(1), 1)).unwrap();
    fst.add_tr(0, Tr::new(a, a, TropicalWeight::new(3), 2)).unwrap();
    fst.add_tr(1, Tr::new(b, b, TropicalWeight::new(5), 3)).unwrap();
    fst.add_tr(2, Tr::new(b, b, TropicalWeight::new(2), 3)).unwrap();
    fst.set_final(3, TropicalWeight::one()).unwrap();
    fst
}

/// The successful paths as (labels, total weight), found by walking the tree.
fn paths(fst: &VectorFst<TropicalWeight>) -> Vec<(Vec<u32>, u64)> {
    let mut found = Vec::new();
    let start = match fst.start() {
        Some(s) => s,
        None => return found,
    };
    let mut stack = vec![(start, Vec::<u32>::new(), TropicalWeight::one())];
    while let Some((s, labels, w)) = stack.pop() {
        if let Some(fw) = fst.final_weight(s).unwrap() {
            found.push((labels.clone(), w.times(&fw).value()));
        }
        for tr in fst.get_trs(s).unwrap() {
            let mut l = labels.clone();
            l.push(tr.ilabel);
            stack.push((tr.nextstate, l, w.times(&tr.weight)));
        }
    }
    found.sort();
    found
}

#[test]
fn shortest_path_of_nothing_is_empty() {
    let fst = ambiguous();
    let best: VectorFst<TropicalWeight> = shortest_path(&fst, 0, false).unwrap();
    assert_eq!(best.num_states(), 0);
    assert_eq!(best.start(), None);
    let best: VectorFst<TropicalWeight> = shortest_path(&fst, 0, true).unwrap();
    assert_eq!(best.num_states(), 0);
}

#[test]
fn single_shortest_path_unique() {
    let fst = ambiguous();
    let best: VectorFst<TropicalWeight> = shortest_path(&fst, 1, true).unwrap();
    assert_eq!(best.num_states(), 3);
    assert_eq!(best.start(), Some(0));
    assert_eq!(best.get_trs(0).unwrap().to_vec(), vec![Tr::new(1, 1, TropicalWeight::new(1), 1)]);
    assert_eq!(best.get_trs(1).unwrap().to_vec(), vec![Tr::new(2, 2, TropicalWeight::new(4), 2)]);
    assert_eq!(best.get_trs(2).unwrap().to_vec(), vec![]);
    assert_eq!(best.final_weight(2), Ok(Some(TropicalWeight::one())));
    assert_eq!(paths(&best), vec![(vec![1, 2], 5)]);
}

#[test]
fn single_shortest_path() {
    let fst = ambiguous();
    let best: VectorFst<TropicalWeight> = shortest_path(&fst, 1, false).unwrap();
    assert_eq!(best.num_states(), 3);
    assert_eq!(best.get_trs(0).unwrap().to_vec(), vec![Tr::new(1, 1, TropicalWeight::new(3), 1)]);
    assert_eq!(best.get_trs(1).unwrap().to_vec(), vec![Tr::new(2, 2, TropicalWeight::new(2), 2)]);
    assert_eq!(paths(&best), vec![(vec![1, 2], 5)]);
}

#[test]
fn two_shortest_paths_come_in_order_of_weight() {
    let fst = ambiguous();
    let best: VectorFst<TropicalWeight> = shortest_path(&fst, 2, false).unwrap();
    assert_eq!(paths(&best), vec![(vec![1, 2], 5), (vec![1, 2], 6)]);
    let more: VectorFst<TropicalWeight> = shortest_path(&fst, 10, false).unwrap();
    assert_eq!(paths(&more), vec![(vec![1, 2], 5), (vec![1, 2], 6)]);
    let unique: VectorFst<TropicalWeight> = shortest_path(&fst, 10, true).unwrap();
    assert_eq!(paths(&unique), vec![(vec![1, 2], 5)]);
}

#[test]
fn shortest_paths_through_a_cycle() {
    // 0 -a/1-> 0, 0 -b/2-> 1 (final 3)
    let mut fst: VectorFst<TropicalWeight> = VectorFst::new();
    fst.add_states(2);
    fst.set_start(0).unwrap();
    fst.add_tr(0, Tr::new(1, 1, TropicalWeight::new(1), 0)).unwrap();
    fst.add_tr(0, Tr::new(2, 2, TropicalWeight::new(2), 1)).unwrap();
    fst.set_final(1, TropicalWeight::new(3)).unwrap();
    let best: VectorFst<TropicalWeight> = shortest_path(&fst, 3, false).unwrap();
    assert_eq!(
        paths(&best),
        vec![(vec![1, 1, 2], 7), (vec![1, 2], 6), (vec![2], 5)]
    );
}

#[test]
fn shortest_path_without_successful_path_is_empty() {
    let mut fst = ambiguous();
    fst.delete_final_weight(3).unwrap();
    let best: VectorFst<TropicalWeight> = shortest_path(&fst, 2, false).unwrap();
    assert_eq!(best.num_states(), 0);
    let mut no_start = ambiguous();
    no_start.del_state(0).unwrap();
    let best: VectorFst<TropicalWeight> = shortest_path(&no_start, 2, false).unwrap();
    assert_eq!(best.num_states(), 0);
}

#[test]
fn unique_shortest_path_refuses_a_transducer() {
    let mut fst = ambiguous();
    fst.add_tr(1, Tr::new(1, 2, TropicalWeight::one(), 3)).unwrap();
    let r: Result<VectorFst<TropicalWeight>, FstError> = shortest_path(&fst, 1, true);
    assert_eq!(r.err(), Some(FstError::PropertyViolation));
    let best: VectorFst<TropicalWeight> = shortest_path(&fst, 1, false).unwrap();
    assert_eq!(paths(&best), vec![(vec![1, 1], 1)]);
}

#[test]
fn boolean_shortest_path_finds_a_successful_path() {
    let mut fst: VectorFst<BooleanWeight> = VectorFst::new();
    fst.add_states(3);
    fst.set_start(0).unwrap();
    fst.add_tr(0, Tr::new(1, 1, BooleanWeight::one(), 1)).unwrap();
    fst.add_tr(1, Tr::new(2, 2, BooleanWeight::one(), 2)).unwrap();
    fst.add_tr(1, Tr::new(3, 3, BooleanWeight::one(), 1)).unwrap();
    fst.set_final(2, BooleanWeight::one()).unwrap();
    let best: VectorFst<BooleanWeight> = shortest_path(&fst, 1, false).unwrap();
    let finals = (0..best.num_states()).filter(|s| best.is_final(*s).unwrap()).count();
    assert_eq!(finals, 1);
    assert!(best.start().is_some());
}

#[test]
fn reverse_turns_every_transition_round() {
    let fst = ambiguous();
    let rev: VectorFst<TropicalWeight> = reverse(&fst).unwrap();
    assert_eq!(rev.num_states(), 5);
    assert_eq!(rev.start(), Some(0));
    // the new start state leads to what was final
    assert_eq!(rev.get_trs(0).unwrap().to_vec(), vec![Tr::new(0, 0, TropicalWeight::one(), 4)]);
    // what was the start state is final
    assert_eq!(rev.final_weight(1), Ok(Some(TropicalWeight::one())));
    assert_eq!(rev.final_weight(4), Ok(None));
    assert_eq!(rev.get_trs(1).unwrap().to_vec(), vec![]);
    assert_eq!(rev.get_trs(2).unwrap().to_vec(), vec![Tr::new(1, 1, TropicalWeight::new(1), 1)]);
    assert_eq!(rev.get_trs(3).unwrap().to_vec(), vec![Tr::new(1, 1, TropicalWeight::new(3), 1)]);
    assert_eq!(
        rev.get_trs(4).unwrap().to_vec(),
        vec![
            Tr::new(2, 2, TropicalWeight::new(5), 2),
            Tr::new(2, 2, TropicalWeight::new(2), 3)
        ]
    );
    assert_eq!(rev.properties(), FstProperties::empty());
}

#[test]
fn reverse_twice_keeps_the_weight_of_each_string() {
    let fst = ambiguous();
    let rev: VectorFst<TropicalWeight> = reverse(&fst).unwrap();
    let back: VectorFst<TropicalWeight> = reverse(&rev).unwrap();
    assert_eq!(back.num_states(), fst.num_states() + 2);
    let strip = |all: Vec<(Vec<u32>, u64)>| -> Vec<(Vec<u32>, u64)> {
        all.into_iter()
            .map(|(labels, w)| (labels.into_iter().filter(|l| *l != 0).collect(), w))
            .collect()
    };
    assert_eq!(strip(paths(&back)), paths(&fst));
    assert_eq!(strip(paths(&rev)), vec![(vec![2, 1], 5), (vec![2, 1], 6)]);
}

#[test]
fn copy_fst_copies_everything() {
    let mut fst = ambiguous();
    fst.compute_and_update_properties_all().unwrap();
    let copy: VectorFst<TropicalWeight> = copy_fst(&fst);
    assert_eq!(copy, fst);
}

#[test]
fn paths_left_out_are_no_better_than_those_returned() {
    // four paths from 0 to 5 that cost 9, 4, 7 and 2 with the final weight
    let mut fst: VectorFst<TropicalWeight> = VectorFst::new();
    fst.add_states(6);
    fst.set_start(0).unwrap();
    fst.add_tr(0, Tr::new(1, 1, TropicalWeight::new(6), 1)).unwrap();
    fst.add_tr(0, Tr::new(2, 2, TropicalWeight::new(1), 2)).unwrap();
    fst.add_tr(0, Tr::new(3, 3, TropicalWeight::new(2), 3)).unwrap();
    fst.add_tr(0, Tr::new(4, 4, TropicalWeight::new(0), 4)).unwrap();
    fst.add_tr(1, Tr::new(5, 5, TropicalWeight::new(2), 5)).unwrap();
    fst.add_tr(2, Tr::new(5, 5, TropicalWeight::new(2), 5)).unwrap();
    fst.add_tr(3, Tr::new(5, 5, TropicalWeight::new(4), 5)).unwrap();
    fst.add_tr(4, Tr::new(5, 5, TropicalWeight::new(1), 5)).unwrap();
    fst.set_final(5, TropicalWeight::new(1)).unwrap();
    let all = paths(&fst);
    for n in 1..=4usize {
        let best: VectorFst<TropicalWeight> = shortest_path(&fst, n, false).unwrap();
        let kept = paths(&best);
        assert_eq!(kept.len(), n);
        let worst_kept = kept.iter().map(|p| p.1).max().unwrap();
        for p in all.iter() {
            assert!(kept.contains(p) || p.1 >= worst_kept);
        }
    }
    let two: VectorFst<TropicalWeight> = shortest_path(&fst, 2, false).unwrap();
    assert_eq!(paths(&two), vec![(vec![2, 5], 4), (vec![4, 5], 2)]);
}

#[test]
fn unique_shortest_paths_spell_each_string_once() {
    // "a b" twice, for 6 and for 5, and "a c" once, for 7
    let mut fst: VectorFst<TropicalWeight> = VectorFst::new();
    fst.add_states(4);
    fst.set_start(0).unwrap();
    fst.add_tr(0, Tr::new(1, 1, TropicalWeight::new(1), 1)).unwrap();
    fst.add_tr(0, Tr::new(1, 1, TropicalWeight::new(3), 2)).unwrap();
    fst.add_tr(1, Tr::new(2, 2, TropicalWeight::new(5), 3)).unwrap();
    fst.add_tr(2, Tr::new(2, 2, TropicalWeight::new(2), 3)).unwrap();
    fst.add_tr(1, Tr::new(3, 3, TropicalWeight::new(6), 3)).unwrap();
    fst.set_final(3, TropicalWeight::one()).unwrap();
    let all: VectorFst<TropicalWeight> = shortest_path(&fst, 5, false).unwrap();
    assert_eq!(
        paths(&all),
        vec![(vec![1, 2], 5), (vec![1, 2], 6), (vec![1, 3], 7)]
    );
    let unique: VectorFst<TropicalWeight> = shortest_path(&fst, 5, true).unwrap();
    assert_eq!(paths(&unique), vec![(vec![1, 2], 5), (vec![1, 3], 7)]);
    for s in 0..unique.num_states() {
        let trs = unique.get_trs(s).unwrap();
        for i in 0..trs.len() {
            for j in 0..i {
                assert_ne!(trs[i].ilabel, trs[j].ilabel);
            }
        }
    }
}
