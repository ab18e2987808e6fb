use rustfst::algorithms::shortest_distance::{shortest_distance, single_source_shortest_distance};
use rustfst::fst_impls::vector_fst::VectorFst;
use rustfst::fst_traits::{Fst, MutableFst};
use rustfst::semirings::boolean_weight::BooleanWeight;
use rustfst::semirings::integer_weight::IntegerWeight;
use rustfst::semirings::semiring::Semiring;
use rustfst::semirings::tropical_weight::TropicalWeight;
use rustfst::tr::Tr;

struct VectorFstTestData {
    fst: VectorFst<IntegerWeight>,
    name: String,
    all_distances: Vec<Vec<IntegerWeight>>,
}

fn weights(values: &[u64]) -> Vec<IntegerWeight> {
    values.iter().map(|v| IntegerWeight::new(*v)).collect()
}

fn empty_fst() -> VectorFstTestData {
    VectorFstTestData {
        fst: VectorFst::new(),
        name: String::from("empty_fst"),
        all_distances: vec![],
    }
}

fn single_state_fst() -> VectorFstTestData {
    let mut fst = VectorFst::new();
    let s0 = fst.add_state();
    fst.set_start(s0).unwrap();
    fst.set_final(s0, IntegerWeight::one()).unwrap();
    VectorFstTestData {
        fst,
        name: String::from("single_state_fst"),
        all_distances: vec![weights(&[1])],
    }
}

fn no_start_fst() -> VectorFstTestData {
    let mut fst = VectorFst::new();
    let s0 = fst.add_state();
    let s1 = fst.add_state();
    fst.add_tr(s0, Tr::new(1, 1, IntegerWeight::new(7), s1)).unwrap();
    VectorFstTestData {
        fst,
        name: String::from("no_start_fst"),
        all_distances: vec![weights(&[1, 7]), weights(&[0, 1])],
    }
}

fn linear_fst() -> VectorFstTestData {
    let mut fst = VectorFst::new();
    let s0 = fst.add_state();
    let s1 = fst.add_state();
    let s2 = fst.add_state();
    let s3 = fst.add_state();
    fst.set_start(s0).unwrap();
    fst.add_tr(s0, Tr::new(1, 4, IntegerWeight::new(2), s1)).unwrap();
    fst.add_tr(s1, Tr::new(2, 5, IntegerWeight::new(3), s2)).unwrap();
    fst.add_tr(s2, Tr::new(3, 6, IntegerWeight::new(5), s3)).unwrap();
    fst.set_final(s3, IntegerWeight::one()).unwrap();
    VectorFstTestData {
        fst,
        name: String::from("linear_fst"),
        all_distances: vec![
            weights(&[1, 2, 6, 30]),
            weights(&[0, 1, 3, 15]),
            weights(&[0, 0, 1, 5]),
            weights(&[0, 0, 0, 1]),
        ],
    }
}

fn triangle_fst() -> VectorFstTestData {
    let mut fst = VectorFst::new();
    let s0 = fst.add_state();
    let s1 = fst.add_state();
    let s2 = fst.add_state();
    fst.set_start(s0).unwrap();
    fst.add_tr(s0, Tr::new(32, 23, IntegerWeight::new(18), s1)).unwrap();
    fst.add_tr(s0, Tr::new(32, 23, IntegerWeight::new(21), s2)).unwrap();
    fst.add_tr(s1, Tr::new(32, 23, IntegerWeight::new(55), s2)).unwrap();
    VectorFstTestData {
        fst,
        name: String::from("triangle_fst"),
        all_distances: vec![
            weights(&[1, 18, 21 + 18 * 55]),
            weights(&[0, 1, 55]),
            weights(&[0, 0, 1]),
        ],
    }
}

fn diamond_fst() -> VectorFstTestData {
    let mut fst = VectorFst::new();
    let s0 = fst.add_state();
    let s1 = fst.add_state();
    let s2 = fst.add_state();
    let s3 = fst.add_state();
    fst.set_start(s1).unwrap();
    fst.add_tr(s1, Tr::new(1, 1, IntegerWeight::new(2), s0)).unwrap();
    fst.add_tr(s1, Tr::new(2, 2, IntegerWeight::new(3), s2)).unwrap();
    fst.add_tr(s0, Tr::new(3, 3, IntegerWeight::new(5), s3)).unwrap();
    fst.add_tr(s2, Tr::new(4, 4, IntegerWeight::new(7), s3)).unwrap();
    fst.add_tr(s2, Tr::new(5, 5, IntegerWeight::new(1), s3)).unwrap();
    fst.set_final(s3, IntegerWeight::new(4)).unwrap();
    VectorFstTestData {
        fst,
        name: String::from("diamond_fst"),
        all_distances: vec![
            weights(&[1, 0, 0, 5]),
            weights(&[2, 1, 3, 2 * 5 + 3 * 7 + 3]),
            weights(&[0, 0, 1, 8]),
            weights(&[0, 0, 0, 1]),
        ],
    }
}

fn get_vector_fsts_for_tests() -> Vec<VectorFstTestData> {
    vec![
        empty_fst(),
        single_state_fst(),
        no_start_fst(),
        linear_fst(),
        triangle_fst(),
        diamond_fst(),
    ]
}

#[test]
fn test_single_source_shortest_distance_generic() {
    for data in get_vector_fsts_for_tests() {
        let fst = data.fst;
        let d_ref = data.all_distances;

        for state in 0..fst.num_states() {
            let d = single_source_shortest_distance(&fst, state).unwrap();
            assert_eq!(
                d, d_ref[state],
                "Test failing for single source shortest distance on wFST {:?} at state {:?}",
                data.name, state
            );
        }

        let d = single_source_shortest_distance(&fst, fst.num_states()).unwrap();
        assert_eq!(
            d,
            vec![IntegerWeight::zero(); fst.num_states()],
            "Test failing for single source shortest distance on wFST {:?} at state {:?}",
            data.name,
            fst.num_states()
        );
    }
}

#[test]
fn test_shortest_distance_generic() {
    for data in get_vector_fsts_for_tests() {
        let fst = data.fst;
        let d_ref = data.all_distances;
        let d = shortest_distance(&fst).unwrap();

        if let Some(start_state) = fst.start() {
            assert_eq!(
                d, d_ref[start_state],
                "Test failing for all shortest distance on wFST : {:?}",
                data.name
            );
        } else {
            assert_eq!(
                d,
                vec![IntegerWeight::zero(); fst.num_states()],
                "Test failing for all shortest distance on wFST : {:?}",
                data.name
            );
        }
    }
}

#[test]
fn shortest_distance_of_integer_triangle_sums_over_both_paths() {
    let fst = triangle_fst().fst;
    let d = shortest_distance(&fst).unwrap();
    assert_eq!(d, weights(&[1, 18, 1011]));
}

#[test]
fn shortest_distance_of_tropical_triangle_takes_the_cheaper_path() {
    let mut fst: VectorFst<TropicalWeight> = VectorFst::new();
    let s0 = fst.add_state();
    let s1 = fst.add_state();
    let s2 = fst.add_state();
    fst.set_start(s0).unwrap();
    fst.add_tr(s0, Tr::new(1, 1, TropicalWeight::new(3), s1)).unwrap();
    fst.add_tr(s0, Tr::new(2, 2, TropicalWeight::new(5), s2)).unwrap();
    fst.add_tr(s1, Tr::new(3, 3, TropicalWeight::new(1), s2)).unwrap();
    let d = shortest_distance(&fst).unwrap();
    assert_eq!(
        d,
        vec![TropicalWeight::new(0), TropicalWeight::new(3), TropicalWeight::new(4)]
    );
}

#[test]
fn shortest_distance_ends_on_a_tropical_cycle() {
    let mut fst: VectorFst<TropicalWeight> = VectorFst::new();
    let s0 = fst.add_state();
    let s1 = fst.add_state();
    let s2 = fst.add_state();
    fst.set_start(s0).unwrap();
    fst.add_tr(s0, Tr::new(1, 1, TropicalWeight::new(2), s1)).unwrap();
    fst.add_tr(s1, Tr::new(1, 1, TropicalWeight::new(2), s0)).unwrap();
    fst.add_tr(s1, Tr::new(1, 1, TropicalWeight::new(7), s2)).unwrap();
    fst.add_tr(s2, Tr::new(1, 1, TropicalWeight::new(0), s2)).unwrap();
    let d = single_source_shortest_distance(&fst, s1).unwrap();
    assert_eq!(
        d,
        vec![TropicalWeight::new(2), TropicalWeight::new(0), TropicalWeight::new(7)]
    );
}

#[test]
fn shortest_distance_is_zero_exactly_at_unreachable_states() {
    let mut fst: VectorFst<BooleanWeight> = VectorFst::new();
    let s0 = fst.add_state();
    let s1 = fst.add_state();
    let s2 = fst.add_state();
    let s3 = fst.add_state();
    fst.set_start(s0).unwrap();
    fst.add_tr(s0, Tr::new(1, 1, BooleanWeight::one(), s1)).unwrap();
    fst.add_tr(s1, Tr::new(1, 1, BooleanWeight::one(), s0)).unwrap();
    fst.add_tr(s3, Tr::new(1, 1, BooleanWeight::one(), s2)).unwrap();
    fst.add_tr(s1, Tr::new(1, 1, BooleanWeight::one(), s2)).unwrap();
    let d = shortest_distance(&fst).unwrap();
    assert_eq!(
        d,
        vec![
            BooleanWeight::new(true),
            BooleanWeight::new(true),
            BooleanWeight::new(true),
            BooleanWeight::new(false)
        ]
    );
}

#[test]
fn shortest_distance_without_start_is_zero_everywhere() {
    let fst = no_start_fst().fst;
    let d = shortest_distance(&fst).unwrap();
    assert_eq!(d, vec![IntegerWeight::zero(), IntegerWeight::zero()]);
}

#[test]
fn shortest_distance_without_start_is_zero_on_a_cycle_too() {
    // a cycle over a semiring in which sums need not settle
    let mut fst: VectorFst<IntegerWeight> = VectorFst::new();
    fst.add_states(2);
    fst.add_tr(0, Tr::new(1, 1, IntegerWeight::new(2), 1)).unwrap();
    fst.add_tr(1, Tr::new(1, 1, IntegerWeight::new(2), 0)).unwrap();
    assert_eq!(shortest_distance(&fst), Ok(vec![IntegerWeight::zero(), IntegerWeight::zero()]));
    assert_eq!(
        single_source_shortest_distance(&fst, 2),
        Ok(vec![IntegerWeight::zero(), IntegerWeight::zero()])
    );
}
