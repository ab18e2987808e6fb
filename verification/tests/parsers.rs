use rustfst::conformance::{outcomes_agree, same_graph, ShorestPathOperationResult};
use rustfst::error::FstError;
use rustfst::fst_impls::vector_fst::VectorFst;
use rustfst::fst_properties::FstProperties;
use rustfst::fst_traits::{Fst, MutableFst};
use rustfst::parsers::text::{parse_number, parse_number_at, split_fields};
use rustfst::parsers::text_fst::{from_text_string, parse_rows, parse_text_fst, Row};
use rustfst::semirings::boolean_weight::BooleanWeight;
use rustfst::semirings::integer_weight::IntegerWeight;
use rustfst::semirings::semiring::{Semiring, SerializableSemiring};
use rustfst::semirings::tropical_weight::TropicalWeight;
use rustfst::tr::Tr;

#[test]
fn fields_are_the_runs_between_separators() {
    let line = b"  12\t7  345 \r";
    assert_eq!(split_fields(line, false), vec![(2, 4), (5, 6), (8, 11)]);
    assert_eq!(split_fields(b"", false), vec![]);
    assert_eq!(split_fields(b"   ", false), vec![]);
    assert_eq!(split_fields(b"a", false), vec![(0, 1)]);
}

#[test]
fn lines_end_at_newlines_and_empty_lines_are_no_lines() {
    let text = b"0 1\n\n2\n";
    assert_eq!(split_fields(text, true), vec![(0, 3), (5, 6)]);
    assert_eq!(split_fields(b"a b", true), vec![(0, 3)]);
}

#[test]
fn numbers_are_decimal_and_bounded() {
    assert_eq!(parse_number(b"0", 10), Some(0));
    assert_eq!(parse_number(b"007", 10), Some(7));
    assert_eq!(parse_number(b"10", 10), Some(10));
    assert_eq!(parse_number(b"11", 10), None);
    assert_eq!(parse_number(b"", 10), None);
    assert_eq!(parse_number(b"1a", 10), None);
    assert_eq!(parse_number(b"-1", 10), None);
    assert_eq!(parse_number(b"18446744073709551615", u64::MAX), Some(u64::MAX));
    assert_eq!(parse_number(b"18446744073709551616", u64::MAX), None);
    assert_eq!(parse_number(b"99999999999999999999999", u64::MAX), None);
    assert_eq!(parse_number(b"9", 5), None);
    assert_eq!(parse_number_at(b"ab123cd", (2, 5), 1000), Some(123));
}

#[test]
fn weights_are_read_from_text() {
    assert_eq!(TropicalWeight::parse_text(b"12"), Some(TropicalWeight::new(12)));
    assert_eq!(TropicalWeight::parse_text(b"18446744073709551615"), Some(TropicalWeight::zero()));
    assert_eq!(TropicalWeight::parse_text(b"1.5"), None);
    assert_eq!(IntegerWeight::parse_text(b"3"), Some(IntegerWeight::new(3)));
    assert_eq!(IntegerWeight::parse_text(b""), None);
    assert_eq!(BooleanWeight::parse_text(b"1"), Some(BooleanWeight::new(true)));
    assert_eq!(BooleanWeight::parse_text(b"0"), Some(BooleanWeight::new(false)));
    assert_eq!(BooleanWeight::parse_text(b"2"), None);
}

#[test]
fn a_text_gives_the_transducer_it_describes() {
    let text = "0 1 1 2 3\n0 2 4 5\n1 2 6 7 8\n2 9\n1\n";
    let fst: VectorFst<TropicalWeight> = from_text_string(text).unwrap();
    assert_eq!(fst.num_states(), 3);
    assert_eq!(fst.start(), Some(0));
    assert_eq!(
        fst.get_trs(0).unwrap().to_vec(),
        vec![Tr::new(1, 2, TropicalWeight::new(3), 1), Tr::new(4, 5, TropicalWeight::one(), 2)]
    );
    assert_eq!(fst.get_trs(1).unwrap().to_vec(), vec![Tr::new(6, 7, TropicalWeight::new(8), 2)]);
    assert_eq!(fst.get_trs(2).unwrap().to_vec(), vec![]);
    assert_eq!(fst.final_weight(0), Ok(None));
    assert_eq!(fst.final_weight(1), Ok(Some(TropicalWeight::one())));
    assert_eq!(fst.final_weight(2), Ok(Some(TropicalWeight::new(9))));
    assert_eq!(fst.properties(), FstProperties::empty());
    assert!(fst.input_symbols().is_none());
    assert!(fst.output_symbols().is_none());
}

#[test]
fn the_state_of_the_first_row_is_the_start_state() {
    let fst: VectorFst<IntegerWeight> = parse_text_fst(b"3 1 1 1\n1 2\n").unwrap();
    assert_eq!(fst.start(), Some(3));
    assert_eq!(fst.num_states(), 4);
    assert_eq!(fst.final_weight(1), Ok(Some(IntegerWeight::new(2))));
    let fst: VectorFst<IntegerWeight> = parse_text_fst(b"2\n0 1 5 5\n").unwrap();
    assert_eq!(fst.start(), Some(2));
    assert_eq!(fst.num_states(), 3);
    assert_eq!(fst.final_weight(2), Ok(Some(IntegerWeight::one())));
}

#[test]
fn an_empty_text_is_the_empty_transducer() {
    let fst: VectorFst<TropicalWeight> = parse_text_fst(b"").unwrap();
    assert_eq!(fst.num_states(), 0);
    assert_eq!(fst.start(), None);
    let fst: VectorFst<TropicalWeight> = parse_text_fst(b"\n  \n\t\n").unwrap();
    assert_eq!(fst.num_states(), 0);
}

#[test]
fn a_later_final_weight_replaces_an_earlier_one_and_zero_is_not_final() {
    let fst: VectorFst<IntegerWeight> = parse_text_fst(b"0 4\n0 6\n1 0\n").unwrap();
    assert_eq!(fst.final_weight(0), Ok(Some(IntegerWeight::new(6))));
    assert_eq!(fst.final_weight(1), Ok(None));
}

#[test]
fn malformed_text_is_invalid_input() {
    let cases: Vec<&[u8]> = vec![
        b"0 1 2",
        b"0 1 2 3 4 5",
        b"0 1 a 3",
        b"x",
        b"0 1 1 1 1.5",
        b"0 1 4294967296 1",
        b"0 1 1 1\nfoo bar\n",
        b"18446744073709551615",
        b"0 -1",
    ];
    for text in cases {
        let r: Result<VectorFst<TropicalWeight>, FstError> = parse_text_fst(text);
        assert_eq!(r.err(), Some(FstError::InvalidInput));
        assert!(parse_rows::<TropicalWeight>(text).is_none());
    }
}

#[test]
fn rows_are_read_in_order() {
    let rows = parse_rows::<BooleanWeight>(b"0 1 2 3 1\r\n1\r\n").unwrap();
    assert_eq!(rows.len(), 2);
    match rows[0] {
        Row::Transition { state, tr } => {
            assert_eq!(state, 0);
            assert_eq!(tr, Tr::new(2, 3, BooleanWeight::new(true), 1));
        }
        Row::Final { .. } => panic!("the first row is a transition"),
    }
    match rows[1] {
        Row::Final { state, weight } => {
            assert_eq!(state, 1);
            assert_eq!(weight, BooleanWeight::one());
        }
        Row::Transition { .. } => panic!("the second row makes a state final"),
    }
    assert_eq!(rows[0].subject(), 0);
    assert_eq!(rows[0].highest(), 1);
}

#[test]
fn an_expected_outcome_is_a_transducer_or_a_failure() {
    let expected = ShorestPathOperationResult {
        unique: true,
        nshortest: 3,
        result: String::from("0 1 1 1 2\n1\n"),
    };
    let data = expected.parse::<TropicalWeight, VectorFst<TropicalWeight>>();
    assert!(data.unique);
    assert_eq!(data.nshortest, 3);
    let fst = data.result.unwrap();
    assert_eq!(fst.num_states(), 2);
    assert_eq!(fst.get_trs(0).unwrap().to_vec(), vec![Tr::new(1, 1, TropicalWeight::new(2), 1)]);

    let failure =
        ShorestPathOperationResult { unique: false, nshortest: 1, result: String::from("error") };
    let data = failure.parse::<TropicalWeight, VectorFst<TropicalWeight>>();
    assert!(!data.unique);
    assert_eq!(data.nshortest, 1);
    assert_eq!(data.result.err(), Some(FstError::InvalidInput));

    let malformed =
        ShorestPathOperationResult { unique: false, nshortest: 1, result: String::from("0 1 2") };
    let data = malformed.parse::<TropicalWeight, VectorFst<TropicalWeight>>();
    assert_eq!(data.result.err(), Some(FstError::InvalidInput));
}

#[test]
fn graphs_are_compared_without_their_property_bits() {
    let a: VectorFst<TropicalWeight> = parse_text_fst(b"0 1 1 1 2\n1\n").unwrap();
    let mut b: VectorFst<TropicalWeight> = VectorFst::new();
    b.add_states(2);
    b.set_start(0).unwrap();
    b.add_tr(0, Tr::new(1, 1, TropicalWeight::new(2), 1)).unwrap();
    assert!(!same_graph(&a, &b));
    b.set_final(1, TropicalWeight::one()).unwrap();
    assert!(same_graph(&a, &b));
    assert_ne!(a.properties(), b.properties());
    b.add_tr(1, Tr::new(1, 1, TropicalWeight::new(2), 1)).unwrap();
    assert!(!same_graph(&a, &b));
    let mut c: VectorFst<TropicalWeight> = parse_text_fst(b"0 1 1 1 2\n1\n").unwrap();
    c.set_start(1).unwrap();
    assert!(!same_graph(&a, &c));
    c.unset_start();
    assert!(!same_graph(&a, &c));
    let d: VectorFst<TropicalWeight> = parse_text_fst(b"0 1 1 1 3\n1\n").unwrap();
    assert!(!same_graph(&a, &d));
    let e: VectorFst<TropicalWeight> = parse_text_fst(b"0 1 1 1 2\n1\n2\n").unwrap();
    assert!(!same_graph(&a, &e));
}

#[test]
fn outcomes_agree_when_both_fail_or_both_give_the_same_graph() {
    let fst = || -> Result<VectorFst<TropicalWeight>, FstError> { parse_text_fst(b"0 1 1 1 2\n1\n") };
    let other = || -> Result<VectorFst<TropicalWeight>, FstError> { parse_text_fst(b"0 1 1 1\n1\n") };
    let failure = || -> Result<VectorFst<TropicalWeight>, FstError> { Err(FstError::NotConvergent) };
    let refusal = || -> Result<VectorFst<TropicalWeight>, FstError> { Err(FstError::InvalidInput) };
    assert!(outcomes_agree(&fst(), &fst()));
    assert!(!outcomes_agree(&fst(), &other()));
    assert!(!outcomes_agree(&fst(), &failure()));
    assert!(!outcomes_agree(&failure(), &fst()));
    assert!(outcomes_agree(&failure(), &refusal()));
}
