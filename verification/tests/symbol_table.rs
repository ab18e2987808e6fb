use rustfst::fst_impls::vector_fst::VectorFst;
use rustfst::fst_traits::{Fst, MutableFst};
use rustfst::semirings::boolean_weight::BooleanWeight;
use rustfst::symbol_table::SymbolTable;
use std::sync::Arc;

#[test]
fn symbol_table_starts_with_epsilon() {
    let symt = SymbolTable::new();
    assert_eq!(symt.len(), 1);
    assert!(!symt.is_empty());
    assert_eq!(symt.get_label("<eps>"), Some(0));
    assert_eq!(symt.get_symbol(0), Some("<eps>"));
    assert_eq!(symt.get_symbol(1), None);
}

#[test]
fn symbol_table_adds_each_symbol_once() {
    let mut symt = SymbolTable::new();
    assert_eq!(symt.add_symbol("a"), Some(1));
    assert_eq!(symt.add_symbol("b"), Some(2));
    assert_eq!(symt.add_symbol("a"), Some(1));
    assert_eq!(symt.len(), 3);
    assert_eq!(symt.get_label("b"), Some(2));
    assert_eq!(symt.get_label("c"), None);
    assert_eq!(symt.get_symbol(2), Some("b"));
    assert!(symt.contains_symbol("a"));
    assert!(!symt.contains_symbol("z"));
    assert!(symt.contains_label(2));
    assert!(!symt.contains_label(3));
}

#[test]
fn fst_shares_its_symbol_tables() {
    let mut symt = SymbolTable::new();
    symt.add_symbol("a");
    let symt = Arc::new(symt);
    let mut fst: VectorFst<BooleanWeight> = VectorFst::new();
    assert!(fst.input_symbols().is_none());
    fst.set_input_symbols(Arc::clone(&symt));
    fst.set_output_symbols(Arc::clone(&symt));
    assert_eq!(Arc::strong_count(&symt), 3);
    assert_eq!(fst.input_symbols().unwrap().get_label("a"), Some(1));
    let taken = fst.take_output_symbols();
    assert!(taken.is_some());
    assert!(fst.output_symbols().is_none());
    assert!(fst.input_symbols().is_some());
    assert!(fst.take_output_symbols().is_none());
}
