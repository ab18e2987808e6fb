//! The concatenation of two transducers as a transducer of its own.

use std::marker::PhantomData;
use std::sync::Arc;
use vstd::prelude::*;
use crate::algorithms::rational::{concat, concatenated};
use crate::error::FstError;
use crate::fst_properties::FstProperties;
use crate::fst_traits::{Fst, MutableFst};
use crate::fst_view::FstView;
use crate::semirings::semiring::Semiring;
use crate::symbol_table::SymbolTable;
use crate::tr::{StateId, Tr};

verus! {

/// The concatenation of two transducers, which can be read and not
/// changed.
pub struct ConcatFst<W: Semiring, F: MutableFst<W>> {
    fst: F,
    weight: PhantomData<W>,
}

impl<W: Semiring, F: MutableFst<W>> ConcatFst<W, F> {
    /// The concatenation of `fst1` and `fst2`. Two transducers with more
    /// states than a machine word can count are refused.
    pub fn new(fst1: F, fst2: &F) -> (r: Result<Self, FstError>)
        requires
            fst1@.wf(),
            fst2@.wf(),
        ensures
            match r {
                Ok(both) => both@ == concatenated(fst1@, fst2@) && both@.wf(),
                Err(e) => e == FstError::InvalidInput && fst1@.states.len() + fst2@.states.len()
                    > usize::MAX,
            },
    {
        let mut fst = fst1;
        match concat(&mut fst, fst2) {
            Ok(_) => Ok(ConcatFst { fst, weight: PhantomData }),
            Err(e) => Err(e),
        }
    }
}

impl<W: Semiring, F: MutableFst<W>> View for ConcatFst<W, F> {
    type V = FstView<W>;

    closed spec fn view(&self) -> FstView<W> {
        self.fst@
    }
}

impl<W: Semiring, F: MutableFst<W>> Fst<W> for ConcatFst<W, F> {
    fn start(&self) -> (r: Option<StateId>) {
        self.fst.start()
    }

    fn num_states(&self) -> (n: usize) {
        self.fst.num_states()
    }

    fn final_weight(&self, state_id: StateId) -> (r: Result<Option<W>, FstError>) {
        self.fst.final_weight(state_id)
    }

    fn final_weight_unchecked(&self, state_id: StateId) -> (r: Option<W>) {
        self.fst.final_weight_unchecked(state_id)
    }

    fn num_trs(&self, s: StateId) -> (r: Result<usize, FstError>) {
        self.fst.num_trs(s)
    }

    fn num_trs_unchecked(&self, s: StateId) -> (n: usize) {
        self.fst.num_trs_unchecked(s)
    }

    fn get_trs(&self, state_id: StateId) -> (r: Result<&[Tr<W>], FstError>) {
        self.fst.get_trs(state_id)
    }

    fn get_trs_unchecked(&self, state_id: StateId) -> (trs: &[Tr<W>]) {
        self.fst.get_trs_unchecked(state_id)
    }

    fn properties(&self) -> (p: FstProperties) {
        self.fst.properties()
    }

    fn input_symbols(&self) -> (r: Option<&Arc<SymbolTable>>) {
        self.fst.input_symbols()
    }

    fn output_symbols(&self) -> (r: Option<&Arc<SymbolTable>>) {
        self.fst.output_symbols()
    }

    fn set_input_symbols(&mut self, symt: Arc<SymbolTable>) {
        self.fst.set_input_symbols(symt)
    }

    fn set_output_symbols(&mut self, symt: Arc<SymbolTable>) {
        self.fst.set_output_symbols(symt)
    }

    fn take_input_symbols(&mut self) -> (r: Option<Arc<SymbolTable>>) {
        self.fst.take_input_symbols()
    }

    fn take_output_symbols(&mut self) -> (r: Option<Arc<SymbolTable>>) {
        self.fst.take_output_symbols()
    }
}

} // verus!
