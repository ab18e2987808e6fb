//! The transducer that keeps all its transitions in one array.

use std::sync::Arc;
use vstd::prelude::*;
use vstd::slice::slice_subrange;
use crate::error::FstError;
use crate::fst_properties::FstProperties;
use crate::fst_traits::{symbols_of, Fst};
use crate::fst_view::{FstView, StateView};
use crate::semirings::semiring::Semiring;
use crate::symbol_table::{share_symbol_table, SymbolTable};
use crate::tr::{StateId, Tr};

verus! {

/// A state: its final weight, if it is final, and the place of its
/// transitions in the array of all transitions.
#[derive(Debug, PartialEq, Clone)]
pub struct ConstState<W: Semiring> {
    final_weight: Option<W>,
    pos: usize,
    ntrs: usize,
}

/// A transducer that cannot be changed: the transitions of all states
/// stand in one array, those of each state together.
#[derive(Debug, PartialEq)]
pub struct ConstFst<W: Semiring> {
    states: Vec<ConstState<W>>,
    trs: Vec<Tr<W>>,
    start: Option<StateId>,
    isymt: Option<Arc<SymbolTable>>,
    osymt: Option<Arc<SymbolTable>>,
    properties: FstProperties,
}

impl<W: Semiring> ConstFst<W> {
    /// The transitions of each state lie inside the array.
    #[verifier::type_invariant]
    closed spec fn inv(self) -> bool {
        forall|s: int|
            0 <= s < self.states.len() ==> (#[trigger] self.states[s]).pos + self.states[s].ntrs
                <= self.trs.len()
    }

    /// A transducer of this kind with the states, transitions, start state,
    /// symbol tables and property bits of `fst`.
    pub fn from_fst<F: Fst<W>>(fst: &F) -> (r: Self)
        ensures
            r@ == fst@,
    {
        let ghost f = fst@;
        let n = fst.num_states();
        let mut states: Vec<ConstState<W>> = Vec::new();
        let mut trs: Vec<Tr<W>> = Vec::new();
        let mut s: usize = 0;
        while s < n
            invariant
                s <= n,
                n == f.states.len(),
                f == fst@,
                states.len() == s,
                forall|t: int|
                    0 <= t < s ==> {
                        &&& (#[trigger] states@[t]).pos + states@[t].ntrs <= trs.len()
                        &&& states@[t].final_weight == f.states[t].final_weight
                        &&& trs@.subrange(
                            states@[t].pos as int,
                            states@[t].pos + states@[t].ntrs,
                        ) == f.states[t].trs
                    },
            decreases n - s,
        {
            let leaving = fst.get_trs_unchecked(s);
            let pos = trs.len();
            let ghost before = trs@;
            let mut i: usize = 0;
            while i < leaving.len()
                invariant
                    i <= leaving.len(),
                    pos == before.len(),
                    trs@ == before + leaving@.take(i as int),
                decreases leaving.len() - i,
            {
                trs.push(leaving[i]);
                proof {
                    assert(trs@ =~= before + leaving@.take(i + 1));
                }
                i += 1;
            }
            let state = ConstState {
                final_weight: fst.final_weight_unchecked(s),
                pos,
                ntrs: leaving.len(),
            };
            let ghost earlier = states@;
            states.push(state);
            proof {
                assert(leaving@.take(leaving@.len() as int) =~= leaving@);
                assert forall|t: int| 0 <= t < s + 1 implies {
                    &&& (#[trigger] states@[t]).pos + states@[t].ntrs <= trs.len()
                    &&& states@[t].final_weight == f.states[t].final_weight
                    &&& trs@.subrange(states@[t].pos as int, states@[t].pos + states@[t].ntrs)
                        == f.states[t].trs
                } by {
                    if t < s {
                        assert(states@[t] == earlier[t]);
                        assert(trs@.subrange(
                            states@[t].pos as int,
                            states@[t].pos + states@[t].ntrs,
                        ) =~= before.subrange(
                            states@[t].pos as int,
                            states@[t].pos + states@[t].ntrs,
                        ));
                    } else {
                        assert(trs@.subrange(pos as int, pos + leaving@.len()) =~= leaving@);
                    }
                }
            }
            s += 1;
        }
        let isymt = match fst.input_symbols() {
            Some(symt) => Some(share_symbol_table(symt)),
            None => None,
        };
        let osymt = match fst.output_symbols() {
            Some(symt) => Some(share_symbol_table(symt)),
            None => None,
        };
        let r = ConstFst {
            states,
            trs,
            start: fst.start(),
            isymt,
            osymt,
            properties: fst.properties(),
        };
        proof {
            assert(r@.states =~= f.states);
            assert(r@ =~= f);
        }
        r
    }
}

impl<W: Semiring> View for ConstFst<W> {
    type V = FstView<W>;

    closed spec fn view(&self) -> FstView<W> {
        FstView {
            start: self.start,
            states: Seq::new(
                self.states.len() as nat,
                |s: int|
                    StateView {
                        final_weight: self.states[s].final_weight,
                        trs: self.trs@.subrange(
                            self.states[s].pos as int,
                            self.states[s].pos + self.states[s].ntrs,
                        ),
                    },
            ),
            properties: self.properties@,
            isymt: symbols_of(self.isymt),
            osymt: symbols_of(self.osymt),
        }
    }
}

impl<W: Semiring> Fst<W> for ConstFst<W> {
    fn start(&self) -> (r: Option<StateId>) {
        self.start
    }

    fn num_states(&self) -> (n: usize) {
        self.states.len()
    }

    fn final_weight(&self, state_id: StateId) -> (r: Result<Option<W>, FstError>) {
        if state_id < self.states.len() {
            Ok(self.states[state_id].final_weight)
        } else {
            Err(FstError::StateNotFound(state_id))
        }
    }

    fn final_weight_unchecked(&self, state_id: StateId) -> (r: Option<W>) {
        self.states[state_id].final_weight
    }

    fn num_trs(&self, s: StateId) -> (r: Result<usize, FstError>) {
        proof {
            use_type_invariant(self);
        }
        if s < self.states.len() {
            Ok(self.states[s].ntrs)
        } else {
            Err(FstError::StateNotFound(s))
        }
    }

    fn num_trs_unchecked(&self, s: StateId) -> (n: usize) {
        proof {
            use_type_invariant(self);
        }
        self.states[s].ntrs
    }

    fn get_trs(&self, state_id: StateId) -> (r: Result<&[Tr<W>], FstError>) {
        if state_id < self.states.len() {
            Ok(self.get_trs_unchecked(state_id))
        } else {
            Err(FstError::StateNotFound(state_id))
        }
    }

    fn get_trs_unchecked(&self, state_id: StateId) -> (trs: &[Tr<W>]) {
        proof {
            use_type_invariant(self);
        }
        let state = &self.states[state_id];
        slice_subrange(self.trs.as_slice(), state.pos, state.pos + state.ntrs)
    }

    fn properties(&self) -> (p: FstProperties) {
        self.properties
    }

    fn input_symbols(&self) -> (r: Option<&Arc<SymbolTable>>) {
        self.isymt.as_ref()
    }

    fn output_symbols(&self) -> (r: Option<&Arc<SymbolTable>>) {
        self.osymt.as_ref()
    }

    fn set_input_symbols(&mut self, symt: Arc<SymbolTable>) {
        proof {
            use_type_invariant(&*self);
        }
        self.isymt = Some(symt);
        proof {
            assert(self@ =~= old(self)@.with_isymt(Some(symt@)));
            if old(self)@.wf() {
                old(self)@.lemma_same_states_wf(self@);
            }
        }
    }

    fn set_output_symbols(&mut self, symt: Arc<SymbolTable>) {
        proof {
            use_type_invariant(&*self);
        }
        self.osymt = Some(symt);
        proof {
            assert(self@ =~= old(self)@.with_osymt(Some(symt@)));
            if old(self)@.wf() {
                old(self)@.lemma_same_states_wf(self@);
            }
        }
    }

    fn take_input_symbols(&mut self) -> (r: Option<Arc<SymbolTable>>) {
        proof {
            use_type_invariant(&*self);
        }
        let r = match &self.isymt {
            Some(symt) => Some(share_symbol_table(symt)),
            None => None,
        };
        self.isymt = None;
        proof {
            assert(self@ =~= old(self)@.with_isymt(None));
            if old(self)@.wf() {
                old(self)@.lemma_same_states_wf(self@);
            }
        }
        r
    }

    fn take_output_symbols(&mut self) -> (r: Option<Arc<SymbolTable>>) {
        proof {
            use_type_invariant(&*self);
        }
        let r = match &self.osymt {
            Some(symt) => Some(share_symbol_table(symt)),
            None => None,
        };
        self.osymt = None;
        proof {
            assert(self@ =~= old(self)@.with_osymt(None));
            if old(self)@.wf() {
                old(self)@.lemma_same_states_wf(self@);
            }
        }
        r
    }
}

} // verus!
