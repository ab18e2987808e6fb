//! The operations that every transducer offers, with their contracts.

use std::cmp::Ordering;
use std::sync::Arc;
use vstd::prelude::*;
use crate::error::FstError;
use crate::fst_properties::FstProperties;
use crate::algorithms::compute_properties::{
    all_fst_properties, all_property_bits, compute_fst_properties, true_properties,
};
use crate::algorithms::rational::{
    closure_of, closure_plus, closure_star, looped_upto, ClosureType,
};
use crate::algorithms::sorting::{is_stable_sort_of, is_strict_weak_order};
use crate::algorithms::tr_map::{final_tr_of, mapped, mapped_trs, mapped_upto, TrMapper};
use crate::fst_view::FstView;
use crate::fst_view_delete::listed;
use crate::semirings::semiring::Semiring;
use crate::symbol_table::SymbolTable;
use crate::tr::{Label, StateId, Tr, EPS_LABEL};
use crate::trs::{
    drop_listed, drop_repeats, indices_rise, lemma_summed_targets, lemma_without_listed_targets,
    lemma_without_repeats_targets, sum_runs, summed, without_listed, without_repeats,
};

verus! {

/// The symbols of an optional shared table.
pub open spec fn symbols_of(t: Option<Arc<SymbolTable>>) -> Option<Seq<Seq<char>>> {
    match t {
        Some(t) => Some(t@),
        None => None,
    }
}

/// The number of transitions among `trs` that read ε.
pub open spec fn count_input_epsilons<W: Semiring>(trs: Seq<Tr<W>>) -> nat {
    trs.filter(|tr: Tr<W>| tr.ilabel == EPS_LABEL).len()
}

/// The number of transitions among `trs` that write ε.
pub open spec fn count_output_epsilons<W: Semiring>(trs: Seq<Tr<W>>) -> nat {
    trs.filter(|tr: Tr<W>| tr.olabel == EPS_LABEL).len()
}

/// A transducer that can be read. Its view is the model that the contracts
/// speak of.
pub trait Fst<W: Semiring>: View<V = FstView<W>> + Sized {
    /// The start state, if there is one.
    fn start(&self) -> (r: Option<StateId>)
        ensures
            r == self@.start,
    ;

    /// The number of states.
    fn num_states(&self) -> (n: usize)
        ensures
            n == self@.states.len(),
    ;

    /// The final weight of a state; `None` for a state that is not final.
    fn final_weight(&self, state_id: StateId) -> (r: Result<Option<W>, FstError>)
        ensures
            r == if state_id < self@.states.len() {
                Ok::<Option<W>, FstError>(self@.states[state_id as int].final_weight)
            } else {
                Err::<Option<W>, FstError>(FstError::StateNotFound(state_id))
            },
    ;

    /// The final weight of a state that exists.
    fn final_weight_unchecked(&self, state_id: StateId) -> (r: Option<W>)
        requires
            state_id < self@.states.len(),
        ensures
            r == self@.states[state_id as int].final_weight,
    ;

    /// The number of transitions that leave a state.
    fn num_trs(&self, s: StateId) -> (r: Result<usize, FstError>)
        ensures
            r == if s < self@.states.len() {
                Ok::<usize, FstError>(self@.states[s as int].trs.len() as usize)
            } else {
                Err::<usize, FstError>(FstError::StateNotFound(s))
            },
            s < self@.states.len() ==> self@.states[s as int].trs.len() <= usize::MAX,
    ;

    /// The number of transitions that leave a state that exists.
    fn num_trs_unchecked(&self, s: StateId) -> (n: usize)
        requires
            s < self@.states.len(),
        ensures
            n == self@.states[s as int].trs.len(),
    ;

    /// The transitions that leave a state, in order.
    fn get_trs(&self, state_id: StateId) -> (r: Result<&[Tr<W>], FstError>)
        ensures
            match r {
                Ok(trs) => state_id < self@.states.len() && trs@ == self@.states[state_id as int].trs,
                Err(e) => state_id >= self@.states.len() && e == FstError::StateNotFound(state_id),
            },
    ;

    /// The transitions that leave a state that exists, in order.
    fn get_trs_unchecked(&self, state_id: StateId) -> (trs: &[Tr<W>])
        requires
            state_id < self@.states.len(),
        ensures
            trs@ == self@.states[state_id as int].trs,
    ;

    /// The property bits that are known of the transducer.
    fn properties(&self) -> (p: FstProperties)
        ensures
            p@ == self@.properties,
    ;

    /// The table that names the input labels, if one is attached.
    fn input_symbols(&self) -> (r: Option<&Arc<SymbolTable>>)
        ensures
            match r {
                Some(t) => self@.isymt == Some(t@),
                None => self@.isymt is None,
            },
    ;

    /// The table that names the output labels, if one is attached.
    fn output_symbols(&self) -> (r: Option<&Arc<SymbolTable>>)
        ensures
            match r {
                Some(t) => self@.osymt == Some(t@),
                None => self@.osymt is None,
            },
    ;

    /// Attaches a table that names the input labels.
    fn set_input_symbols(&mut self, symt: Arc<SymbolTable>)
        ensures
            final(self)@ == old(self)@.with_isymt(Some(symt@)),
            old(self)@.wf() ==> final(self)@.wf(),
    ;

    /// Attaches a table that names the output labels.
    fn set_output_symbols(&mut self, symt: Arc<SymbolTable>)
        ensures
            final(self)@ == old(self)@.with_osymt(Some(symt@)),
            old(self)@.wf() ==> final(self)@.wf(),
    ;

    /// Detaches the table of the input labels and returns it.
    fn take_input_symbols(&mut self) -> (r: Option<Arc<SymbolTable>>)
        ensures
            final(self)@ == old(self)@.with_isymt(None),
            symbols_of(r) == old(self)@.isymt,
            old(self)@.wf() ==> final(self)@.wf(),
    ;

    /// Detaches the table of the output labels and returns it.
    fn take_output_symbols(&mut self) -> (r: Option<Arc<SymbolTable>>)
        ensures
            final(self)@ == old(self)@.with_osymt(None),
            symbols_of(r) == old(self)@.osymt,
            old(self)@.wf() ==> final(self)@.wf(),
    ;

    /// Whether a state is final.
    fn is_final(&self, state_id: StateId) -> (r: Result<bool, FstError>)
        ensures
            r == if state_id < self@.states.len() {
                Ok::<bool, FstError>(self@.is_final(state_id as int))
            } else {
                Err::<bool, FstError>(FstError::StateNotFound(state_id))
            },
    {
        match self.final_weight(state_id) {
            Ok(w) => Ok(w.is_some()),
            Err(e) => Err(e),
        }
    }

    /// Whether a state is the start state.
    fn is_start(&self, state_id: StateId) -> (b: bool)
        ensures
            b == (self@.start == Some(state_id)),
    {
        match self.start() {
            Some(s) => s == state_id,
            None => false,
        }
    }

    /// The number of transitions of a state that read ε.
    fn num_input_epsilons(&self, state: StateId) -> (r: Result<usize, FstError>)
        ensures
            r == if state < self@.states.len() {
                Ok::<usize, FstError>(
                    count_input_epsilons(self@.states[state as int].trs) as usize,
                )
            } else {
                Err::<usize, FstError>(FstError::StateNotFound(state))
            },
    {
        match self.get_trs(state) {
            Err(e) => Err(e),
            Ok(trs) => Ok(count_labels(trs, true)),
        }
    }

    /// The number of transitions of a state that write ε.
    fn num_output_epsilons(&self, state: StateId) -> (r: Result<usize, FstError>)
        ensures
            r == if state < self@.states.len() {
                Ok::<usize, FstError>(
                    count_output_epsilons(self@.states[state as int].trs) as usize,
                )
            } else {
                Err::<usize, FstError>(FstError::StateNotFound(state))
            },
    {
        match self.get_trs(state) {
            Err(e) => Err(e),
            Ok(trs) => Ok(count_labels(trs, false)),
        }
    }
}

/// A transducer that can be changed in place.
///
/// Every operation keeps the transducer well formed. A checked operation
/// reports a state that does not exist and then changes nothing; its
/// unchecked twin leaves the test to the caller.
pub trait MutableFst<W: Semiring>: Fst<W> {
    /// A transducer without states.
    fn new() -> (fst: Self)
        ensures
            fst@ == FstView::<W>::empty(),
            fst@.wf(),
    ;

    /// Makes `state_id` the start state. There is one start state at most:
    /// an earlier one is forgotten.
    fn set_start(&mut self, state_id: StateId) -> (r: Result<(), FstError>)
        requires
            old(self)@.wf(),
        ensures
            final(self)@.wf(),
            state_id < old(self)@.states.len() ==> r is Ok && final(self)@ == old(self)@.set_start(
                state_id,
            ),
            state_id >= old(self)@.states.len() ==> r == Err::<(), FstError>(
                FstError::StateNotFound(state_id),
            ) && final(self)@ == old(self)@,
    ;

    /// Makes a state that exists the start state.
    fn set_start_unchecked(&mut self, state: StateId)
        requires
            old(self)@.wf(),
            state < old(self)@.states.len(),
        ensures
            final(self)@.wf(),
            final(self)@ == old(self)@.set_start(state),
    ;

    /// Leaves the transducer without start state.
    fn unset_start(&mut self)
        requires
            old(self)@.wf(),
        ensures
            final(self)@.wf(),
            final(self)@ == old(self)@.with_start(None),
    ;

    /// Gives a state its final weight. A state with final weight `0̄` is not
    /// final.
    fn set_final(&mut self, state_id: StateId, final_weight: W) -> (r: Result<(), FstError>)
        requires
            old(self)@.wf(),
        ensures
            final(self)@.wf(),
            state_id < old(self)@.states.len() ==> r is Ok && final(self)@ == old(self)@.set_final(
                state_id as int,
                final_weight,
            ),
            state_id >= old(self)@.states.len() ==> r == Err::<(), FstError>(
                FstError::StateNotFound(state_id),
            ) && final(self)@ == old(self)@,
    ;

    /// Gives a state that exists its final weight.
    fn set_final_unchecked(&mut self, state_id: StateId, final_weight: W)
        requires
            old(self)@.wf(),
            state_id < old(self)@.states.len(),
        ensures
            final(self)@.wf(),
            final(self)@ == old(self)@.set_final(state_id as int, final_weight),
    ;

    /// Appends a state without transitions and returns its index.
    fn add_state(&mut self) -> (s: StateId)
        requires
            old(self)@.wf(),
        ensures
            final(self)@.wf(),
            s == old(self)@.states.len(),
            final(self)@ == old(self)@.add_states(1),
    ;

    /// Appends `n` states without transitions.
    fn add_states(&mut self, n: usize)
        requires
            old(self)@.wf(),
        ensures
            final(self)@.wf(),
            final(self)@ == old(self)@.add_states(n as nat),
    ;

    /// Appends a transition to those that leave `source`. Both `source` and
    /// the state that the transition leads to must exist.
    fn add_tr(&mut self, source: StateId, tr: Tr<W>) -> (r: Result<(), FstError>)
        requires
            old(self)@.wf(),
        ensures
            final(self)@.wf(),
            r == add_tr_result(old(self)@, source, tr),
            r is Ok ==> final(self)@ == old(self)@.add_tr(source as int, tr),
            r is Err ==> final(self)@ == old(self)@,
    ;

    /// Appends a transition between states that exist.
    fn add_tr_unchecked(&mut self, state: StateId, tr: Tr<W>)
        requires
            old(self)@.wf(),
            state < old(self)@.states.len(),
            tr.nextstate < old(self)@.states.len(),
        ensures
            final(self)@.wf(),
            final(self)@ == old(self)@.add_tr(state as int, tr),
    ;

    /// Appends the transition made of the four values.
    fn emplace_tr(
        &mut self,
        source: StateId,
        ilabel: Label,
        olabel: Label,
        weight: W,
        nextstate: StateId,
    ) -> (r: Result<(), FstError>)
        requires
            old(self)@.wf(),
        ensures
            final(self)@.wf(),
            r == add_tr_result(old(self)@, source, Tr { ilabel, olabel, weight, nextstate }),
            r is Ok ==> final(self)@ == old(self)@.add_tr(
                source as int,
                Tr { ilabel, olabel, weight, nextstate },
            ),
            r is Err ==> final(self)@ == old(self)@,
    {
        self.add_tr(source, Tr::new(ilabel, olabel, weight, nextstate))
    }

    /// Appends the transition made of the four values, between states that
    /// exist.
    fn emplace_tr_unchecked(
        &mut self,
        state: StateId,
        ilabel: Label,
        olabel: Label,
        weight: W,
        nextstate: StateId,
    )
        requires
            old(self)@.wf(),
            state < old(self)@.states.len(),
            nextstate < old(self)@.states.len(),
        ensures
            final(self)@.wf(),
            final(self)@ == old(self)@.add_tr(
                state as int,
                Tr { ilabel, olabel, weight, nextstate },
            ),
    {
        self.add_tr_unchecked(state, Tr::new(ilabel, olabel, weight, nextstate))
    }

    /// Replaces the transitions that leave `source`. Nothing is known of the
    /// new transitions, so every property bit is cleared.
    fn set_trs_unchecked(&mut self, source: StateId, trs: Vec<Tr<W>>)
        requires
            old(self)@.wf(),
            source < old(self)@.states.len(),
            forall|i: int|
                0 <= i < trs@.len() ==> (#[trigger] trs@[i]).nextstate < old(self)@.states.len(),
        ensures
            final(self)@.wf(),
            final(self)@ == old(self)@.set_trs(source as int, trs@),
    ;

    /// Makes a state non-final.
    fn delete_final_weight(&mut self, source: StateId) -> (r: Result<(), FstError>)
        requires
            old(self)@.wf(),
        ensures
            final(self)@.wf(),
            source < old(self)@.states.len() ==> r is Ok && final(self)@ == old(
                self,
            )@.delete_final(source as int),
            source >= old(self)@.states.len() ==> r == Err::<(), FstError>(
                FstError::StateNotFound(source),
            ) && final(self)@ == old(self)@,
    ;

    /// Makes a state that exists non-final.
    fn delete_final_weight_unchecked(&mut self, source: StateId)
        requires
            old(self)@.wf(),
            source < old(self)@.states.len(),
        ensures
            final(self)@.wf(),
            final(self)@ == old(self)@.delete_final(source as int),
    ;

    /// Removes the transitions that leave a state.
    fn delete_trs(&mut self, source: StateId) -> (r: Result<(), FstError>)
        requires
            old(self)@.wf(),
        ensures
            final(self)@.wf(),
            source < old(self)@.states.len() ==> r is Ok && final(self)@ == old(self)@.delete_trs(
                source as int,
            ),
            source >= old(self)@.states.len() ==> r == Err::<(), FstError>(
                FstError::StateNotFound(source),
            ) && final(self)@ == old(self)@,
    ;

    /// Removes the transitions that leave a state and returns them.
    fn pop_trs(&mut self, source: StateId) -> (r: Result<Vec<Tr<W>>, FstError>)
        requires
            old(self)@.wf(),
        ensures
            final(self)@.wf(),
            match r {
                Ok(trs) => source < old(self)@.states.len() && trs@ == old(
                    self,
                )@.states[source as int].trs && final(self)@ == old(self)@.delete_trs(
                    source as int,
                ),
                Err(e) => source >= old(self)@.states.len() && e == FstError::StateNotFound(source)
                    && final(self)@ == old(self)@,
            },
    ;

    /// Removes the transitions that leave a state that exists and returns
    /// them.
    fn pop_trs_unchecked(&mut self, source: StateId) -> (trs: Vec<Tr<W>>)
        requires
            old(self)@.wf(),
            source < old(self)@.states.len(),
        ensures
            final(self)@.wf(),
            trs@ == old(self)@.states[source as int].trs,
            final(self)@ == old(self)@.delete_trs(source as int),
    ;

    /// Makes a state non-final and returns the final weight it had.
    fn take_final_weight(&mut self, state_id: StateId) -> (r: Result<Option<W>, FstError>)
        requires
            old(self)@.wf(),
        ensures
            final(self)@.wf(),
            match r {
                Ok(w) => state_id < old(self)@.states.len() && w == old(
                    self,
                )@.states[state_id as int].final_weight && final(self)@ == old(
                    self,
                )@.delete_final(state_id as int),
                Err(e) => state_id >= old(self)@.states.len() && e == FstError::StateNotFound(
                    state_id,
                ) && final(self)@ == old(self)@,
            },
    ;

    /// Makes a state that exists non-final and returns the final weight it
    /// had.
    fn take_final_weight_unchecked(&mut self, state: StateId) -> (w: Option<W>)
        requires
            old(self)@.wf(),
            state < old(self)@.states.len(),
        ensures
            final(self)@.wf(),
            w == old(self)@.states[state as int].final_weight,
            final(self)@ == old(self)@.delete_final(state as int),
    ;

    /// Removes a state, and with it the transitions that lead to it. The
    /// states behind it move up by one.
    fn del_state(&mut self, state_id: StateId) -> (r: Result<(), FstError>)
        requires
            old(self)@.wf(),
        ensures
            final(self)@.wf(),
            state_id < old(self)@.states.len() ==> r is Ok && final(self)@ == old(
                self,
            )@.del_states(set![state_id as int]),
            state_id >= old(self)@.states.len() ==> r == Err::<(), FstError>(
                FstError::StateNotFound(state_id),
            ) && final(self)@ == old(self)@,
    ;

    /// Removes the listed states, and with them the transitions that lead to
    /// them. The other states keep their order and move up into the gaps, so
    /// that an index from before the call means nothing after it. A state
    /// that is listed twice is removed once. Where a listed state does not
    /// exist, the first such state is reported and nothing is changed.
    fn del_states(&mut self, states: &[StateId]) -> (r: Result<(), FstError>)
        requires
            old(self)@.wf(),
        ensures
            final(self)@.wf(),
            match r {
                Ok(_) => (forall|i: int|
                    0 <= i < states@.len() ==> states@[i] < old(self)@.states.len()) && final(self)@ == old(self)@.del_states(listed(states@)),
                Err(e) => final(self)@ == old(self)@ && exists|i: int|
                    0 <= i < states@.len() && states@[i] >= old(self)@.states.len() && e
                        == FstError::StateNotFound(states@[i]) && forall|j: int|
                        0 <= j < i ==> states@[j] < old(self)@.states.len(),
            },
    ;

    /// Removes every state, and with them the start state, the final weights
    /// and the transitions. The symbol tables stay.
    fn del_all_states(&mut self)
        ensures
            final(self)@.wf(),
            final(self)@ == old(self)@.del_all_states(),
    ;

    /// Sorts the transitions that leave `state` by `f`, which says of two
    /// transitions whether the first comes before, with or after the second.
    /// The transitions stay the same whatever `f` answers; where it answers as
    /// a strict weak order does, they end up in that order, and transitions
    /// that it ranks alike keep the order they had.
    fn sort_trs_unchecked<C: Fn(&Tr<W>, &Tr<W>) -> Ordering>(&mut self, state: StateId, f: &C)
        requires
            old(self)@.wf(),
            state < old(self)@.states.len(),
            forall|a: Tr<W>, b: Tr<W>| call_requires(*f, (&a, &b)),
        ensures
            final(self)@.wf(),
            final(self)@ == old(self)@.sorted_at(state, final(self)@.trs_at(state)),
            final(self)@.trs_at(state).to_multiset() == old(self)@.trs_at(state).to_multiset(),
            forall|lt: spec_fn(Tr<W>, Tr<W>) -> bool| #[trigger]
                compare_models(*f, lt) && is_strict_weak_order(lt) ==> is_stable_sort_of(
                    final(self)@.trs_at(state),
                    old(self)@.trs_at(state),
                    lt,
                ),
    ;

    /// Removes from the transitions that leave `state` those whose index
    /// occurs in `to_del`, which must not fall from one place to the next. An
    /// index that no transition has is passed over. Every property bit is
    /// cleared.
    fn del_trs_id_sorted_unchecked(&mut self, state: StateId, to_del: &[usize])
        requires
            old(self)@.wf(),
            state < old(self)@.states.len(),
            indices_rise(to_del@),
        ensures
            final(self)@.wf(),
            final(self)@ == old(self)@.set_trs(
                state as int,
                without_listed(old(self)@.trs_at(state), to_del@),
            ),
    {
        let ghost before = self@;
        let trs = self.pop_trs_unchecked(state);
        let kept = drop_listed(&trs, to_del);
        proof {
            assert forall|i: int| 0 <= i < trs@.len() implies (#[trigger] trs@[i]).nextstate
                < before.states.len() by {
                assert(before.has_tr(state as int, i));
            }
            lemma_without_listed_targets(trs@, to_del@, before.states.len());
        }
        self.set_trs_unchecked(state, kept);
        proof {
            let g = before.set_trs(state as int, kept@);
            assert(self@.states =~= g.states);
            assert(self@ =~= g);
        }
    }

    /// Removes from the transitions that leave `state` each one that equals
    /// the one before it in labels, weight and target. Where equal
    /// transitions stand together, as they do after a sort, one of each is
    /// left. Every property bit is cleared.
    fn unique_trs_unchecked(&mut self, state: StateId)
        requires
            old(self)@.wf(),
            state < old(self)@.states.len(),
        ensures
            final(self)@.wf(),
            final(self)@ == old(self)@.set_trs(
                state as int,
                without_repeats(old(self)@.trs_at(state)),
            ),
    {
        let ghost before = self@;
        let trs = self.pop_trs_unchecked(state);
        let kept = drop_repeats(&trs);
        proof {
            assert forall|i: int| 0 <= i < trs@.len() implies (#[trigger] trs@[i]).nextstate
                < before.states.len() by {
                assert(before.has_tr(state as int, i));
            }
            lemma_without_repeats_targets(trs@, before.states.len());
        }
        self.set_trs_unchecked(state, kept);
        proof {
            let g = before.set_trs(state as int, kept@);
            assert(self@.states =~= g.states);
            assert(self@ =~= g);
        }
    }

    /// Merges among the transitions that leave `state` each run of
    /// neighbours with the same labels and target into one transition, whose
    /// weight is the `⊕`-sum of theirs. Every property bit is cleared.
    fn sum_trs_unchecked(&mut self, state: StateId)
        requires
            old(self)@.wf(),
            state < old(self)@.states.len(),
        ensures
            final(self)@.wf(),
            final(self)@ == old(self)@.set_trs(state as int, summed(old(self)@.trs_at(state))),
    {
        let ghost before = self@;
        let trs = self.pop_trs_unchecked(state);
        let merged = sum_runs(&trs);
        proof {
            assert forall|i: int| 0 <= i < trs@.len() implies (#[trigger] trs@[i]).nextstate
                < before.states.len() by {
                assert(before.has_tr(state as int, i));
            }
            lemma_summed_targets(trs@, before.states.len());
        }
        self.set_trs_unchecked(state, merged);
        proof {
            let g = before.set_trs(state as int, merged@);
            assert(self@.states =~= g.states);
            assert(self@ =~= g);
        }
    }

    /// Computes the closure in place: the transducer then maps a sequence of
    /// strings that it mapped to the sequence of their images, with the
    /// product of their weights, and with `ClosureStar` the empty string to
    /// itself with weight `1̄`. From each final state an ε-transition leads
    /// back to the start state; `ClosureStar` adds a new start state that is
    /// final. A transducer with as many states as a machine word can count
    /// has no room for that state and is refused.
    fn closure(&mut self, closure_type: ClosureType) -> (r: Result<(), FstError>)
        requires
            old(self)@.wf(),
        ensures
            final(self)@.wf(),
            match r {
                Ok(_) => final(self)@ == closure_of(old(self)@, closure_type),
                Err(e) => e == FstError::InvalidInput && closure_type == ClosureType::ClosureStar
                    && old(self)@.states.len() == usize::MAX && final(self)@ == old(self)@,
            },
    {
        let ghost f = self@;
        let n = self.num_states();
        let star = match closure_type {
            ClosureType::ClosurePlus => false,
            ClosureType::ClosureStar => true,
        };
        if star && n == usize::MAX {
            return Err(FstError::InvalidInput);
        }
        proof {
            f.lemma_with_properties_wf(Set::empty());
        }
        self.set_properties(FstProperties::empty());
        let old_start = self.start();
        match old_start {
            Some(start) => {
                let mut s: usize = 0;
                proof {
                    assert(self@.states =~= looped_upto(f, start, 0).states);
                    assert(self@ =~= looped_upto(f, start, 0));
                }
                while s < n
                    invariant
                        s <= n,
                        n == f.states.len(),
                        f.wf(),
                        f.start == Some(start),
                        self@.wf(),
                        self@ == looped_upto(f, start, s as int),
                    decreases n - s,
                {
                    let ghost before = self@;
                    match self.final_weight_unchecked(s) {
                        Some(w) => {
                            self.add_tr_unchecked(s, Tr::new(EPS_LABEL, EPS_LABEL, w, start));
                            self.set_properties(FstProperties::empty());
                        },
                        None => {},
                    }
                    proof {
                        let g = looped_upto(f, start, s + 1);
                        assert forall|t: int| 0 <= t < n implies self@.states[t] == g.states[t] by {
                            assert(before.states[t] == looped_upto(f, start, s as int).states[t]);
                        }
                        assert(self@.states =~= g.states);
                        assert(self@ =~= g);
                    }
                    s += 1;
                }
            },
            None => {},
        }
        assert(self@ == closure_plus(f));
        if star {
            let ghost plus = self@;
            let entry = self.add_state();
            match old_start {
                Some(start) => {
                    self.add_tr_unchecked(entry, Tr::new(EPS_LABEL, EPS_LABEL, W::one(), start));
                },
                None => {},
            }
            self.set_final_unchecked(entry, W::one());
            self.set_start_unchecked(entry);
            proof {
                self@.lemma_with_properties_wf(Set::empty());
            }
            self.set_properties(FstProperties::empty());
            proof {
                let g = closure_star(f);
                assert(self@.states.len() == g.states.len());
                assert forall|t: int| 0 <= t < g.states.len() implies self@.states[t]
                    == g.states[t] by {
                    if t == entry {
                        assert(self@.states[t].trs =~= g.states[t].trs);
                    } else {
                        assert(self@.states[t] == plus.states[t]);
                    }
                }
                assert(self@.states =~= g.states);
                assert(self@ =~= g);
            }
        }
        Ok(())
    }

    /// Replaces the transition of `state` with the index `index`. Nothing is
    /// known of the new transition, so every property bit is cleared.
    fn set_tr_unchecked(&mut self, state: StateId, index: usize, tr: Tr<W>)
        requires
            old(self)@.wf(),
            state < old(self)@.states.len(),
            index < old(self)@.trs_at(state).len(),
            tr.nextstate < old(self)@.states.len(),
        ensures
            final(self)@.wf(),
            final(self)@ == old(self)@.set_trs(
                state as int,
                old(self)@.trs_at(state).update(index as int, tr),
            ),
    {
        let ghost before = self@;
        let mut trs = self.pop_trs_unchecked(state);
        trs.set(index, tr);
        proof {
            assert forall|i: int| 0 <= i < trs@.len() implies (#[trigger] trs@[i]).nextstate
                < before.states.len() by {
                if i != index {
                    assert(before.has_tr(state as int, i));
                }
            }
        }
        self.set_trs_unchecked(state, trs);
        proof {
            let g = before.set_trs(state as int, before.trs_at(state).update(index as int, tr));
            assert(self@.states =~= g.states);
            assert(self@ =~= g);
        }
    }

    /// Sorts the transitions that leave `state` by `f`, as `sort_trs_unchecked`
    /// does. A state that does not exist is reported, and nothing is changed.
    fn sort_trs<C: Fn(&Tr<W>, &Tr<W>) -> Ordering>(&mut self, state: StateId, f: &C) -> (r: Result<
        (),
        FstError,
    >)
        requires
            old(self)@.wf(),
            forall|a: Tr<W>, b: Tr<W>| call_requires(*f, (&a, &b)),
        ensures
            final(self)@.wf(),
            match r {
                Ok(_) => state < old(self)@.states.len() && final(self)@ == old(self)@.sorted_at(
                    state,
                    final(self)@.trs_at(state),
                ) && final(self)@.trs_at(state).to_multiset() == old(self)@.trs_at(
                    state,
                ).to_multiset() && (forall|lt: spec_fn(Tr<W>, Tr<W>) -> bool| #[trigger]
                    compare_models(*f, lt) && is_strict_weak_order(lt) ==> is_stable_sort_of(
                        final(self)@.trs_at(state),
                        old(self)@.trs_at(state),
                        lt,
                    )),
                Err(e) => e == FstError::StateNotFound(state) && state >= old(self)@.states.len()
                    && final(self)@ == old(self)@,
            },
    {
        if state < self.num_states() {
            self.sort_trs_unchecked(state, f);
            Ok(())
        } else {
            Err(FstError::StateNotFound(state))
        }
    }

    /// Removes from the transitions that leave `state` each one that equals
    /// the one before it, as `unique_trs_unchecked` does. A state that does
    /// not exist is reported, and nothing is changed.
    fn unique_trs(&mut self, state: StateId) -> (r: Result<(), FstError>)
        requires
            old(self)@.wf(),
        ensures
            final(self)@.wf(),
            match r {
                Ok(_) => state < old(self)@.states.len() && final(self)@ == old(self)@.set_trs(
                    state as int,
                    without_repeats(old(self)@.trs_at(state)),
                ),
                Err(e) => e == FstError::StateNotFound(state) && state >= old(self)@.states.len()
                    && final(self)@ == old(self)@,
            },
    {
        if state < self.num_states() {
            self.unique_trs_unchecked(state);
            Ok(())
        } else {
            Err(FstError::StateNotFound(state))
        }
    }

    /// Merges among the transitions that leave `state` each run of
    /// neighbours with the same labels and target, as `sum_trs_unchecked`
    /// does. A state that does not exist is reported, and nothing is changed.
    fn sum_trs(&mut self, state: StateId) -> (r: Result<(), FstError>)
        requires
            old(self)@.wf(),
        ensures
            final(self)@.wf(),
            match r {
                Ok(_) => state < old(self)@.states.len() && final(self)@ == old(self)@.set_trs(
                    state as int,
                    summed(old(self)@.trs_at(state)),
                ),
                Err(e) => e == FstError::StateNotFound(state) && state >= old(self)@.states.len()
                    && final(self)@ == old(self)@,
            },
    {
        if state < self.num_states() {
            self.sum_trs_unchecked(state);
            Ok(())
        } else {
            Err(FstError::StateNotFound(state))
        }
    }

    /// Replaces the transition of `state` with the index `index`, as
    /// `set_tr_unchecked` does. A state that does not exist is reported, the
    /// state that is left first and then the target; an index that no
    /// transition of the state has is refused. Nothing is changed then.
    fn set_tr(&mut self, state: StateId, index: usize, tr: Tr<W>) -> (r: Result<(), FstError>)
        requires
            old(self)@.wf(),
        ensures
            final(self)@.wf(),
            match r {
                Ok(_) => state < old(self)@.states.len() && tr.nextstate < old(self)@.states.len()
                    && index < old(self)@.trs_at(state).len() && final(self)@ == old(
                    self,
                )@.set_trs(state as int, old(self)@.trs_at(state).update(index as int, tr)),
                Err(e) => final(self)@ == old(self)@ && (if state >= old(self)@.states.len() {
                    e == FstError::StateNotFound(state)
                } else if tr.nextstate >= old(self)@.states.len() {
                    e == FstError::StateNotFound(tr.nextstate)
                } else {
                    e == FstError::InvalidInput && index >= old(self)@.trs_at(state).len()
                }),
            },
    {
        if state >= self.num_states() {
            return Err(FstError::StateNotFound(state));
        }
        if tr.nextstate >= self.num_states() {
            return Err(FstError::StateNotFound(tr.nextstate));
        }
        if index >= self.num_trs_unchecked(state) {
            return Err(FstError::InvalidInput);
        }
        self.set_tr_unchecked(state, index, tr);
        Ok(())
    }

    /// Gives each transition and each final weight what the mapper makes of
    /// it, in place. Every property bit is cleared.
    fn tr_map<M: TrMapper<W>>(&mut self, mapper: &M) -> (r: Result<(), FstError>)
        requires
            old(self)@.wf(),
        ensures
            r is Ok,
            final(self)@.wf(),
            final(self)@ == mapped(old(self)@, *mapper),
    {
        let ghost f = self@;
        let n = self.num_states();
        proof {
            f.lemma_with_properties_wf(Set::empty());
        }
        self.set_properties(FstProperties::empty());
        proof {
            assert(self@.states =~= mapped_upto(f, *mapper, 0).states);
        }
        let mut s: usize = 0;
        while s < n
            invariant
                s <= n,
                n == f.states.len(),
                f.wf(),
                self@.wf(),
                self@ == mapped_upto(f, *mapper, s as int),
            decreases n - s,
        {
            let ghost before = self@;
            assert(before.states[s as int] == f.states[s as int]);
            let mut trs = self.pop_trs_unchecked(s);
            let ghost given = trs@;
            let mut i: usize = 0;
            while i < trs.len()
                invariant
                    i <= trs.len(),
                    trs@.len() == given.len(),
                    forall|j: int| 0 <= j < i ==> #[trigger] trs@[j] == mapper.mapped_tr(given[j]),
                    forall|j: int| i <= j < trs@.len() ==> #[trigger] trs@[j] == given[j],
                decreases trs.len() - i,
            {
                let mut tr = trs[i];
                mapper.tr_map(&mut tr);
                trs.set(i, tr);
                i += 1;
            }
            proof {
                assert(trs@ =~= mapped_trs(given, *mapper));
                assert forall|j: int| 0 <= j < trs@.len() implies (#[trigger] trs@[j]).nextstate
                    < self@.states.len() by {
                    assert(f.has_tr(s as int, j));
                    mapper.lemma_keeps_target(given[j]);
                }
            }
            self.set_trs_unchecked(s, trs);
            match self.final_weight_unchecked(s) {
                Some(w) => {
                    let mut final_tr = final_tr_of(w);
                    mapper.final_tr_map(&mut final_tr);
                    self.set_final_unchecked(s, final_tr.weight);
                    proof {
                        self@.lemma_with_properties_wf(Set::empty());
                    }
                    self.set_properties(FstProperties::empty());
                },
                None => {},
            }
            proof {
                let g = mapped_upto(f, *mapper, s + 1);
                assert forall|t: int| 0 <= t < n implies self@.states[t] == g.states[t] by {
                    assert(before.states[t] == mapped_upto(f, *mapper, s as int).states[t]);
                }
                assert(self@.states =~= g.states);
                assert(self@ =~= g);
            }
            s += 1;
        }
        Ok(())
    }

    /// Replaces the property bits. Each bit that is set must state a fact.
    fn set_properties(&mut self, props: FstProperties)
        requires
            old(self)@.wf(),
            old(self)@.properties_hold(props@),
        ensures
            final(self)@.wf(),
            final(self)@ == old(self)@.with_properties(props@),
    ;

    /// Replaces the property bits inside `mask` by those of `props`. Each bit
    /// of `props` inside `mask` must state a fact.
    fn set_properties_with_mask(&mut self, props: FstProperties, mask: FstProperties)
        requires
            old(self)@.wf(),
            old(self)@.properties_hold(props@.intersect(mask@)),
        ensures
            final(self)@.wf(),
            final(self)@ == old(self)@.with_properties(
                old(self)@.properties.difference(mask@).union(props@.intersect(mask@)),
            ),
    ;

    /// Computes the property bits that state a fact about the transducer,
    /// stores them in place of what was known, and returns those of them that
    /// lie inside `mask`.
    fn compute_and_update_properties(&mut self, mask: FstProperties) -> (r: Result<
        FstProperties,
        FstError,
    >)
        requires
            old(self)@.wf(),
        ensures
            final(self)@.wf(),
            final(self)@ == old(self)@.with_properties(
                old(self)@.properties.difference(all_property_bits()).union(
                    true_properties(old(self)@),
                ),
            ),
            r matches Ok(p) && p@ == true_properties(old(self)@).intersect(mask@),
    {
        let knownprops = all_fst_properties();
        let testprops = compute_fst_properties(&*self);
        proof {
            assert(testprops@.intersect(knownprops@) =~= true_properties(self@));
        }
        self.set_properties_with_mask(testprops, knownprops);
        Ok(testprops.intersection(mask))
    }

    /// Computes every property bit that states a fact about the transducer,
    /// stores them in place of what was known, and returns them.
    fn compute_and_update_properties_all(&mut self) -> (r: Result<FstProperties, FstError>)
        requires
            old(self)@.wf(),
        ensures
            final(self)@.wf(),
            final(self)@ == old(self)@.with_properties(
                old(self)@.properties.difference(all_property_bits()).union(
                    true_properties(old(self)@),
                ),
            ),
            r matches Ok(p) && p@ == true_properties(old(self)@),
    {
        let r = self.compute_and_update_properties(all_fst_properties());
        proof {
            assert(true_properties(old(self)@).intersect(all_property_bits()) =~= true_properties(
                old(self)@,
            ));
        }
        r
    }
}

/// A state has a final weight exactly when it is final: what `final_weight`
/// returns is `Some` exactly where `is_final` returns `true`.
pub proof fn lemma_final_weight_iff_final<W: Semiring>(f: FstView<W>, s: StateId)
    requires
        s < f.states.len(),
    ensures
        f.states[s as int].final_weight is Some <==> f.is_final(s as int),
{
}

/// The number of transitions of a state is the length of its sequence of
/// transitions: what `num_trs` returns is the length of what `get_trs`
/// returns.
pub proof fn lemma_num_trs_is_len_of_trs<W: Semiring>(f: FstView<W>, s: StateId)
    requires
        s < f.states.len(),
        f.states[s as int].trs.len() <= usize::MAX,
    ensures
        f.states[s as int].trs.len() as usize == f.trs_at(s).len(),
{
}

/// Whether `comp` answers "before" exactly where `lt` holds.
pub open spec fn compare_models<W: Semiring, C: Fn(&Tr<W>, &Tr<W>) -> Ordering>(
    comp: C,
    lt: spec_fn(Tr<W>, Tr<W>) -> bool,
) -> bool {
    forall|a: Tr<W>, b: Tr<W>, o: Ordering| #[trigger]
        call_ensures(comp, (&a, &b), o) ==> (o == Ordering::Less) == lt(a, b)
}

/// What `add_tr` answers: it refuses a source that does not exist, then a
/// target that does not exist.
pub open spec fn add_tr_result<W: Semiring>(f: FstView<W>, source: StateId, tr: Tr<W>) -> Result<
    (),
    FstError,
> {
    if source >= f.states.len() {
        Err(FstError::StateNotFound(source))
    } else if tr.nextstate >= f.states.len() {
        Err(FstError::StateNotFound(tr.nextstate))
    } else {
        Ok(())
    }
}

/// Counts the transitions whose input label, or output label, is ε.
pub fn count_labels<W: Semiring>(trs: &[Tr<W>], input_side: bool) -> (n: usize)
    ensures
        n == if input_side {
            count_input_epsilons(trs@)
        } else {
            count_output_epsilons(trs@)
        },
{
    let mut n: usize = 0;
    let mut i: usize = 0;
    let ghost ipred = |tr: Tr<W>| tr.ilabel == EPS_LABEL;
    let ghost opred = |tr: Tr<W>| tr.olabel == EPS_LABEL;
    proof {
        assert(trs@.subrange(0, 0) =~= Seq::<Tr<W>>::empty());
        lemma_filter_empty::<Tr<W>>(ipred);
        lemma_filter_empty::<Tr<W>>(opred);
    }
    while i < trs.len()
        invariant
            i <= trs.len(),
            n <= i,
            ipred == (|tr: Tr<W>| tr.ilabel == EPS_LABEL),
            opred == (|tr: Tr<W>| tr.olabel == EPS_LABEL),
            n == if input_side {
                trs@.subrange(0, i as int).filter(ipred).len()
            } else {
                trs@.subrange(0, i as int).filter(opred).len()
            },
        decreases trs.len() - i,
    {
        let label: Label = if input_side {
            trs[i].ilabel
        } else {
            trs[i].olabel
        };
        proof {
            let before = trs@.subrange(0, i as int);
            assert(trs@.subrange(0, i as int + 1) =~= before.push(trs@[i as int]));
            lemma_filter_push(before, trs@[i as int], ipred);
            lemma_filter_push(before, trs@[i as int], opred);
        }
        if label == EPS_LABEL {
            n += 1;
        }
        i += 1;
    }
    proof {
        assert(trs@.subrange(0, trs@.len() as int) =~= trs@);
    }
    n
}

/// Filtering the empty sequence.
pub proof fn lemma_filter_empty<T>(pred: spec_fn(T) -> bool)
    ensures
        Seq::<T>::empty().filter(pred) == Seq::<T>::empty(),
{
    reveal(Seq::filter);
}

/// Filtering a sequence with one more element.
pub proof fn lemma_filter_push<T>(s: Seq<T>, x: T, pred: spec_fn(T) -> bool)
    ensures
        s.push(x).filter(pred) == if pred(x) {
            s.filter(pred).push(x)
        } else {
            s.filter(pred)
        },
{
    reveal(Seq::filter);
    assert(s.push(x).drop_last() =~= s);
}

} // verus!
