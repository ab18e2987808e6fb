//! The transducer that keeps its states in a vector.

use std::cmp::Ordering;
use std::sync::Arc;
use vstd::prelude::*;
use crate::algorithms::sorting::insertion_sort_by;
use crate::error::FstError;
use crate::fst_properties::{FstProperties, WEIGHTED_BIT};
use crate::fst_traits::{compare_models, symbols_of, Fst, MutableFst};
use crate::fst_impls::deletion::{
    del_states_kept_fst_properties, flagged, keep_trs, mark_states, new_indices,
};
use crate::fst_view::{FstView, StateView};
use crate::fst_view_delete::{
    kept_below, kept_states, lemma_del_states_wf, lemma_kept_below_bound, lemma_kept_states_push, listed,
};
use crate::fst_view_update::last_of;
use crate::mutable_properties::{
    compute_add_tr_properties, compute_set_final_properties, null_fst_properties,
    sort_kept_fst_properties,
};
use crate::semirings::semiring::Semiring;
use crate::symbol_table::SymbolTable;
use crate::tr::{StateId, Tr};

verus! {

/// A state: its final weight, if it is final, and the transitions that leave
/// it.
#[derive(Debug, PartialEq, Clone)]
pub struct VectorFstState<W: Semiring> {
    pub final_weight: Option<W>,
    pub trs: Vec<Tr<W>>,
}

/// A transducer whose states are the indices of a vector, open to change at
/// any index.
#[derive(Debug, PartialEq, Clone)]
pub struct VectorFst<W: Semiring> {
    states: Vec<VectorFstState<W>>,
    start_state: Option<StateId>,
    isymt: Option<Arc<SymbolTable>>,
    osymt: Option<Arc<SymbolTable>>,
    properties: FstProperties,
}

impl<W: Semiring> View for VectorFstState<W> {
    type V = StateView<W>;

    open spec fn view(&self) -> StateView<W> {
        StateView { final_weight: self.final_weight, trs: self.trs@ }
    }
}

impl<W: Semiring> View for VectorFst<W> {
    type V = FstView<W>;

    closed spec fn view(&self) -> FstView<W> {
        FstView {
            start: self.start_state,
            states: Seq::new(self.states.len() as nat, |i: int| self.states[i]@),
            properties: self.properties@,
            isymt: symbols_of(self.isymt),
            osymt: symbols_of(self.osymt),
        }
    }
}

impl<W: Semiring> Fst<W> for VectorFst<W> {
    fn start(&self) -> (r: Option<StateId>) {
        self.start_state
    }

    fn num_states(&self) -> (n: usize) {
        self.states.len()
    }

    fn final_weight(&self, state_id: StateId) -> (r: Result<Option<W>, FstError>) {
        if state_id < self.states.len() {
            Ok(self.states[state_id].final_weight)
        } else {
            Err(FstError::StateNotFound(state_id))
        }
    }

    fn final_weight_unchecked(&self, state_id: StateId) -> (r: Option<W>) {
        self.states[state_id].final_weight
    }

    fn num_trs(&self, s: StateId) -> (r: Result<usize, FstError>) {
        if s < self.states.len() {
            Ok(self.states[s].trs.len())
        } else {
            Err(FstError::StateNotFound(s))
        }
    }

    fn num_trs_unchecked(&self, s: StateId) -> (n: usize) {
        self.states[s].trs.len()
    }

    fn get_trs(&self, state_id: StateId) -> (r: Result<&[Tr<W>], FstError>) {
        if state_id < self.states.len() {
            Ok(self.states[state_id].trs.as_slice())
        } else {
            Err(FstError::StateNotFound(state_id))
        }
    }

    fn get_trs_unchecked(&self, state_id: StateId) -> (trs: &[Tr<W>]) {
        self.states[state_id].trs.as_slice()
    }

    fn properties(&self) -> (p: FstProperties) {
        self.properties
    }

    fn input_symbols(&self) -> (r: Option<&Arc<SymbolTable>>) {
        self.isymt.as_ref()
    }

    fn output_symbols(&self) -> (r: Option<&Arc<SymbolTable>>) {
        self.osymt.as_ref()
    }

    fn set_input_symbols(&mut self, symt: Arc<SymbolTable>) {
        self.isymt = Some(symt);
        proof {
            if old(self)@.wf() {
                old(self)@.lemma_same_states_wf(self@);
            }
        }
    }

    fn set_output_symbols(&mut self, symt: Arc<SymbolTable>) {
        self.osymt = Some(symt);
        proof {
            if old(self)@.wf() {
                old(self)@.lemma_same_states_wf(self@);
            }
        }
    }

    fn take_input_symbols(&mut self) -> (r: Option<Arc<SymbolTable>>) {
        let r = self.isymt.take();
        proof {
            if old(self)@.wf() {
                old(self)@.lemma_same_states_wf(self@);
            }
        }
        r
    }

    fn take_output_symbols(&mut self) -> (r: Option<Arc<SymbolTable>>) {
        let r = self.osymt.take();
        proof {
            if old(self)@.wf() {
                old(self)@.lemma_same_states_wf(self@);
            }
        }
        r
    }
}

impl<W: Semiring> MutableFst<W> for VectorFst<W> {
    fn new() -> (fst: Self) {
        proof {
            FstView::<W>::lemma_empty_wf();
        }
        let fst = VectorFst {
            states: Vec::new(),
            start_state: None,
            isymt: None,
            osymt: None,
            properties: null_fst_properties(),
        };
        assert(fst@ =~= FstView::<W>::empty());
        fst
    }

    fn set_start(&mut self, state_id: StateId) -> (r: Result<(), FstError>) {
        if state_id < self.states.len() {
            self.set_start_unchecked(state_id);
            Ok(())
        } else {
            Err(FstError::StateNotFound(state_id))
        }
    }

    fn set_start_unchecked(&mut self, state: StateId) {
        proof {
            self@.lemma_set_start_wf(state);
        }
        self.start_state = Some(state);
        assert(self@ =~= old(self)@.set_start(state));
    }

    fn unset_start(&mut self) {
        proof {
            self@.lemma_same_states_wf(self@.with_start(None));
        }
        self.start_state = None;
        assert(self@ =~= old(self)@.with_start(None));
    }

    fn set_final(&mut self, state_id: StateId, final_weight: W) -> (r: Result<(), FstError>) {
        if state_id < self.states.len() {
            self.set_final_unchecked(state_id, final_weight);
            Ok(())
        } else {
            Err(FstError::StateNotFound(state_id))
        }
    }

    fn set_final_unchecked(&mut self, state_id: StateId, final_weight: W) {
        proof {
            self@.lemma_set_final_wf(state_id as int, final_weight);
        }
        self.properties = compute_set_final_properties(self.properties, &final_weight);
        if final_weight.is_zero() {
            self.states[state_id].final_weight = None;
        } else {
            self.states[state_id].final_weight = Some(final_weight);
        }
        assert(self@ =~= old(self)@.set_final(state_id as int, final_weight));
    }

    fn add_state(&mut self) -> (s: StateId) {
        proof {
            self@.lemma_add_states_wf(1);
        }
        let s = self.states.len();
        self.states.push(VectorFstState { final_weight: None, trs: Vec::new() });
        assert(self@ =~= old(self)@.add_states(1));
        s
    }

    fn add_states(&mut self, n: usize) {
        proof {
            self@.lemma_add_states_wf(n as nat);
        }
        let ghost before = self@;
        let mut i: usize = 0;
        assert(self@ =~= before.add_states(0));
        while i < n
            invariant
                i <= n,
                self@ == before.add_states(i as nat),
            decreases n - i,
        {
            let ghost prev = self@;
            self.states.push(VectorFstState { final_weight: None, trs: Vec::new() });
            i += 1;
            assert(self@.states =~= prev.states.push(StateView::<W>::empty()));
            assert(prev.states.push(StateView::<W>::empty()) =~= before.add_states(
                i as nat,
            ).states);
            assert(self@ =~= before.add_states(i as nat));
        }
    }

    fn add_tr(&mut self, source: StateId, tr: Tr<W>) -> (r: Result<(), FstError>) {
        if source >= self.states.len() {
            Err(FstError::StateNotFound(source))
        } else if tr.nextstate >= self.states.len() {
            Err(FstError::StateNotFound(tr.nextstate))
        } else {
            self.add_tr_unchecked(source, tr);
            Ok(())
        }
    }

    fn add_tr_unchecked(&mut self, state: StateId, tr: Tr<W>) {
        proof {
            self@.lemma_add_tr_wf(state as int, tr);
        }
        let n = self.states[state].trs.len();
        let prev: Option<Tr<W>> = if n == 0 {
            None
        } else {
            Some(self.states[state].trs[n - 1])
        };
        assert(prev == last_of(self@.states[state as int].trs));
        self.properties = compute_add_tr_properties(self.properties, state, &tr, prev);
        self.states[state].trs.push(tr);
        assert(self@ =~= old(self)@.add_tr(state as int, tr));
    }

    fn set_trs_unchecked(&mut self, source: StateId, trs: Vec<Tr<W>>) {
        proof {
            self@.lemma_set_trs_wf(source as int, trs@);
        }
        self.properties = FstProperties::empty();
        self.states[source].trs = trs;
        assert(self@ =~= old(self)@.set_trs(source as int, trs@));
    }

    fn delete_final_weight(&mut self, source: StateId) -> (r: Result<(), FstError>) {
        if source < self.states.len() {
            self.delete_final_weight_unchecked(source);
            Ok(())
        } else {
            Err(FstError::StateNotFound(source))
        }
    }

    fn delete_final_weight_unchecked(&mut self, source: StateId) {
        proof {
            self@.lemma_delete_final_wf(source as int);
        }
        self.properties = self.properties.remove_bit(WEIGHTED_BIT);
        self.states[source].final_weight = None;
        assert(self@ =~= old(self)@.delete_final(source as int));
    }

    fn delete_trs(&mut self, source: StateId) -> (r: Result<(), FstError>) {
        if source < self.states.len() {
            let _ = self.pop_trs_unchecked(source);
            Ok(())
        } else {
            Err(FstError::StateNotFound(source))
        }
    }

    fn pop_trs(&mut self, source: StateId) -> (r: Result<Vec<Tr<W>>, FstError>) {
        if source < self.states.len() {
            Ok(self.pop_trs_unchecked(source))
        } else {
            Err(FstError::StateNotFound(source))
        }
    }

    fn pop_trs_unchecked(&mut self, source: StateId) -> (trs: Vec<Tr<W>>) {
        proof {
            self@.lemma_delete_trs_wf(source as int);
        }
        self.properties = self.properties.intersection(null_fst_properties());
        let mut trs: Vec<Tr<W>> = Vec::new();
        std::mem::swap(&mut self.states[source].trs, &mut trs);
        assert(self@ =~= old(self)@.delete_trs(source as int));
        trs
    }

    fn take_final_weight(&mut self, state_id: StateId) -> (r: Result<Option<W>, FstError>) {
        if state_id < self.states.len() {
            Ok(self.take_final_weight_unchecked(state_id))
        } else {
            Err(FstError::StateNotFound(state_id))
        }
    }

    fn take_final_weight_unchecked(&mut self, state: StateId) -> (w: Option<W>) {
        let w = self.states[state].final_weight;
        self.delete_final_weight_unchecked(state);
        w
    }

    fn del_state(&mut self, state_id: StateId) -> (r: Result<(), FstError>) {
        let mut one: Vec<StateId> = Vec::new();
        one.push(state_id);
        proof {
            assert(one@[0] == state_id);
            assert(listed(one@) =~= set![state_id as int]);
        }
        match self.del_states(one.as_slice()) {
            Ok(_) => Ok(()),
            Err(e) => Err(e),
        }
    }

    fn del_states(&mut self, states: &[StateId]) -> (r: Result<(), FstError>) {
        let n = self.states.len();
        match mark_states(n, states) {
            Err(e) => Err(e),
            Ok(flags) => {
                let new_id = new_indices(&flags);
                let ghost dead = flagged(flags@);
                let ghost f = self@;
                let mut new_states: Vec<VectorFstState<W>> = Vec::new();
                let mut s: usize = 0;
                proof {
                    lemma_del_states_wf(f, dead);
                    assert(f.states.take(0) =~= Seq::<StateView<W>>::empty());
                }
                while s < n
                    invariant
                        s <= n,
                        n == self.states.len(),
                        f == self@,
                        f.wf(),
                        dead == flagged(flags@),
                        flags.len() == n,
                        new_id.len() == n + 1,
                        forall|t: int| 0 <= t <= n ==> new_id@[t] == kept_below(dead, t),
                        Seq::new(new_states.len() as nat, |i: int| new_states[i]@) =~= kept_states(
                            f.states.take(s as int),
                            dead,
                        ),
                    decreases n - s,
                {
                    proof {
                        assert(f.states.take(s as int + 1) =~= f.states.take(s as int).push(
                            f.states[s as int],
                        ));
                        lemma_kept_states_push(f.states.take(s as int), f.states[s as int], dead);
                        assert forall|i: int|
                            0 <= i < self.states[s as int].trs@.len() implies (#[trigger] self.states[s as int].trs@[i]).nextstate
                            < flags.len() by {
                            assert(f.has_tr(s as int, i));
                        }
                    }
                    if !flags[s] {
                        let trs = keep_trs(&self.states[s].trs, &flags, &new_id);
                        new_states.push(
                            VectorFstState { final_weight: self.states[s].final_weight, trs },
                        );
                    }
                    s += 1;
                }
                let new_start = match self.start_state {
                    Some(st) => if flags[st] {
                        None
                    } else {
                        proof {
                            lemma_kept_below_bound(dead, st as int);
                        }
                        Some(new_id[st])
                    },
                    None => None,
                };
                proof {
                    assert(f.states.take(n as int) =~= f.states);
                }
                self.states = new_states;
                self.start_state = new_start;
                self.properties = self.properties.intersection(del_states_kept_fst_properties());
                assert(self@ =~= f.del_states(dead));
                Ok(())
            },
        }
    }

    fn del_all_states(&mut self) {
        proof {
            self@.lemma_del_all_states_wf();
        }
        self.states.clear();
        self.start_state = None;
        self.properties = null_fst_properties();
        assert(self@ =~= old(self)@.del_all_states());
    }

    fn sort_trs_unchecked<C: Fn(&Tr<W>, &Tr<W>) -> Ordering>(&mut self, state: StateId, f: &C) {
        let less = |a: &Tr<W>, b: &Tr<W>| -> (r: bool)
            requires
                call_requires(f, (a, b)),
            ensures
                exists|o: Ordering| call_ensures(f, (a, b), o) && r == (o == Ordering::Less),
            {
                match f(a, b) {
                    Ordering::Less => true,
                    _ => false,
                }
            };
        self.properties = self.properties.intersection(sort_kept_fst_properties());
        insertion_sort_by(&mut self.states[state].trs, less);
        proof {
            old(self)@.lemma_sorted_at_wf(state, self@.trs_at(state));
            assert(self@ =~= old(self)@.sorted_at(state, self@.trs_at(state)));
            assert forall|lt: spec_fn(Tr<W>, Tr<W>) -> bool| #[trigger]
                compare_models(*f, lt) implies crate::algorithms::sorting::less_models(
                less,
                lt,
            ) by {
                assert forall|a: Tr<W>, b: Tr<W>, r: bool| #[trigger]
                    call_ensures(less, (&a, &b), r) implies r == lt(a, b) by {
                    let o = choose|o: Ordering|
                        call_ensures(f, (&a, &b), o) && r == (o == Ordering::Less);
                    assert(call_ensures(*f, (&a, &b), o));
                }
            }
        }
    }

    fn set_properties(&mut self, props: FstProperties) {
        proof {
            self@.lemma_with_properties_wf(props@);
        }
        self.properties = props;
        assert(self@ =~= old(self)@.with_properties(props@));
    }

    fn set_properties_with_mask(&mut self, props: FstProperties, mask: FstProperties) {
        let ghost target = old(self)@.with_properties(
            old(self)@.properties.difference(mask@).union(props@.intersect(mask@)),
        );
        proof {
            assert forall|k: u64| target.properties.contains(k) implies #[trigger]
                self@.property_fact(k) by {
                if !self@.properties.contains(k) {
                    assert(props@.intersect(mask@).contains(k));
                }
            }
            self@.lemma_with_properties_wf(target.properties);
        }
        self.properties = self.properties.with_mask(props, mask);
        assert(self@ =~= target);
    }
}

} // verus!
