//! How the model of a transducer changes under each mutation, and why each
//! change keeps the model well formed.

use vstd::prelude::*;
use crate::fst_properties::{
    ACCEPTOR_BIT, ACYCLIC_BIT, CYCLIC_BIT, I_DETERMINISTIC_BIT, I_LABEL_SORTED_BIT,
    NOT_I_LABEL_SORTED_BIT, NOT_O_LABEL_SORTED_BIT, NO_EPSILONS_BIT, NO_I_EPSILONS_BIT,
    NO_O_EPSILONS_BIT, O_DETERMINISTIC_BIT, O_LABEL_SORTED_BIT, TOP_SORTED_BIT, UNWEIGHTED_BIT,
    WEIGHTED_BIT,
};
use crate::fst_view::{
    is_every_tr_bit, is_some_tr_bit, is_trivial_weight, opposite_bit, tr_meets, FstView, StateView,
    Step,
};
use crate::semirings::semiring::Semiring;
use crate::tr::{StateId, Tr};

verus! {

/// The bits that hold of a transducer without transitions, and that stay true
/// when transitions are taken away.
pub open spec fn null_properties() -> Set<u64> {
    set![
        ACCEPTOR_BIT,
        I_DETERMINISTIC_BIT,
        O_DETERMINISTIC_BIT,
        NO_EPSILONS_BIT,
        NO_I_EPSILONS_BIT,
        NO_O_EPSILONS_BIT,
        I_LABEL_SORTED_BIT,
        O_LABEL_SORTED_BIT,
        UNWEIGHTED_BIT,
        ACYCLIC_BIT,
        TOP_SORTED_BIT,
    ]
}

/// The property bits after state `s` was given the final weight `w`.
pub open spec fn set_final_properties<W: Semiring>(old_bits: Set<u64>, w: W) -> Set<u64> {
    if is_trivial_weight(w) {
        old_bits.remove(WEIGHTED_BIT)
    } else {
        old_bits.remove(UNWEIGHTED_BIT).insert(WEIGHTED_BIT)
    }
}

/// The property bits after the transition `tr` was appended to state `s`,
/// whose last transition had been `prev`.
pub open spec fn add_tr_properties<W: Semiring>(
    old_bits: Set<u64>,
    s: int,
    tr: Tr<W>,
    prev: Option<Tr<W>>,
) -> Set<u64> {
    Set::new(
        |k: u64|
            if is_every_tr_bit(k) {
                old_bits.contains(k) && tr_meets(k, s, tr)
            } else if is_some_tr_bit(k) {
                old_bits.contains(k) || !tr_meets(opposite_bit(k), s, tr)
            } else if k == I_DETERMINISTIC_BIT || k == O_DETERMINISTIC_BIT || k == ACYCLIC_BIT {
                false
            } else if k == I_LABEL_SORTED_BIT {
                old_bits.contains(k) && (prev matches Some(p) ==> p.ilabel <= tr.ilabel)
            } else if k == NOT_I_LABEL_SORTED_BIT {
                old_bits.contains(k) || (prev matches Some(p) && p.ilabel > tr.ilabel)
            } else if k == O_LABEL_SORTED_BIT {
                old_bits.contains(k) && (prev matches Some(p) ==> p.olabel <= tr.olabel)
            } else if k == NOT_O_LABEL_SORTED_BIT {
                old_bits.contains(k) || (prev matches Some(p) && p.olabel > tr.olabel)
            } else {
                old_bits.contains(k)
            },
    )
}

/// The last element of a sequence, if it has one.
pub open spec fn last_of<T>(s: Seq<T>) -> Option<T> {
    if s.len() == 0 {
        None
    } else {
        Some(s[s.len() - 1])
    }
}

impl<W: Semiring> FstView<W> {
    pub open spec fn with_start(self, start: Option<StateId>) -> Self {
        FstView {
            start,
            states: self.states,
            properties: self.properties,
            isymt: self.isymt,
            osymt: self.osymt,
        }
    }

    pub open spec fn with_states(self, states: Seq<StateView<W>>) -> Self {
        FstView {
            start: self.start,
            states,
            properties: self.properties,
            isymt: self.isymt,
            osymt: self.osymt,
        }
    }

    pub open spec fn with_properties(self, properties: Set<u64>) -> Self {
        FstView {
            start: self.start,
            states: self.states,
            properties,
            isymt: self.isymt,
            osymt: self.osymt,
        }
    }

    pub open spec fn with_isymt(self, isymt: Option<Seq<Seq<char>>>) -> Self {
        FstView {
            start: self.start,
            states: self.states,
            properties: self.properties,
            isymt,
            osymt: self.osymt,
        }
    }

    pub open spec fn with_osymt(self, osymt: Option<Seq<Seq<char>>>) -> Self {
        FstView {
            start: self.start,
            states: self.states,
            properties: self.properties,
            isymt: self.isymt,
            osymt,
        }
    }

    /// The transducer with the transitions of state `s` replaced.
    pub open spec fn with_trs(self, s: int, trs: Seq<Tr<W>>) -> Self {
        self.with_states(self.states.update(s, self.states[s].with_trs(trs)))
    }

    /// The final weight that is kept for `w`: none for `0̄`.
    pub open spec fn kept_final(w: W) -> Option<W> {
        if w == W::zero_spec() {
            None
        } else {
            Some(w)
        }
    }

    /// After `set_start(s)`.
    pub open spec fn set_start(self, s: StateId) -> Self {
        self.with_start(Some(s))
    }

    /// After `set_final(s, w)`.
    pub open spec fn set_final(self, s: int, w: W) -> Self {
        self.with_states(
            self.states.update(s, self.states[s].with_final(Self::kept_final(w))),
        ).with_properties(set_final_properties(self.properties, w))
    }

    /// After the final weight of `s` was removed.
    pub open spec fn delete_final(self, s: int) -> Self {
        self.with_states(self.states.update(s, self.states[s].with_final(None))).with_properties(
            self.properties.remove(WEIGHTED_BIT),
        )
    }

    /// After `n` states were appended.
    pub open spec fn add_states(self, n: nat) -> Self {
        self.with_states(self.states + Seq::new(n, |i: int| StateView::<W>::empty()))
    }

    /// After `add_tr(s, tr)`.
    pub open spec fn add_tr(self, s: int, tr: Tr<W>) -> Self {
        self.with_trs(s, self.states[s].trs.push(tr)).with_properties(
            add_tr_properties(self.properties, s, tr, last_of(self.states[s].trs)),
        )
    }

    /// After all transitions of `s` were removed.
    pub open spec fn delete_trs(self, s: int) -> Self {
        self.with_trs(s, Seq::empty()).with_properties(self.properties.intersect(null_properties()))
    }

    /// After the transitions of `s` were replaced by `trs`.
    pub open spec fn set_trs(self, s: int, trs: Seq<Tr<W>>) -> Self {
        self.with_trs(s, trs).with_properties(Set::empty())
    }

    /// After all states were removed.
    pub open spec fn del_all_states(self) -> Self {
        self.with_start(None).with_states(Seq::empty()).with_properties(null_properties())
    }

    /// Whether every state and transition of `self` is one of `other`, under
    /// the same index.
    pub open spec fn embeds_in(self, other: Self) -> bool {
        &&& self.states.len() <= other.states.len()
        &&& forall|s: int, i: int| #[trigger]
            self.has_tr(s, i) ==> other.has_tr(s, i) && other.tr(s, i) == self.tr(s, i)
    }

    /// A path of a transducer is a path of every transducer it embeds in.
    pub proof fn lemma_path_embeds(self, other: Self, from: int, p: Seq<Step>, to: int)
        requires
            self.embeds_in(other),
            self.is_path(from, p, to),
        ensures
            other.is_path(from, p, to),
        decreases p.len(),
    {
        if p.len() > 0 {
            let next = self.tr(p[0].0, p[0].1).nextstate as int;
            self.lemma_path_embeds(other, next, p.drop_first(), to);
        }
    }

    /// A cycle of a transducer is a cycle of every transducer it embeds in.
    pub proof fn lemma_cycle_embeds(self, other: Self)
        requires
            self.embeds_in(other),
            self.has_cycle(),
        ensures
            other.has_cycle(),
    {
        let (s, p) = choose|s: int, p: Seq<Step>| p.len() > 0 && self.is_path(s, p, s);
        self.lemma_path_embeds(other, s, p, s);
    }

    /// The empty transducer is well formed.
    pub proof fn lemma_empty_wf()
        ensures
            Self::empty().wf(),
    {
        let e = Self::empty();
        assert(e.is_topological_rank(Seq::<nat>::empty()));
        assert forall|k: u64| null_properties().contains(k) implies #[trigger] e.property_fact(
            k,
        ) by {}
    }

    /// Setting the start state keeps the transducer well formed.
    pub proof fn lemma_set_start_wf(self, s: StateId)
        requires
            self.wf(),
            s < self.states.len(),
        ensures
            self.set_start(s).wf(),
    {
        self.lemma_same_states_wf(self.set_start(s));
    }

    /// A transducer with the states of a well-formed one, a start state that
    /// exists and no further property bit is well formed.
    pub proof fn lemma_same_states_wf(self, other: Self)
        requires
            self.wf(),
            self.states == other.states,
            other.properties.subset_of(self.properties),
            other.start matches Some(s) ==> s < other.states.len(),
        ensures
            other.wf(),
    {
        self.lemma_same_states_same_facts(other);
        assert forall|s: int, i: int| #[trigger] other.has_tr(s, i) implies other.tr(
            s,
            i,
        ).nextstate < other.states.len() by {
            assert(self.has_tr(s, i));
        }
        assert forall|s: int| #[trigger] other.has_state(s) implies other.states[s].final_weight
            != Some(W::zero_spec()) by {
            assert(self.has_state(s));
        }
        assert forall|k: u64| other.properties.contains(k) implies #[trigger] other.property_fact(
            k,
        ) by {
            assert(self.property_fact(k));
        }
    }

    /// Property bits that state facts keep the transducer well formed.
    pub proof fn lemma_with_properties_wf(self, properties: Set<u64>)
        requires
            self.wf(),
            self.properties_hold(properties),
        ensures
            self.with_properties(properties).wf(),
    {
        let g = self.with_properties(properties);
        self.lemma_same_states_same_facts(g);
        assert forall|s: int, i: int| #[trigger] g.has_tr(s, i) implies g.tr(s, i).nextstate
            < g.states.len() by {
            assert(self.has_tr(s, i));
        }
        assert forall|s: int| #[trigger] g.has_state(s) implies g.states[s].final_weight != Some(
            W::zero_spec(),
        ) by {
            assert(self.has_state(s));
        }
        assert forall|k: u64| g.properties.contains(k) implies #[trigger] g.property_fact(k) by {
            assert(self.property_fact(k));
        }
    }

    /// The facts behind the property bits depend on the states alone.
    pub proof fn lemma_same_states_same_facts(self, other: Self)
        requires
            self.states == other.states,
        ensures
            forall|k: u64| self.property_fact(k) == other.property_fact(k),
    {
        assert forall|k: u64| self.property_fact(k) == other.property_fact(k) by {
            assert(forall|s: int, i: int| self.has_tr(s, i) == other.has_tr(s, i));
            assert(forall|s: int, i: int| self.tr(s, i) == other.tr(s, i));
            assert(forall|s: int| self.is_final(s) == other.is_final(s));
            assert forall|j: u64| self.every_tr_meets(j) == other.every_tr_meets(j) by {}
            assert(self.i_deterministic() == other.i_deterministic());
            assert(self.o_deterministic() == other.o_deterministic());
            assert(self.i_label_sorted() == other.i_label_sorted());
            assert(self.o_label_sorted() == other.o_label_sorted());
            assert(self.embeds_in(other) && other.embeds_in(self));
            if self.has_cycle() {
                self.lemma_cycle_embeds(other);
            }
            if other.has_cycle() {
                other.lemma_cycle_embeds(self);
            }
            assert forall|rank: Seq<nat>|
                self.is_topological_rank(rank) == other.is_topological_rank(rank) by {}
        }
    }

    /// Whether the two transducers have the same transitions.
    pub open spec fn same_trs(self, other: Self) -> bool {
        &&& self.states.len() == other.states.len()
        &&& forall|s: int| #[trigger]
            self.has_state(s) ==> self.states[s].trs == other.states[s].trs
    }

    /// The facts that do not speak of weights depend on the transitions alone.
    pub proof fn lemma_same_trs_same_facts(self, other: Self, k: u64)
        requires
            self.same_trs(other),
            k != UNWEIGHTED_BIT,
            k != WEIGHTED_BIT,
        ensures
            self.property_fact(k) == other.property_fact(k),
    {
        assert forall|s: int, i: int| self.has_tr(s, i) == other.has_tr(s, i) by {
            if self.has_state(s) {
                assert(self.states[s].trs == other.states[s].trs);
            }
        }
        assert forall|s: int, i: int| #[trigger] self.has_tr(s, i) implies self.tr(s, i)
            == other.tr(s, i) by {
            assert(self.has_state(s));
        }
        assert(self.embeds_in(other) && other.embeds_in(self));
        if is_every_tr_bit(k) {
            assert(self.every_tr_meets(k) == other.every_tr_meets(k)) by {
                if self.every_tr_meets(k) {
                    assert forall|s: int, i: int| #[trigger] other.has_tr(s, i) implies tr_meets(
                        k,
                        s,
                        other.tr(s, i),
                    ) by {
                        assert(self.has_tr(s, i));
                    }
                }
                if other.every_tr_meets(k) {
                    assert forall|s: int, i: int| #[trigger] self.has_tr(s, i) implies tr_meets(
                        k,
                        s,
                        self.tr(s, i),
                    ) by {
                        assert(other.has_tr(s, i));
                    }
                }
            }
        } else if is_some_tr_bit(k) {
            let j = opposite_bit(k);
            assert(self.every_tr_meets(j) == other.every_tr_meets(j)) by {
                if self.every_tr_meets(j) {
                    assert forall|s: int, i: int| #[trigger] other.has_tr(s, i) implies tr_meets(
                        j,
                        s,
                        other.tr(s, i),
                    ) by {
                        assert(self.has_tr(s, i));
                    }
                }
                if other.every_tr_meets(j) {
                    assert forall|s: int, i: int| #[trigger] self.has_tr(s, i) implies tr_meets(
                        j,
                        s,
                        self.tr(s, i),
                    ) by {
                        assert(other.has_tr(s, i));
                    }
                }
            }
        } else {
            assert(self.i_deterministic() == other.i_deterministic());
            assert(self.o_deterministic() == other.o_deterministic());
            assert(self.i_label_sorted() == other.i_label_sorted());
            assert(self.o_label_sorted() == other.o_label_sorted());
            if self.has_cycle() {
                self.lemma_cycle_embeds(other);
            }
            if other.has_cycle() {
                other.lemma_cycle_embeds(self);
            }
            assert forall|rank: Seq<nat>|
                self.is_topological_rank(rank) == other.is_topological_rank(rank) by {}
        }
    }

    /// Setting a final weight keeps the transducer well formed.
    pub proof fn lemma_set_final_wf(self, s: int, w: W)
        requires
            self.wf(),
            self.has_state(s),
        ensures
            self.set_final(s, w).wf(),
    {
        let g = self.set_final(s, w);
        assert(self.same_trs(g));
        assert forall|t: int, i: int| #[trigger] g.has_tr(t, i) implies g.tr(t, i).nextstate
            < g.states.len() by {
            assert(self.has_tr(t, i));
        }
        assert forall|t: int| #[trigger] g.has_state(t) implies g.states[t].final_weight != Some(
            W::zero_spec(),
        ) by {
            assert(self.has_state(t));
        }
        assert forall|k: u64| g.properties.contains(k) implies #[trigger] g.property_fact(k) by {
            if k == UNWEIGHTED_BIT {
                assert(self.property_fact(k));
                assert(is_trivial_weight(w));
                assert forall|t: int, i: int| #[trigger] g.has_tr(t, i) implies tr_meets(
                    k,
                    t,
                    g.tr(t, i),
                ) by {
                    assert(self.has_tr(t, i));
                }
                assert forall|t: int| #[trigger] g.is_final(t) implies is_trivial_weight(
                    g.states[t].final_weight->0,
                ) by {
                    if t != s {
                        assert(self.is_final(t));
                    }
                }
            } else if k == WEIGHTED_BIT {
                assert(!is_trivial_weight(w));
                assert(g.is_final(s));
                assert(!final_meets_unweighted(g.states[s].final_weight->0));
            } else {
                assert(self.property_fact(k));
                self.lemma_same_trs_same_facts(g, k);
            }
        }
    }

    /// Removing a final weight keeps the transducer well formed.
    pub proof fn lemma_delete_final_wf(self, s: int)
        requires
            self.wf(),
            self.has_state(s),
        ensures
            self.delete_final(s).wf(),
    {
        let g = self.delete_final(s);
        assert(self.same_trs(g));
        assert forall|t: int, i: int| #[trigger] g.has_tr(t, i) implies g.tr(t, i).nextstate
            < g.states.len() by {
            assert(self.has_tr(t, i));
        }
        assert forall|t: int| #[trigger] g.has_state(t) implies g.states[t].final_weight != Some(
            W::zero_spec(),
        ) by {
            assert(self.has_state(t));
        }
        assert forall|k: u64| g.properties.contains(k) implies #[trigger] g.property_fact(k) by {
            assert(self.property_fact(k));
            if k == UNWEIGHTED_BIT {
                assert forall|t: int, i: int| #[trigger] g.has_tr(t, i) implies tr_meets(
                    k,
                    t,
                    g.tr(t, i),
                ) by {
                    assert(self.has_tr(t, i));
                }
                assert forall|t: int| #[trigger] g.is_final(t) implies is_trivial_weight(
                    g.states[t].final_weight->0,
                ) by {
                    assert(self.is_final(t));
                }
            } else {
                self.lemma_same_trs_same_facts(g, k);
            }
        }
    }

    /// Appending states keeps the transducer well formed.
    pub proof fn lemma_add_states_wf(self, n: nat)
        requires
            self.wf(),
        ensures
            self.add_states(n).wf(),
    {
        let g = self.add_states(n);
        assert forall|t: int, i: int| g.has_tr(t, i) implies self.has_tr(t, i) && g.tr(t, i)
            == self.tr(t, i) by {}
        assert forall|t: int| g.is_final(t) implies self.is_final(t) && g.states[t].final_weight
            == self.states[t].final_weight by {}
        assert(self.embeds_in(g));
        assert forall|t: int, i: int| #[trigger] g.has_tr(t, i) implies g.tr(t, i).nextstate
            < g.states.len() by {
            assert(self.has_tr(t, i));
        }
        assert forall|t: int| #[trigger] g.has_state(t) implies g.states[t].final_weight != Some(
            W::zero_spec(),
        ) by {
            if t < self.states.len() {
                assert(self.has_state(t));
            }
        }
        assert forall|k: u64| g.properties.contains(k) implies #[trigger] g.property_fact(k) by {
            assert(self.property_fact(k));
            self.lemma_extension_keeps_facts(g, k);
        }
    }

    /// Whether `other` has the states of `self`, with their final weights and
    /// transitions, and further states that have neither.
    pub open spec fn is_extended_by_empty_states(self, other: Self) -> bool {
        &&& self.states.len() <= other.states.len()
        &&& forall|s: int| #[trigger] self.has_state(s) ==> other.states[s] == self.states[s]
        &&& forall|s: int|
            self.states.len() <= s < other.states.len() ==> #[trigger] other.states[s]
                == StateView::<W>::empty()
    }

    /// States without transitions and final weight change no fact.
    pub proof fn lemma_extension_keeps_facts(self, other: Self, k: u64)
        requires
            self.graph_wf(),
            self.is_extended_by_empty_states(other),
            self.property_fact(k),
        ensures
            other.property_fact(k),
    {
        let g = other;
        assert forall|t: int, i: int| g.has_tr(t, i) implies self.has_tr(t, i) && g.tr(t, i)
            == self.tr(t, i) by {
            if t >= self.states.len() {
                assert(g.states[t] == StateView::<W>::empty());
            } else {
                assert(self.has_state(t));
            }
        }
        assert forall|t: int, i: int| self.has_tr(t, i) implies g.has_tr(t, i) && g.tr(t, i)
            == self.tr(t, i) by {
            assert(self.has_state(t));
        }
        assert forall|t: int| g.is_final(t) implies self.is_final(t) && g.states[t].final_weight
            == self.states[t].final_weight by {
            if t >= self.states.len() {
                assert(g.states[t] == StateView::<W>::empty());
            } else {
                assert(self.has_state(t));
            }
        }
        assert forall|t: int| self.is_final(t) implies g.is_final(t) && g.states[t].final_weight
            == self.states[t].final_weight by {
            assert(self.has_state(t));
        }
        assert(self.embeds_in(g));
        if is_every_tr_bit(k) {
            assert forall|t: int, i: int| #[trigger] g.has_tr(t, i) implies tr_meets(
                k,
                t,
                g.tr(t, i),
            ) by {
                assert(self.has_tr(t, i));
            }
            assert forall|t: int| #[trigger] g.is_final(t) implies crate::fst_view::final_meets(
                k,
                g.states[t].final_weight->0,
            ) by {
                assert(self.is_final(t));
            }
        } else if is_some_tr_bit(k) {
            let j = opposite_bit(k);
            if g.every_tr_meets(j) {
                assert forall|t: int, i: int| #[trigger] self.has_tr(t, i) implies tr_meets(
                    j,
                    t,
                    self.tr(t, i),
                ) by {
                    assert(g.has_tr(t, i));
                }
                assert forall|t: int| #[trigger]
                    self.is_final(t) implies crate::fst_view::final_meets(
                    j,
                    self.states[t].final_weight->0,
                ) by {
                    assert(g.is_final(t));
                }
                assert(false);
            }
        } else if k == CYCLIC_BIT {
            self.lemma_cycle_embeds(g);
        } else if k == ACYCLIC_BIT {
            let rank = choose|rank: Seq<nat>| self.is_topological_rank(rank);
            let rank2 = Seq::new(
                g.states.len(),
                |t: int|
                    if t < rank.len() {
                        rank[t]
                    } else {
                        0nat
                    },
            );
            assert forall|t: int, i: int| #[trigger] g.has_tr(t, i) implies rank2[t]
                < rank2[g.tr(t, i).nextstate as int] by {
                assert(self.has_tr(t, i));
            }
            assert forall|t: int| 0 <= t < rank2.len() implies #[trigger] rank2[t]
                < g.states.len() by {
                if t < rank.len() {
                    assert(rank[t] < self.states.len());
                } else {
                    assert(self.states.len() <= t);
                }
            }
            assert(g.is_topological_rank(rank2));
        } else {
            assert(g.i_deterministic() == self.i_deterministic()) by {
                if self.i_deterministic() {
                    assert forall|t: int, i: int, j: int|
                        #![trigger g.tr(t, i), g.tr(t, j)]
                        g.has_tr(t, i) && g.has_tr(t, j) && i != j implies g.tr(t, i).ilabel
                        != g.tr(t, j).ilabel by {
                        assert(self.has_tr(t, i) && self.has_tr(t, j));
                        assert(self.tr(t, i).ilabel != self.tr(t, j).ilabel);
                    }
                }
                if g.i_deterministic() {
                    assert forall|t: int, i: int, j: int|
                        #![trigger self.tr(t, i), self.tr(t, j)]
                        self.has_tr(t, i) && self.has_tr(t, j) && i != j implies self.tr(
                            t,
                            i,
                        ).ilabel != self.tr(t, j).ilabel by {
                        assert(g.has_tr(t, i) && g.has_tr(t, j));
                        assert(g.tr(t, i).ilabel != g.tr(t, j).ilabel);
                    }
                }
            }
            assert(g.o_deterministic() == self.o_deterministic()) by {
                if self.o_deterministic() {
                    assert forall|t: int, i: int, j: int|
                        #![trigger g.tr(t, i), g.tr(t, j)]
                        g.has_tr(t, i) && g.has_tr(t, j) && i != j implies g.tr(t, i).olabel
                        != g.tr(t, j).olabel by {
                        assert(self.has_tr(t, i) && self.has_tr(t, j));
                        assert(self.tr(t, i).olabel != self.tr(t, j).olabel);
                    }
                }
                if g.o_deterministic() {
                    assert forall|t: int, i: int, j: int|
                        #![trigger self.tr(t, i), self.tr(t, j)]
                        self.has_tr(t, i) && self.has_tr(t, j) && i != j implies self.tr(
                            t,
                            i,
                        ).olabel != self.tr(t, j).olabel by {
                        assert(g.has_tr(t, i) && g.has_tr(t, j));
                        assert(g.tr(t, i).olabel != g.tr(t, j).olabel);
                    }
                }
            }
            assert(g.i_label_sorted() == self.i_label_sorted()) by {
                if self.i_label_sorted() {
                    assert forall|t: int, i: int, j: int|
                        #![trigger g.tr(t, i), g.tr(t, j)]
                        g.has_tr(t, i) && g.has_tr(t, j) && i < j implies g.tr(t, i).ilabel
                        <= g.tr(t, j).ilabel by {
                        assert(self.has_tr(t, i) && self.has_tr(t, j));
                        assert(self.tr(t, i).ilabel <= self.tr(t, j).ilabel);
                    }
                }
                if g.i_label_sorted() {
                    assert forall|t: int, i: int, j: int|
                        #![trigger self.tr(t, i), self.tr(t, j)]
                        self.has_tr(t, i) && self.has_tr(t, j) && i < j implies self.tr(
                            t,
                            i,
                        ).ilabel <= self.tr(t, j).ilabel by {
                        assert(g.has_tr(t, i) && g.has_tr(t, j));
                        assert(g.tr(t, i).ilabel <= g.tr(t, j).ilabel);
                    }
                }
            }
            assert(g.o_label_sorted() == self.o_label_sorted()) by {
                if self.o_label_sorted() {
                    assert forall|t: int, i: int, j: int|
                        #![trigger g.tr(t, i), g.tr(t, j)]
                        g.has_tr(t, i) && g.has_tr(t, j) && i < j implies g.tr(t, i).olabel
                        <= g.tr(t, j).olabel by {
                        assert(self.has_tr(t, i) && self.has_tr(t, j));
                        assert(self.tr(t, i).olabel <= self.tr(t, j).olabel);
                    }
                }
                if g.o_label_sorted() {
                    assert forall|t: int, i: int, j: int|
                        #![trigger self.tr(t, i), self.tr(t, j)]
                        self.has_tr(t, i) && self.has_tr(t, j) && i < j implies self.tr(
                            t,
                            i,
                        ).olabel <= self.tr(t, j).olabel by {
                        assert(g.has_tr(t, i) && g.has_tr(t, j));
                        assert(g.tr(t, i).olabel <= g.tr(t, j).olabel);
                    }
                }
            }
        }
    }

    /// Appending a transition keeps the transducer well formed.
    pub proof fn lemma_add_tr_wf(self, s: int, tr: Tr<W>)
        requires
            self.wf(),
            self.has_state(s),
            tr.nextstate < self.states.len(),
        ensures
            self.add_tr(s, tr).wf(),
    {
        let g = self.add_tr(s, tr);
        let n = self.states[s].trs.len() as int;
        let prev = last_of(self.states[s].trs);
        assert forall|t: int, i: int| #[trigger] g.has_tr(t, i) implies (if t == s && i == n {
            g.tr(t, i) == tr
        } else {
            self.has_tr(t, i) && g.tr(t, i) == self.tr(t, i)
        }) by {}
        assert forall|t: int, i: int| #[trigger] self.has_tr(t, i) implies g.has_tr(t, i) && g.tr(
            t,
            i,
        ) == self.tr(t, i) by {}
        assert(g.has_tr(s, n) && g.tr(s, n) == tr);
        assert(self.embeds_in(g));
        assert forall|t: int| g.is_final(t) == self.is_final(t) && (g.has_state(t)
            ==> g.states[t].final_weight == self.states[t].final_weight) by {}
        assert forall|t: int, i: int| #[trigger] g.has_tr(t, i) implies g.tr(t, i).nextstate
            < g.states.len() by {
            if !(t == s && i == n) {
                assert(self.has_tr(t, i));
            }
        }
        assert forall|t: int| #[trigger] g.has_state(t) implies g.states[t].final_weight != Some(
            W::zero_spec(),
        ) by {
            assert(self.has_state(t));
        }
        assert forall|k: u64| g.properties.contains(k) implies #[trigger] g.property_fact(k) by {
            if is_every_tr_bit(k) {
                assert(self.property_fact(k));
                assert forall|t: int, i: int| #[trigger] g.has_tr(t, i) implies tr_meets(
                    k,
                    t,
                    g.tr(t, i),
                ) by {
                    if !(t == s && i == n) {
                        assert(self.has_tr(t, i));
                    }
                }
                assert forall|t: int| #[trigger]
                    g.is_final(t) implies crate::fst_view::final_meets(
                    k,
                    g.states[t].final_weight->0,
                ) by {
                    assert(self.is_final(t));
                }
            } else if is_some_tr_bit(k) {
                let j = opposite_bit(k);
                if g.every_tr_meets(j) {
                    assert(tr_meets(j, s, g.tr(s, n)));
                    assert(self.properties.contains(k));
                    assert(self.property_fact(k));
                    assert forall|t: int, i: int| #[trigger] self.has_tr(t, i) implies tr_meets(
                        j,
                        t,
                        self.tr(t, i),
                    ) by {
                        assert(g.has_tr(t, i));
                    }
                    assert forall|t: int| #[trigger]
                        self.is_final(t) implies crate::fst_view::final_meets(
                        j,
                        self.states[t].final_weight->0,
                    ) by {
                        assert(g.is_final(t));
                    }
                    assert(false);
                }
            } else if k == I_DETERMINISTIC_BIT || k == O_DETERMINISTIC_BIT || k == ACYCLIC_BIT {
            } else if k == I_LABEL_SORTED_BIT {
                assert(self.property_fact(k));
                assert forall|t: int, i: int, j: int|
                    #![trigger g.tr(t, i), g.tr(t, j)]
                    g.has_tr(t, i) && g.has_tr(t, j) && i < j implies g.tr(t, i).ilabel <= g.tr(
                        t,
                        j,
                    ).ilabel by {
                    if t == s && j == n {
                        assert(self.has_tr(s, i) && self.has_tr(s, n - 1));
                        assert(self.tr(s, i).ilabel <= self.tr(s, n - 1).ilabel);
                    } else {
                        assert(self.has_tr(t, i) && self.has_tr(t, j));
                        assert(self.tr(t, i).ilabel <= self.tr(t, j).ilabel);
                    }
                }
            } else if k == O_LABEL_SORTED_BIT {
                assert(self.property_fact(k));
                assert forall|t: int, i: int, j: int|
                    #![trigger g.tr(t, i), g.tr(t, j)]
                    g.has_tr(t, i) && g.has_tr(t, j) && i < j implies g.tr(t, i).olabel <= g.tr(
                        t,
                        j,
                    ).olabel by {
                    if t == s && j == n {
                        assert(self.has_tr(s, i) && self.has_tr(s, n - 1));
                        assert(self.tr(s, i).olabel <= self.tr(s, n - 1).olabel);
                    } else {
                        assert(self.has_tr(t, i) && self.has_tr(t, j));
                        assert(self.tr(t, i).olabel <= self.tr(t, j).olabel);
                    }
                }
            } else if k == NOT_I_LABEL_SORTED_BIT {
                if g.i_label_sorted() {
                    if self.properties.contains(k) {
                        assert(self.property_fact(k));
                        assert forall|t: int, i: int, j: int|
                            #![trigger self.tr(t, i), self.tr(t, j)]
                            self.has_tr(t, i) && self.has_tr(t, j) && i < j implies self.tr(
                                t,
                                i,
                            ).ilabel <= self.tr(t, j).ilabel by {
                            assert(g.has_tr(t, i) && g.has_tr(t, j));
                            assert(g.tr(t, i).ilabel <= g.tr(t, j).ilabel);
                        }
                    } else {
                        assert(g.has_tr(s, n - 1) && g.has_tr(s, n));
                        assert(g.tr(s, n - 1).ilabel <= g.tr(s, n).ilabel);
                    }
                    assert(false);
                }
            } else if k == NOT_O_LABEL_SORTED_BIT {
                if g.o_label_sorted() {
                    if self.properties.contains(k) {
                        assert(self.property_fact(k));
                        assert forall|t: int, i: int, j: int|
                            #![trigger self.tr(t, i), self.tr(t, j)]
                            self.has_tr(t, i) && self.has_tr(t, j) && i < j implies self.tr(
                                t,
                                i,
                            ).olabel <= self.tr(t, j).olabel by {
                            assert(g.has_tr(t, i) && g.has_tr(t, j));
                            assert(g.tr(t, i).olabel <= g.tr(t, j).olabel);
                        }
                    } else {
                        assert(g.has_tr(s, n - 1) && g.has_tr(s, n));
                        assert(g.tr(s, n - 1).olabel <= g.tr(s, n).olabel);
                    }
                    assert(false);
                }
            } else if k == CYCLIC_BIT {
                assert(self.property_fact(k));
                self.lemma_cycle_embeds(g);
            } else if k == crate::fst_properties::NOT_I_DETERMINISTIC_BIT {
                assert(self.property_fact(k));
                if g.i_deterministic() {
                    assert forall|t: int, i: int, j: int|
                        #![trigger self.tr(t, i), self.tr(t, j)]
                        self.has_tr(t, i) && self.has_tr(t, j) && i != j implies self.tr(
                            t,
                            i,
                        ).ilabel != self.tr(t, j).ilabel by {
                        assert(g.has_tr(t, i) && g.has_tr(t, j));
                        assert(g.tr(t, i).ilabel != g.tr(t, j).ilabel);
                    }
                    assert(false);
                }
            } else if k == crate::fst_properties::NOT_O_DETERMINISTIC_BIT {
                assert(self.property_fact(k));
                if g.o_deterministic() {
                    assert forall|t: int, i: int, j: int|
                        #![trigger self.tr(t, i), self.tr(t, j)]
                        self.has_tr(t, i) && self.has_tr(t, j) && i != j implies self.tr(
                            t,
                            i,
                        ).olabel != self.tr(t, j).olabel by {
                        assert(g.has_tr(t, i) && g.has_tr(t, j));
                        assert(g.tr(t, i).olabel != g.tr(t, j).olabel);
                    }
                    assert(false);
                }
            }
        }
    }

    /// Whether `self` arises from `old` by taking transitions away: the states
    /// and final weights are those of `old`, and `maps[s]` gives, for each
    /// transition that state `s` has kept, its index in `old`, in rising order.
    pub open spec fn is_thinned_from(self, old: Self, maps: Seq<Seq<int>>) -> bool {
        &&& self.states.len() == old.states.len()
        &&& maps.len() == old.states.len()
        &&& forall|s: int| #[trigger]
            self.has_state(s) ==> self.states[s].final_weight == old.states[s].final_weight
                && maps[s].len() == self.states[s].trs.len()
        &&& forall|s: int, i: int| #[trigger]
            self.has_tr(s, i) ==> old.has_tr(s, maps[s][i]) && old.tr(s, maps[s][i]) == self.tr(
                s,
                i,
            )
        &&& forall|s: int, i: int, j: int|
            #![trigger self.tr(s, i), self.tr(s, j)]
            self.has_tr(s, i) && self.has_tr(s, j) && i < j ==> maps[s][i] < maps[s][j]
    }

    /// Taking transitions away keeps every fact that holds of the transducer
    /// without transitions.
    pub proof fn lemma_thinned_wf(self, old: Self, maps: Seq<Seq<int>>)
        requires
            old.wf(),
            self.is_thinned_from(old, maps),
            self.properties.subset_of(old.properties.intersect(null_properties())),
            self.start matches Some(s) ==> s < self.states.len(),
        ensures
            self.wf(),
    {
        let g = self;
        assert forall|t: int, i: int| #[trigger] g.has_tr(t, i) implies g.tr(t, i).nextstate
            < g.states.len() by {
            assert(old.has_tr(t, maps[t][i]));
        }
        assert forall|t: int| #[trigger] g.has_state(t) implies g.states[t].final_weight != Some(
            W::zero_spec(),
        ) by {
            assert(old.has_state(t));
        }
        assert forall|k: u64| g.properties.contains(k) implies #[trigger] g.property_fact(k) by {
            assert(old.properties.contains(k) && null_properties().contains(k));
            assert(old.property_fact(k));
            if is_every_tr_bit(k) {
                assert forall|t: int, i: int| #[trigger] g.has_tr(t, i) implies tr_meets(
                    k,
                    t,
                    g.tr(t, i),
                ) by {
                    assert(old.has_tr(t, maps[t][i]));
                }
                assert forall|t: int| #[trigger]
                    g.is_final(t) implies crate::fst_view::final_meets(
                    k,
                    g.states[t].final_weight->0,
                ) by {
                    assert(g.has_state(t));
                    assert(old.is_final(t));
                }
            } else if k == I_DETERMINISTIC_BIT {
                assert forall|t: int, i: int, j: int|
                    #![trigger g.tr(t, i), g.tr(t, j)]
                    g.has_tr(t, i) && g.has_tr(t, j) && i != j implies g.tr(t, i).ilabel != g.tr(
                        t,
                        j,
                    ).ilabel by {
                    let a = maps[t][i];
                    let b = maps[t][j];
                    assert(old.has_tr(t, a) && old.has_tr(t, b));
                    if i < j {
                        assert(a < b);
                    } else {
                        assert(g.has_tr(t, j) && g.has_tr(t, i) && j < i);
                        assert(b < a);
                    }
                    assert(old.tr(t, a).ilabel != old.tr(t, b).ilabel);
                }
            } else if k == O_DETERMINISTIC_BIT {
                assert forall|t: int, i: int, j: int|
                    #![trigger g.tr(t, i), g.tr(t, j)]
                    g.has_tr(t, i) && g.has_tr(t, j) && i != j implies g.tr(t, i).olabel != g.tr(
                        t,
                        j,
                    ).olabel by {
                    let a = maps[t][i];
                    let b = maps[t][j];
                    assert(old.has_tr(t, a) && old.has_tr(t, b));
                    if i < j {
                        assert(a < b);
                    } else {
                        assert(g.has_tr(t, j) && g.has_tr(t, i) && j < i);
                        assert(b < a);
                    }
                    assert(old.tr(t, a).olabel != old.tr(t, b).olabel);
                }
            } else if k == I_LABEL_SORTED_BIT {
                assert forall|t: int, i: int, j: int|
                    #![trigger g.tr(t, i), g.tr(t, j)]
                    g.has_tr(t, i) && g.has_tr(t, j) && i < j implies g.tr(t, i).ilabel <= g.tr(
                        t,
                        j,
                    ).ilabel by {
                    let a = maps[t][i];
                    let b = maps[t][j];
                    assert(old.has_tr(t, a) && old.has_tr(t, b) && a < b);
                    assert(old.tr(t, a).ilabel <= old.tr(t, b).ilabel);
                }
            } else if k == O_LABEL_SORTED_BIT {
                assert forall|t: int, i: int, j: int|
                    #![trigger g.tr(t, i), g.tr(t, j)]
                    g.has_tr(t, i) && g.has_tr(t, j) && i < j implies g.tr(t, i).olabel <= g.tr(
                        t,
                        j,
                    ).olabel by {
                    let a = maps[t][i];
                    let b = maps[t][j];
                    assert(old.has_tr(t, a) && old.has_tr(t, b) && a < b);
                    assert(old.tr(t, a).olabel <= old.tr(t, b).olabel);
                }
            } else {
                assert(k == ACYCLIC_BIT);
                let rank = choose|rank: Seq<nat>| old.is_topological_rank(rank);
                assert forall|t: int, i: int| #[trigger] g.has_tr(t, i) implies rank[t]
                    < rank[g.tr(t, i).nextstate as int] by {
                    assert(old.has_tr(t, maps[t][i]));
                }
                assert(g.is_topological_rank(rank));
            }
        }
    }

    /// The index maps of a transducer from which the transitions of state `s`
    /// were taken away and no others.
    pub open spec fn identity_maps_but(self, s: int) -> Seq<Seq<int>> {
        Seq::new(
            self.states.len(),
            |t: int|
                if t == s {
                    Seq::<int>::empty()
                } else {
                    Seq::new(self.states[t].trs.len(), |i: int| i)
                },
        )
    }

    /// Removing the transitions of a state keeps the transducer well formed.
    pub proof fn lemma_delete_trs_wf(self, s: int)
        requires
            self.wf(),
            self.has_state(s),
        ensures
            self.delete_trs(s).wf(),
    {
        let g = self.delete_trs(s);
        let maps = self.identity_maps_but(s);
        assert(g.is_thinned_from(self, maps));
        g.lemma_thinned_wf(self, maps);
    }

    /// Replacing the transitions of a state keeps the graph well formed,
    /// where the new transitions lead to states that exist.
    pub proof fn lemma_set_trs_wf(self, s: int, trs: Seq<Tr<W>>)
        requires
            self.wf(),
            self.has_state(s),
            forall|i: int| 0 <= i < trs.len() ==> (#[trigger] trs[i]).nextstate < self.states.len(),
        ensures
            self.set_trs(s, trs).wf(),
    {
        let g = self.set_trs(s, trs);
        assert forall|t: int, i: int| #[trigger] g.has_tr(t, i) implies g.tr(t, i).nextstate
            < g.states.len() by {
            if t != s {
                assert(self.has_tr(t, i));
            }
        }
        assert forall|t: int| #[trigger] g.has_state(t) implies g.states[t].final_weight != Some(
            W::zero_spec(),
        ) by {
            assert(self.has_state(t));
        }
    }

    /// The transducer is well formed once all its states are removed.
    pub proof fn lemma_del_all_states_wf(self)
        ensures
            self.del_all_states().wf(),
    {
        let e = self.del_all_states();
        assert(e.is_topological_rank(Seq::<nat>::empty()));
        assert forall|k: u64| null_properties().contains(k) implies #[trigger] e.property_fact(
            k,
        ) by {}
    }

    /// The transitions that leave state `s`.
    pub open spec fn trs_at(self, s: StateId) -> Seq<Tr<W>> {
        self.states[s as int].trs
    }

    /// The final weight of state `s`.
    pub open spec fn final_at(self, s: StateId) -> Option<W> {
        self.states[s as int].final_weight
    }

    /// After the transitions of state `s` were put in the order `trs`.
    pub open spec fn sorted_at(self, s: StateId, trs: Seq<Tr<W>>) -> Self {
        self.with_trs(s as int, trs).with_properties(
            self.properties.intersect(sort_kept_properties()),
        )
    }

    /// Reordering the transitions of a state keeps the transducer well formed.
    pub proof fn lemma_sorted_at_wf(self, s: StateId, trs: Seq<Tr<W>>)
        requires
            self.wf(),
            s < self.states.len(),
            trs.to_multiset() == self.trs_at(s).to_multiset(),
        ensures
            self.sorted_at(s, trs).wf(),
    {
        broadcast use vstd::seq_lib::to_multiset_contains;

        let g = self.sorted_at(s, trs);
        let old_trs = self.trs_at(s);
        assert forall|y: Tr<W>| trs.contains(y) == old_trs.contains(y) by {
            assert(trs.to_multiset().count(y) == old_trs.to_multiset().count(y));
        }
        assert forall|t: int, i: int| #[trigger] g.has_tr(t, i) implies exists|j: int|
            self.has_tr(t, j) && self.tr(t, j) == g.tr(t, i) by {
            if t == s {
                assert(trs.contains(trs[i]));
                let j = choose|j: int| 0 <= j < old_trs.len() && old_trs[j] == trs[i];
                assert(self.has_tr(t, j));
            } else {
                assert(self.has_tr(t, i));
            }
        }
        assert forall|t: int, i: int| #[trigger] self.has_tr(t, i) implies exists|j: int|
            g.has_tr(t, j) && g.tr(t, j) == self.tr(t, i) by {
            if t == s {
                assert(old_trs.contains(old_trs[i]));
                let j = choose|j: int| 0 <= j < trs.len() && trs[j] == old_trs[i];
                assert(g.has_tr(t, j));
            } else {
                assert(g.has_tr(t, i));
            }
        }
        assert forall|t: int| g.is_final(t) == self.is_final(t) && (g.has_state(t)
            ==> g.states[t].final_weight == self.states[t].final_weight) by {}
        assert forall|t: int, i: int| #[trigger] g.has_tr(t, i) implies g.tr(t, i).nextstate
            < g.states.len() by {
            let j = choose|j: int| self.has_tr(t, j) && self.tr(t, j) == g.tr(t, i);
            assert(self.has_tr(t, j));
        }
        assert forall|t: int| #[trigger] g.has_state(t) implies g.states[t].final_weight != Some(
            W::zero_spec(),
        ) by {
            assert(self.has_state(t));
        }
        assert forall|k: u64| g.properties.contains(k) implies #[trigger] g.property_fact(k) by {
            assert(self.property_fact(k));
            if is_every_tr_bit(k) {
                assert forall|t: int, i: int| #[trigger] g.has_tr(t, i) implies tr_meets(
                    k,
                    t,
                    g.tr(t, i),
                ) by {
                    let j = choose|j: int| self.has_tr(t, j) && self.tr(t, j) == g.tr(t, i);
                    assert(self.has_tr(t, j));
                }
                assert forall|t: int| #[trigger]
                    g.is_final(t) implies crate::fst_view::final_meets(
                    k,
                    g.states[t].final_weight->0,
                ) by {
                    assert(self.is_final(t));
                }
            } else if is_some_tr_bit(k) {
                let m = opposite_bit(k);
                if g.every_tr_meets(m) {
                    assert forall|t: int, i: int| #[trigger] self.has_tr(t, i) implies tr_meets(
                        m,
                        t,
                        self.tr(t, i),
                    ) by {
                        let j = choose|j: int| g.has_tr(t, j) && g.tr(t, j) == self.tr(t, i);
                        assert(g.has_tr(t, j));
                    }
                    assert forall|t: int| #[trigger]
                        self.is_final(t) implies crate::fst_view::final_meets(
                        m,
                        self.states[t].final_weight->0,
                    ) by {
                        assert(g.is_final(t));
                    }
                    assert(false);
                }
            } else {
                assert(k == ACYCLIC_BIT);
                let rank = choose|rank: Seq<nat>| self.is_topological_rank(rank);
                assert forall|t: int, i: int| #[trigger] g.has_tr(t, i) implies rank[t]
                    < rank[g.tr(t, i).nextstate as int] by {
                    let j = choose|j: int| self.has_tr(t, j) && self.tr(t, j) == g.tr(t, i);
                    assert(self.has_tr(t, j));
                }
                assert(g.is_topological_rank(rank));
            }
        }
    }
}

/// The bits that stay true when the transitions of a state change their
/// order: those that speak of each transition by itself, and the absence of
/// cycles.
pub open spec fn sort_kept_properties() -> Set<u64> {
    Set::new(|k: u64| is_every_tr_bit(k) || is_some_tr_bit(k) || k == ACYCLIC_BIT)
}

/// Whether a final weight is `0̄` or `1̄`.
pub open spec fn final_meets_unweighted<W: Semiring>(w: W) -> bool {
    crate::fst_view::final_meets(UNWEIGHTED_BIT, w)
}

} // verus!
