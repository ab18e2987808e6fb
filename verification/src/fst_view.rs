//! The mathematical model of a transducer: what every contract speaks of.

use vstd::prelude::*;
use crate::fst_properties::{
    ACCEPTOR_BIT, ACYCLIC_BIT, CYCLIC_BIT, EPSILONS_BIT, I_DETERMINISTIC_BIT,
    I_EPSILONS_BIT, I_LABEL_SORTED_BIT, NOT_ACCEPTOR_BIT, NOT_I_DETERMINISTIC_BIT,
    NOT_I_LABEL_SORTED_BIT, NOT_O_DETERMINISTIC_BIT, NOT_O_LABEL_SORTED_BIT, NOT_TOP_SORTED_BIT,
    NO_EPSILONS_BIT, NO_I_EPSILONS_BIT, NO_O_EPSILONS_BIT, O_DETERMINISTIC_BIT, O_EPSILONS_BIT,
    O_LABEL_SORTED_BIT, TOP_SORTED_BIT, UNWEIGHTED_BIT, WEIGHTED_BIT,
};
use crate::semirings::semiring::Semiring;
use crate::tr::{Label, StateId, Tr, EPS_LABEL};

verus! {

/// A state of the model: its final weight, if it is final, and the
/// transitions that leave it, in order.
#[verifier::ext_equal]
pub struct StateView<W: Semiring> {
    pub final_weight: Option<W>,
    pub trs: Seq<Tr<W>>,
}

/// The model of a transducer. A state is its index in `states`. A symbol
/// table is the sequence of its symbols, a symbol's identifier being its
/// index.
#[verifier::ext_equal]
pub struct FstView<W: Semiring> {
    pub start: Option<StateId>,
    pub states: Seq<StateView<W>>,
    pub properties: Set<u64>,
    pub isymt: Option<Seq<Seq<char>>>,
    pub osymt: Option<Seq<Seq<char>>>,
}

/// A step of a path: a state and the index of one of its transitions.
pub type Step = (int, int);

/// The property bit whose fact is that every transition meets a condition.
pub open spec fn is_every_tr_bit(k: u64) -> bool {
    k == ACCEPTOR_BIT || k == NO_EPSILONS_BIT || k == NO_I_EPSILONS_BIT || k == NO_O_EPSILONS_BIT
        || k == UNWEIGHTED_BIT || k == TOP_SORTED_BIT
}

/// The property bit whose fact is that some transition fails a condition.
pub open spec fn is_some_tr_bit(k: u64) -> bool {
    k == NOT_ACCEPTOR_BIT || k == EPSILONS_BIT || k == I_EPSILONS_BIT || k == O_EPSILONS_BIT || k
        == WEIGHTED_BIT || k == NOT_TOP_SORTED_BIT
}

/// The bit that says the opposite of `k`, for the bits that come in pairs.
pub open spec fn opposite_bit(k: u64) -> u64 {
    if k == NOT_ACCEPTOR_BIT {
        ACCEPTOR_BIT
    } else if k == EPSILONS_BIT {
        NO_EPSILONS_BIT
    } else if k == I_EPSILONS_BIT {
        NO_I_EPSILONS_BIT
    } else if k == O_EPSILONS_BIT {
        NO_O_EPSILONS_BIT
    } else if k == WEIGHTED_BIT {
        UNWEIGHTED_BIT
    } else if k == NOT_TOP_SORTED_BIT {
        TOP_SORTED_BIT
    } else if k == ACCEPTOR_BIT {
        NOT_ACCEPTOR_BIT
    } else if k == NO_EPSILONS_BIT {
        EPSILONS_BIT
    } else if k == NO_I_EPSILONS_BIT {
        I_EPSILONS_BIT
    } else if k == NO_O_EPSILONS_BIT {
        O_EPSILONS_BIT
    } else if k == UNWEIGHTED_BIT {
        WEIGHTED_BIT
    } else if k == TOP_SORTED_BIT {
        NOT_TOP_SORTED_BIT
    } else {
        k
    }
}

/// Whether a weight is `0̄` or `1̄`.
pub open spec fn is_trivial_weight<W: Semiring>(w: W) -> bool {
    w == W::zero_spec() || w == W::one_spec()
}

/// The condition that the bit `k` asks of a transition `tr` leaving `s`.
pub open spec fn tr_meets<W: Semiring>(k: u64, s: int, tr: Tr<W>) -> bool {
    if k == ACCEPTOR_BIT {
        tr.ilabel == tr.olabel
    } else if k == NO_EPSILONS_BIT {
        !(tr.ilabel == EPS_LABEL && tr.olabel == EPS_LABEL)
    } else if k == NO_I_EPSILONS_BIT {
        tr.ilabel != EPS_LABEL
    } else if k == NO_O_EPSILONS_BIT {
        tr.olabel != EPS_LABEL
    } else if k == UNWEIGHTED_BIT {
        is_trivial_weight(tr.weight)
    } else if k == TOP_SORTED_BIT {
        tr.nextstate > s
    } else {
        true
    }
}

/// The condition that the bit `k` asks of a final weight.
pub open spec fn final_meets<W: Semiring>(k: u64, w: W) -> bool {
    k == UNWEIGHTED_BIT ==> is_trivial_weight(w)
}

impl<W: Semiring> StateView<W> {
    /// A state that is not final and has no transition.
    pub open spec fn empty() -> Self {
        StateView { final_weight: None, trs: Seq::empty() }
    }

    pub open spec fn with_final(self, final_weight: Option<W>) -> Self {
        StateView { final_weight, trs: self.trs }
    }

    pub open spec fn with_trs(self, trs: Seq<Tr<W>>) -> Self {
        StateView { final_weight: self.final_weight, trs }
    }
}

impl<W: Semiring> FstView<W> {
    /// The transducer without states.
    pub open spec fn empty() -> Self {
        FstView {
            start: None,
            states: Seq::empty(),
            properties: crate::fst_view_update::null_properties(),
            isymt: None,
            osymt: None,
        }
    }

    pub open spec fn num_states(self) -> nat {
        self.states.len()
    }

    pub open spec fn has_state(self, s: int) -> bool {
        0 <= s < self.states.len()
    }

    /// Whether state `s` exists and has a transition of index `i`.
    pub open spec fn has_tr(self, s: int, i: int) -> bool {
        0 <= s < self.states.len() && 0 <= i < self.states[s].trs.len()
    }

    pub open spec fn tr(self, s: int, i: int) -> Tr<W> {
        self.states[s].trs[i]
    }

    pub open spec fn is_final(self, s: int) -> bool {
        self.has_state(s) && self.states[s].final_weight is Some
    }

    /// The start state exists, every transition leads to a state that
    /// exists, and no state has `0̄` as its final weight.
    pub open spec fn graph_wf(self) -> bool {
        &&& self.start matches Some(s) ==> s < self.states.len()
        &&& forall|s: int, i: int| #[trigger]
            self.has_tr(s, i) ==> self.tr(s, i).nextstate < self.states.len()
        &&& forall|s: int| #[trigger]
            self.has_state(s) ==> self.states[s].final_weight != Some(W::zero_spec())
    }

    /// What every transducer of the library satisfies: it is a well-formed
    /// graph and each of its property bits states a fact about it.
    pub open spec fn wf(self) -> bool {
        &&& self.graph_wf()
        &&& self.properties_hold(self.properties)
    }

    // ----- paths -----

    /// Whether the steps of `p` lead from `from` to `to`.
    pub open spec fn is_path(self, from: int, p: Seq<Step>, to: int) -> bool
        decreases p.len(),
    {
        if p.len() == 0 {
            self.has_state(from) && from == to
        } else {
            &&& p[0].0 == from
            &&& self.has_tr(p[0].0, p[0].1)
            &&& self.is_path(self.tr(p[0].0, p[0].1).nextstate as int, p.drop_first(), to)
        }
    }

    /// Whether some path leads from `from` to `to`.
    pub open spec fn reachable(self, from: int, to: int) -> bool {
        exists|p: Seq<Step>| self.is_path(from, p, to)
    }

    /// Whether `s` can be reached from the start state.
    pub open spec fn accessible(self, s: int) -> bool {
        self.start matches Some(start) && self.reachable(start as int, s)
    }

    /// Whether a final state can be reached from `s`.
    pub open spec fn coaccessible(self, s: int) -> bool {
        exists|t: int| self.reachable(s, t) && self.is_final(t)
    }

    /// The input labels along a path, ε included.
    pub open spec fn path_ilabels(self, p: Seq<Step>) -> Seq<Label> {
        Seq::new(p.len(), |i: int| self.tr(p[i].0, p[i].1).ilabel)
    }

    /// The output labels along a path, ε included.
    pub open spec fn path_olabels(self, p: Seq<Step>) -> Seq<Label> {
        Seq::new(p.len(), |i: int| self.tr(p[i].0, p[i].1).olabel)
    }

    /// The `⊗`-product of the weights along a path, in order.
    pub open spec fn path_weight(self, p: Seq<Step>) -> W
        decreases p.len(),
    {
        if p.len() == 0 {
            W::one_spec()
        } else {
            self.tr(p[0].0, p[0].1).weight.times_spec(self.path_weight(p.drop_first()))
        }
    }

    /// Whether `p` leads from the start state to the final state `to`.
    pub open spec fn is_accepting_path(self, p: Seq<Step>, to: int) -> bool {
        self.start matches Some(start) && self.is_path(start as int, p, to) && self.is_final(to)
    }

    // ----- cycles -----

    /// Whether some non-empty path returns to the state it left.
    pub open spec fn has_cycle(self) -> bool {
        exists|s: int, p: Seq<Step>| p.len() > 0 && self.is_path(s, p, s)
    }

    /// Whether `rank` gives every state a rank below the number of states such
    /// that every transition leads to a higher rank.
    pub open spec fn is_topological_rank(self, rank: Seq<nat>) -> bool {
        &&& rank.len() == self.states.len()
        &&& forall|s: int| 0 <= s < rank.len() ==> #[trigger] rank[s] < self.states.len()
        &&& forall|s: int, i: int| #[trigger]
            self.has_tr(s, i) ==> rank[s] < rank[self.tr(s, i).nextstate as int]
    }

    /// Whether the states can be ranked topologically.
    pub open spec fn is_acyclic(self) -> bool {
        exists|rank: Seq<nat>| self.is_topological_rank(rank)
    }

    // ----- the facts behind the property bits -----

    pub open spec fn every_tr_meets(self, k: u64) -> bool {
        &&& forall|s: int, i: int| #[trigger] self.has_tr(s, i) ==> tr_meets(k, s, self.tr(s, i))
        &&& forall|s: int| #[trigger]
            self.is_final(s) ==> final_meets(k, self.states[s].final_weight->0)
    }

    pub open spec fn i_deterministic(self) -> bool {
        forall|s: int, i: int, j: int|
            #![trigger self.tr(s, i), self.tr(s, j)]
            self.has_tr(s, i) && self.has_tr(s, j) && i != j ==> self.tr(s, i).ilabel != self.tr(
                s,
                j,
            ).ilabel
    }

    pub open spec fn o_deterministic(self) -> bool {
        forall|s: int, i: int, j: int|
            #![trigger self.tr(s, i), self.tr(s, j)]
            self.has_tr(s, i) && self.has_tr(s, j) && i != j ==> self.tr(s, i).olabel != self.tr(
                s,
                j,
            ).olabel
    }

    pub open spec fn i_label_sorted(self) -> bool {
        forall|s: int, i: int, j: int|
            #![trigger self.tr(s, i), self.tr(s, j)]
            self.has_tr(s, i) && self.has_tr(s, j) && i < j ==> self.tr(s, i).ilabel <= self.tr(
                s,
                j,
            ).ilabel
    }

    pub open spec fn o_label_sorted(self) -> bool {
        forall|s: int, i: int, j: int|
            #![trigger self.tr(s, i), self.tr(s, j)]
            self.has_tr(s, i) && self.has_tr(s, j) && i < j ==> self.tr(s, i).olabel <= self.tr(
                s,
                j,
            ).olabel
    }

    /// The fact that the property bit `k` states. A bit without a meaning
    /// states nothing.
    pub open spec fn property_fact(self, k: u64) -> bool {
        if is_every_tr_bit(k) {
            self.every_tr_meets(k)
        } else if is_some_tr_bit(k) {
            !self.every_tr_meets(opposite_bit(k))
        } else if k == I_DETERMINISTIC_BIT {
            self.i_deterministic()
        } else if k == NOT_I_DETERMINISTIC_BIT {
            !self.i_deterministic()
        } else if k == O_DETERMINISTIC_BIT {
            self.o_deterministic()
        } else if k == NOT_O_DETERMINISTIC_BIT {
            !self.o_deterministic()
        } else if k == I_LABEL_SORTED_BIT {
            self.i_label_sorted()
        } else if k == NOT_I_LABEL_SORTED_BIT {
            !self.i_label_sorted()
        } else if k == O_LABEL_SORTED_BIT {
            self.o_label_sorted()
        } else if k == NOT_O_LABEL_SORTED_BIT {
            !self.o_label_sorted()
        } else if k == CYCLIC_BIT {
            self.has_cycle()
        } else if k == ACYCLIC_BIT {
            self.is_acyclic()
        } else {
            true
        }
    }

    /// Whether each bit of `bits` states a fact.
    pub open spec fn properties_hold(self, bits: Set<u64>) -> bool {
        forall|k: u64| bits.contains(k) ==> #[trigger] self.property_fact(k)
    }

    // ----- paths: lemmas -----

    /// A path can be extended by a transition that leaves its end.
    pub proof fn lemma_path_push(self, from: int, p: Seq<Step>, to: int, i: int)
        requires
            self.is_path(from, p, to),
            self.has_tr(to, i),
            self.tr(to, i).nextstate < self.states.len(),
        ensures
            self.is_path(from, p.push((to, i)), self.tr(to, i).nextstate as int),
        decreases p.len(),
    {
        let q = p.push((to, i));
        if p.len() == 0 {
            assert(q.drop_first() =~= Seq::<Step>::empty());
            assert(self.is_path(self.tr(to, i).nextstate as int, q.drop_first(), self.tr(to, i).nextstate as int));
        } else {
            let next = self.tr(p[0].0, p[0].1).nextstate as int;
            self.lemma_path_push(next, p.drop_first(), to, i);
            assert(q.drop_first() =~= p.drop_first().push((to, i)));
        }
    }

    /// Two paths that meet can be joined.
    pub proof fn lemma_path_concat(self, a: int, p: Seq<Step>, b: int, q: Seq<Step>, c: int)
        requires
            self.is_path(a, p, b),
            self.is_path(b, q, c),
        ensures
            self.is_path(a, p + q, c),
        decreases p.len(),
    {
        if p.len() == 0 {
            assert(p + q =~= q);
        } else {
            let next = self.tr(p[0].0, p[0].1).nextstate as int;
            self.lemma_path_concat(next, p.drop_first(), b, q, c);
            assert((p + q).drop_first() =~= p.drop_first() + q);
        }
    }

    /// A path starts where its first step does, and an empty path ends where
    /// it starts.
    pub proof fn lemma_path_start(self, from: int, p: Seq<Step>, to: int)
        requires
            self.is_path(from, p, to),
        ensures
            p.len() == 0 ==> from == to,
            p.len() > 0 ==> p[0].0 == from && self.has_tr(p[0].0, p[0].1) && self.is_path(
                self.tr(p[0].0, p[0].1).nextstate as int,
                p.drop_first(),
                to,
            ),
    {
    }

    /// Each step of a path is a transition of the transducer.
    pub proof fn lemma_path_steps_valid(self, from: int, p: Seq<Step>, to: int)
        requires
            self.is_path(from, p, to),
        ensures
            forall|i: int| 0 <= i < p.len() ==> self.has_tr(p[i].0, p[i].1),
        decreases p.len(),
    {
        if p.len() > 0 {
            let next = self.tr(p[0].0, p[0].1).nextstate as int;
            self.lemma_path_steps_valid(next, p.drop_first(), to);
            assert forall|i: int| 0 <= i < p.len() implies self.has_tr(p[i].0, p[i].1) by {
                if i > 0 {
                    assert(p.drop_first()[i - 1] == p[i]);
                }
            }
        }
    }

    /// Both ends of a path are states of a well-formed transducer.
    pub proof fn lemma_path_ends(self, from: int, p: Seq<Step>, to: int)
        requires
            self.graph_wf(),
            self.is_path(from, p, to),
        ensures
            self.has_state(from),
            self.has_state(to),
        decreases p.len(),
    {
        if p.len() > 0 {
            let next = self.tr(p[0].0, p[0].1).nextstate as int;
            self.lemma_path_ends(next, p.drop_first(), to);
        }
    }

    /// A set of states that holds `from` and is closed under transitions holds
    /// every state that `from` reaches.
    pub proof fn lemma_closed_set_holds_reachable(
        self,
        closed: Set<int>,
        from: int,
        p: Seq<Step>,
        to: int,
    )
        requires
            closed.contains(from),
            forall|s: int, i: int|
                closed.contains(s) && #[trigger] self.has_tr(s, i) ==> closed.contains(
                    self.tr(s, i).nextstate as int,
                ),
            self.is_path(from, p, to),
        ensures
            closed.contains(to),
        decreases p.len(),
    {
        if p.len() > 0 {
            let next = self.tr(p[0].0, p[0].1).nextstate as int;
            self.lemma_closed_set_holds_reachable(closed, next, p.drop_first(), to);
        }
    }

    /// Along a path the topological rank rises by at least one per step.
    pub proof fn lemma_rank_rises_along_path(
        self,
        rank: Seq<nat>,
        from: int,
        p: Seq<Step>,
        to: int,
    )
        requires
            self.graph_wf(),
            self.is_topological_rank(rank),
            self.is_path(from, p, to),
        ensures
            rank[from] + p.len() <= rank[to],
        decreases p.len(),
    {
        if p.len() > 0 {
            let next = self.tr(p[0].0, p[0].1).nextstate as int;
            self.lemma_rank_rises_along_path(rank, next, p.drop_first(), to);
        }
    }

    /// A transducer whose states can be ranked topologically has no cycle.
    pub proof fn lemma_acyclic_has_no_cycle(self)
        requires
            self.graph_wf(),
            self.is_acyclic(),
        ensures
            !self.has_cycle(),
    {
        let rank = choose|rank: Seq<nat>| self.is_topological_rank(rank);
        assert forall|s: int, p: Seq<Step>| p.len() > 0 && self.is_path(s, p, s) implies false by {
            self.lemma_rank_rises_along_path(rank, s, p, s);
        }
    }

    /// Whether `rank` gives every state a rank such that every transition
    /// leads to a higher rank.
    pub open spec fn is_loose_rank(self, rank: Seq<nat>) -> bool {
        &&& rank.len() == self.states.len()
        &&& forall|s: int, i: int| #[trigger]
            self.has_tr(s, i) ==> rank[s] < rank[self.tr(s, i).nextstate as int]
    }

    /// A transducer whose transitions all lead to a higher rank has no
    /// cycle: the ranks can be brought below the number of states, each rank
    /// becoming the number of ranks below it.
    pub proof fn lemma_loose_rank_is_acyclic(self, rank: Seq<nat>)
        requires
            self.graph_wf(),
            self.is_loose_rank(rank),
        ensures
            self.is_acyclic(),
    {
        let all = rank.to_set();
        vstd::seq_lib::seq_to_set_is_finite(rank);
        rank.lemma_cardinality_of_set();
        let below = |x: nat| all.filter(|r: nat| r < x);
        let tight = Seq::new(rank.len(), |s: int| below(rank[s]).len());
        assert forall|s: int| 0 <= s < tight.len() implies #[trigger] tight[s]
            < self.states.len() by {
            let b = below(rank[s]);
            assert(all.contains(rank[s]));
            assert(!b.contains(rank[s]));
            assert(b.insert(rank[s]).subset_of(all));
            vstd::set_lib::lemma_len_subset(b, all);
            vstd::set_lib::lemma_len_subset(b.insert(rank[s]), all);
        }
        assert forall|s: int, i: int| #[trigger] self.has_tr(s, i) implies tight[s]
            < tight[self.tr(s, i).nextstate as int] by {
            let t = self.tr(s, i).nextstate as int;
            let a = below(rank[s]);
            let b = below(rank[t]);
            assert(all.contains(rank[s]));
            assert(b.subset_of(all));
            vstd::set_lib::lemma_len_subset(b, all);
            assert(a.insert(rank[s]).subset_of(b));
            vstd::set_lib::lemma_len_subset(a, b);
            vstd::set_lib::lemma_len_subset(a.insert(rank[s]), b);
            assert(!a.contains(rank[s]));
        }
        assert(self.is_topological_rank(tight));
    }

    /// Ranking every state by its index is topological exactly when every
    /// transition leads to a higher index.
    pub proof fn lemma_top_sorted_is_acyclic(self)
        requires
            self.graph_wf(),
            self.every_tr_meets(TOP_SORTED_BIT),
        ensures
            self.is_acyclic(),
    {
        let rank = Seq::new(self.states.len(), |s: int| s as nat);
        assert forall|s: int, i: int| #[trigger] self.has_tr(s, i) implies rank[s]
            < rank[self.tr(s, i).nextstate as int] by {
            assert(tr_meets(TOP_SORTED_BIT, s, self.tr(s, i)));
        }
        assert(self.is_topological_rank(rank));
    }
}

} // verus!
