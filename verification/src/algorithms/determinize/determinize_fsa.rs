//! The determinized acceptor, computed state by state as it is asked for.

use std::sync::Arc;
use vstd::prelude::*;
use crate::algorithms::determinize::determinize_fsa_op::{
    is_expansion, is_group_tr, is_prefix_of, is_target_subset, leads_outside, leads_to,
    DeterminizeFsaOp,
};
use crate::algorithms::determinize::divisors::CommonDivisor;
use crate::algorithms::determinize::subset::{
    canonical, divisor_of, has_label, is_divisible, is_subset_of, subset_distance, subset_final,
    subset_items, DeterminizeElement, SubsetView,
};
use crate::algorithms::lazy::simple_vec_cache::{CacheStatus, SimpleVecCache};
use crate::error::FstError;
use crate::fst_properties::{
    FstProperties, ACCEPTOR_BIT, I_DETERMINISTIC_BIT, I_LABEL_SORTED_BIT, O_DETERMINISTIC_BIT,
    O_LABEL_SORTED_BIT,
};
use crate::fst_traits::{
    count_input_epsilons, count_labels, count_output_epsilons, symbols_of, Fst, MutableFst,
};
use crate::fst_view::{tr_meets, FstView, StateView};
use crate::semirings::semiring::{Semiring, WeaklyDivisibleSemiring, WeightQuantize};
use crate::symbol_table::{share_symbol_table, SymbolTable};
use crate::tr::{Label, StateId, Tr};

verus! {

/// The subset that the determinized acceptor starts in: the start state of
/// the input with residual weight `1̄`.
pub open spec fn start_subset<W: Semiring>(s: StateId) -> SubsetView<W> {
    seq![DeterminizeElement { state: s, weight: W::one_spec() }]
}

/// Whether `subset` has a label whose group has a weight that its common
/// divisor does not divide: the sign of a semiring that does not suit.
pub open spec fn has_undivisible_group<
    W: WeaklyDivisibleSemiring + WeightQuantize,
    CD: CommonDivisor<W>,
>(f: FstView<W>, subset: SubsetView<W>) -> bool {
    exists|l: Label|
        has_label(f, subset, l) && !is_divisible(
            canonical(subset_items(f, subset, l)),
            divisor_of::<W, CD>(#[trigger] subset_items(f, subset, l)),
        )
}

/// What is known of the determinized acceptor bit by bit: it is an acceptor,
/// no state has two transitions with the same label, and the transitions of
/// each state are in the order of their labels.
pub open spec fn determinized_properties() -> Set<u64> {
    set![
        ACCEPTOR_BIT,
        I_DETERMINISTIC_BIT,
        O_DETERMINISTIC_BIT,
        I_LABEL_SORTED_BIT,
        O_LABEL_SORTED_BIT,
    ]
}

/// Whether `g` is the determinized form of the acceptor `f` with the
/// weighted subsets `table` as its states:
/// - the states of `g` are the subsets, which are distinct;
/// - `g` starts in the subset of the start state of `f`, with number 0;
/// - the final weight of a state is that of its subset;
/// - the transitions of a state are the expansion of its subset.
pub open spec fn is_determinization<
    W: WeaklyDivisibleSemiring + WeightQuantize,
    CD: CommonDivisor<W>,
>(f: FstView<W>, g: FstView<W>, table: Seq<SubsetView<W>>, delta: u64) -> bool {
    &&& g.states.len() == table.len()
    &&& g.properties == determinized_properties()
    &&& forall|i: int| 0 <= i < table.len() ==> is_subset_of(#[trigger] table[i], f)
    &&& forall|i: int, j: int|
        0 <= i < j < table.len() ==> #[trigger] table[i] != #[trigger] table[j]
    &&& match f.start {
        None => table.len() == 0 && g.start is None,
        Some(s) => table.len() >= 1 && g.start == Some(0usize) && table[0] == start_subset::<W>(s),
    }
    &&& forall|i: int|
        0 <= i < table.len() ==> (#[trigger] g.states[i]).final_weight == FstView::<W>::kept_final(
            subset_final(f, table[i]),
        ) && is_expansion::<W, CD>(f, table[i], g.states[i].trs, table, delta)
}

/// Whether every state of `g` but the first is the target of a transition
/// of a state before it: the states are numbered as they are met.
pub open spec fn is_numbered_as_met<W: Semiring>(g: FstView<W>) -> bool {
    forall|i: int| 1 <= i < g.states.len() ==> #[trigger] is_met_from_before(g, i)
}

/// Whether state `i` is the target of a transition of a state before it.
pub open spec fn is_met_from_before<W: Semiring>(g: FstView<W>, i: int) -> bool {
    exists|j: int| 0 <= j < i && #[trigger] leads_to(g.states[j].trs, i)
}

/// Whether state `i` is the target of a transition of one of the first `id`
/// states that is before it.
pub open spec fn is_met_by<W: Semiring>(all_trs: Seq<Vec<Tr<W>>>, id: int, i: int) -> bool {
    exists|j: int| 0 <= j < i && j < id && #[trigger] leads_to(all_trs[j]@, i)
}

/// An expansion stays one when further subsets get numbers.
pub proof fn lemma_expansion_stable<W: WeaklyDivisibleSemiring + WeightQuantize, CD: CommonDivisor<W>>(
    f: FstView<W>,
    subset: SubsetView<W>,
    trs: Seq<Tr<W>>,
    table: Seq<SubsetView<W>>,
    longer: Seq<SubsetView<W>>,
    delta: u64,
)
    requires
        is_expansion::<W, CD>(f, subset, trs, table, delta),
        is_prefix_of(table, longer),
    ensures
        is_expansion::<W, CD>(f, subset, trs, longer, delta),
{
    assert forall|k: int| 0 <= k < trs.len() implies is_group_tr::<W, CD>(
        f,
        subset,
        #[trigger] trs[k],
        longer,
        delta,
    ) by {
        assert(is_group_tr::<W, CD>(f, subset, trs[k], table, delta));
        assert(longer[trs[k].nextstate as int] == table[trs[k].nextstate as int]);
    }
}

/// A determinized acceptor is deterministic, and well formed.
pub proof fn lemma_determinization_wf<W: WeaklyDivisibleSemiring + WeightQuantize, CD: CommonDivisor<W>>(
    f: FstView<W>,
    g: FstView<W>,
    table: Seq<SubsetView<W>>,
    delta: u64,
)
    requires
        is_determinization::<W, CD>(f, g, table, delta),
    ensures
        g.graph_wf(),
        g.i_deterministic(),
        g.properties_hold(determinized_properties()),
        g.wf(),
{
    assert forall|s: int, i: int| #[trigger] g.has_tr(s, i) implies g.tr(s, i).nextstate
        < g.states.len() && g.tr(s, i).olabel == g.tr(s, i).ilabel by {
        assert(is_group_tr::<W, CD>(f, table[s], g.states[s].trs[i], table, delta));
    }
    assert forall|s: int| #[trigger] g.has_state(s) implies g.states[s].final_weight != Some(
        W::zero_spec(),
    ) by {}
    assert forall|s: int, i: int, j: int|
        #![trigger g.tr(s, i), g.tr(s, j)]
        g.has_tr(s, i) && g.has_tr(s, j) && i < j implies g.tr(s, i).ilabel < g.tr(s, j).ilabel by {
        assert(g.states[s].trs[i].ilabel < g.states[s].trs[j].ilabel);
    }
    assert(g.i_deterministic()) by {
        assert forall|s: int, i: int, j: int|
            #![trigger g.tr(s, i), g.tr(s, j)]
            g.has_tr(s, i) && g.has_tr(s, j) && i != j implies g.tr(s, i).ilabel != g.tr(
                s,
                j,
            ).ilabel by {
            if i < j {
                assert(g.tr(s, i).ilabel < g.tr(s, j).ilabel);
            } else {
                assert(g.tr(s, j).ilabel < g.tr(s, i).ilabel);
            }
        }
    }
    assert(g.o_deterministic()) by {
        assert forall|s: int, i: int, j: int|
            #![trigger g.tr(s, i), g.tr(s, j)]
            g.has_tr(s, i) && g.has_tr(s, j) && i != j implies g.tr(s, i).olabel != g.tr(
                s,
                j,
            ).olabel by {
            assert(g.tr(s, i).ilabel != g.tr(s, j).ilabel);
        }
    }
    assert(g.i_label_sorted());
    assert(g.o_label_sorted()) by {
        assert forall|s: int, i: int, j: int|
            #![trigger g.tr(s, i), g.tr(s, j)]
            g.has_tr(s, i) && g.has_tr(s, j) && i < j implies g.tr(s, i).olabel <= g.tr(
                s,
                j,
            ).olabel by {
            assert(g.tr(s, i).ilabel < g.tr(s, j).ilabel);
        }
    }
    assert(g.every_tr_meets(ACCEPTOR_BIT)) by {
        assert forall|s: int, i: int| #[trigger] g.has_tr(s, i) implies tr_meets(
            ACCEPTOR_BIT,
            s,
            g.tr(s, i),
        ) by {}
    }
    assert forall|k: u64| determinized_properties().contains(k) implies #[trigger] g.property_fact(
        k,
    ) by {}
}

/// Whether the transitions of `subset` cannot be had for the error `e`
/// when the subsets of `table` have their numbers: a weight of the subset
/// cannot be divided by the common divisor of its group, or as many subsets
/// are numbered as may be and a transition of the subset leads to one more.
pub open spec fn is_expansion_failure<
    W: WeaklyDivisibleSemiring + WeightQuantize,
    CD: CommonDivisor<W>,
>(
    f: FstView<W>,
    subset: SubsetView<W>,
    table: Seq<SubsetView<W>>,
    delta: u64,
    max_states: usize,
    e: FstError,
) -> bool {
    ||| (e == FstError::UnsupportedSemiring && has_undivisible_group::<W, CD>(f, subset))
    ||| (e == FstError::NotConvergent && table.len() == max_states && leads_outside::<W, CD>(
        f,
        subset,
        table,
        delta,
    ))
}

/// Whether `e` is the error for which the determinization of `f` stopped
/// when the subsets of `table` had their numbers: a weight of one of them
/// cannot be divided by the common divisor of its group, or as many subsets
/// are numbered as may be and one more was met, which is the start subset
/// or the target of a transition of a numbered subset.
pub open spec fn is_failure_of<W: WeaklyDivisibleSemiring + WeightQuantize, CD: CommonDivisor<W>>(
    f: FstView<W>,
    table: Seq<SubsetView<W>>,
    delta: u64,
    max_states: usize,
    e: FstError,
) -> bool {
    ||| (e == FstError::UnsupportedSemiring && exists|i: int|
        0 <= i < table.len() && has_undivisible_group::<W, CD>(f, #[trigger] table[i]))
    ||| (e == FstError::NotConvergent && table.len() == max_states && ((table.len() == 0
        && f.start is Some) || exists|i: int|
        0 <= i < table.len() && leads_outside::<W, CD>(f, #[trigger] table[i], table, delta)))
}

/// Whether `table` holds the subsets that the determinization of `f` has
/// reached: the first is the start subset, each other one is the target of
/// a transition of an earlier one, no two are the same, each holds states of
/// `f`, and there are no more of them than may be.
pub open spec fn is_reached_table<W: WeaklyDivisibleSemiring + WeightQuantize, CD: CommonDivisor<W>>(
    f: FstView<W>,
    table: Seq<SubsetView<W>>,
    delta: u64,
    max_states: usize,
) -> bool {
    &&& table.len() > 0 ==> (f.start matches Some(s) && table[0] == start_subset::<W>(s))
    &&& forall|i: int, j: int|
        0 <= i < j < table.len() ==> #[trigger] table[i] != #[trigger] table[j]
    &&& forall|i: int| 0 <= i < table.len() ==> is_subset_of(#[trigger] table[i], f)
    &&& table.len() <= max_states
    &&& is_met_table::<W, CD>(f, table, delta)
}

/// Whether subset `i` is the subset that a transition of an earlier subset
/// leads to.
pub open spec fn is_met_from_earlier_subset<
    W: WeaklyDivisibleSemiring + WeightQuantize,
    CD: CommonDivisor<W>,
>(f: FstView<W>, table: Seq<SubsetView<W>>, i: int, delta: u64) -> bool {
    exists|j: int| 0 <= j < i && #[trigger] is_target_subset::<W, CD>(f, table[j], table[i], delta)
}

/// Whether each subset but the first is one that a transition of an
/// earlier subset leads to: no subset has a number that was not met.
pub open spec fn is_met_table<W: WeaklyDivisibleSemiring + WeightQuantize, CD: CommonDivisor<W>>(
    f: FstView<W>,
    table: Seq<SubsetView<W>>,
    delta: u64,
) -> bool {
    forall|i: int|
        1 <= i < table.len() ==> #[trigger] is_met_from_earlier_subset::<W, CD>(f, table, i, delta)
}

/// The subsets that were met lie in every family of subsets that holds the
/// first of them and, with a subset, each subset that its transitions lead
/// to.
pub proof fn lemma_met_table_within<W: WeaklyDivisibleSemiring + WeightQuantize, CD: CommonDivisor<W>>(
    f: FstView<W>,
    table: Seq<SubsetView<W>>,
    delta: u64,
    family: Set<SubsetView<W>>,
    i: int,
)
    requires
        is_met_table::<W, CD>(f, table, delta),
        0 <= i < table.len(),
        family.contains(table[0]),
        forall|from: SubsetView<W>, to: SubsetView<W>|
            family.contains(from) && #[trigger] is_target_subset::<W, CD>(f, from, to, delta)
                ==> family.contains(to),
    ensures
        family.contains(table[i]),
    decreases i,
{
    if i > 0 {
        assert(is_met_from_earlier_subset::<W, CD>(f, table, i, delta));
        let j = choose|j: int|
            0 <= j < i && #[trigger] is_target_subset::<W, CD>(f, table[j], table[i], delta);
        lemma_met_table_within::<W, CD>(f, table, delta, family, j);
    }
}

/// Distinct subsets that all lie in a finite family are no more than the
/// family holds.
pub proof fn lemma_table_len_within<W: Semiring>(
    table: Seq<SubsetView<W>>,
    family: Set<SubsetView<W>>,
)
    requires
        family.finite(),
        forall|i: int| 0 <= i < table.len() ==> family.contains(#[trigger] table[i]),
        forall|i: int, j: int|
            0 <= i < j < table.len() ==> #[trigger] table[i] != #[trigger] table[j],
    ensures
        table.len() <= family.len(),
{
    assert(table.no_duplicates());
    table.unique_seq_to_set();
    assert(table.to_set().subset_of(family)) by {
        assert forall|x: SubsetView<W>| table.to_set().contains(x) implies family.contains(x) by {
            let i = choose|i: int| 0 <= i < table.len() && table[i] == x;
            assert(family.contains(table[i]));
        }
    }
    vstd::set_lib::lemma_len_subset(table.to_set(), family);
}

/// When the determinization cannot fail: where a finite family of subsets
/// holds the start subset and, with a subset, each subset that its
/// transitions lead to, where the weights of each of its subsets can be
/// divided by the common divisor of their group, and where it holds fewer
/// subsets than may get a number, no table of subsets that were reached is
/// one at which the work stops for an error.
pub proof fn lemma_no_failure_within<W: WeaklyDivisibleSemiring + WeightQuantize, CD: CommonDivisor<W>>(
    f: FstView<W>,
    table: Seq<SubsetView<W>>,
    delta: u64,
    max_states: usize,
    family: Set<SubsetView<W>>,
    e: FstError,
)
    requires
        is_reached_table::<W, CD>(f, table, delta, max_states),
        f.start matches Some(s) ==> family.contains(start_subset::<W>(s)),
        family.finite(),
        family.len() < max_states,
        forall|from: SubsetView<W>, to: SubsetView<W>|
            family.contains(from) && #[trigger] is_target_subset::<W, CD>(f, from, to, delta)
                ==> family.contains(to),
        forall|subset: SubsetView<W>|
            family.contains(subset) ==> !#[trigger] has_undivisible_group::<W, CD>(f, subset),
    ensures
        !is_failure_of::<W, CD>(f, table, delta, max_states, e),
{
    assert forall|i: int| 0 <= i < table.len() implies family.contains(#[trigger] table[i]) by {
        lemma_met_table_within::<W, CD>(f, table, delta, family, i);
    }
    lemma_table_len_within(table, family);
}

/// The determinized form of an acceptor. It is computed state by state: a
/// state gets its number when it is met, and its transitions and final
/// weight are computed when they are first asked for, and then remembered.
pub struct DeterminizeFsa<
    W: WeaklyDivisibleSemiring + WeightQuantize,
    F: Fst<W>,
    CD: CommonDivisor<W>,
> {
    op: DeterminizeFsaOp<W, F, CD>,
    cache: SimpleVecCache<W>,
    isymt: Option<Arc<SymbolTable>>,
    osymt: Option<Arc<SymbolTable>>,
}

impl<
    W: WeaklyDivisibleSemiring + WeightQuantize,
    F: Fst<W>,
    CD: CommonDivisor<W>,
> DeterminizeFsa<W, F, CD> {
    /// The acceptor that is determinized.
    pub closed spec fn input(&self) -> FstView<W> {
        self.op.input()
    }

    /// The subsets that have a number, each at its number.
    pub closed spec fn table_view(&self) -> Seq<SubsetView<W>> {
        self.op.table_view()
    }

    /// The symbols of the table that names the input labels, if one is
    /// attached.
    pub closed spec fn isymt_view(&self) -> Option<Seq<Seq<char>>> {
        symbols_of(self.isymt)
    }

    /// The symbols of the table that names the output labels, if one is
    /// attached.
    pub closed spec fn osymt_view(&self) -> Option<Seq<Seq<char>>> {
        symbols_of(self.osymt)
    }

    /// The distances that were given for the states of the input.
    pub closed spec fn in_dist_view(&self) -> Option<Seq<W>> {
        self.op.in_dist_view()
    }

    /// The width of the bins for residual weights.
    pub closed spec fn delta_spec(&self) -> u64 {
        self.op.delta_spec()
    }

    /// The number of subsets that may get a number.
    pub closed spec fn max_states_spec(&self) -> usize {
        self.op.max_states_spec()
    }

    /// The start state, if it was asked for.
    pub closed spec fn cached_start(&self) -> CacheStatus<Option<StateId>> {
        self.cache.start_view()
    }

    /// The transitions that were computed, by state.
    pub closed spec fn cached_trs(&self) -> Map<int, Seq<Tr<W>>> {
        self.cache.trs_view()
    }

    /// The final weights that were computed, by state.
    pub closed spec fn cached_final_weights(&self) -> Map<int, Option<W>> {
        self.cache.final_weights_view()
    }

    /// Whether the operation behind the acceptor is in order.
    pub closed spec fn op_inv(&self) -> bool {
        self.op.inv()
    }

    /// The start state of the determinized acceptor: the first-numbered
    /// subset, where the input has a start state.
    pub open spec fn start_spec(&self) -> Option<StateId> {
        match self.input().start {
            Some(_) => Some(0usize),
            None => None,
        }
    }

    /// What holds of the acceptor at all times: the first-numbered subset is
    /// the start subset, and what was remembered is what the subsets say.
    pub open spec fn inv(&self) -> bool {
        &&& self.op_inv()
        &&& self.input().wf()
        &&& self.table_view().len() <= self.max_states_spec()
        &&& forall|i: int|
            0 <= i < self.table_view().len() ==> is_subset_of(
                #[trigger] self.table_view()[i],
                self.input(),
            )
        &&& forall|i: int, j: int|
            0 <= i < j < self.table_view().len() ==> #[trigger] self.table_view()[i]
                != #[trigger] self.table_view()[j]
        &&& self.table_view().len() > 0 ==> (self.input().start matches Some(s)
            && self.table_view()[0] == start_subset::<W>(s))
        &&& is_met_table::<W, CD>(self.input(), self.table_view(), self.delta_spec())
        &&& self.cached_start() matches CacheStatus::Computed(x) ==> x == self.start_spec() && (x
            is Some ==> self.table_view().len() > 0)
        &&& forall|id: int| #[trigger]
            self.cached_trs().contains_key(id) ==> 0 <= id < self.table_view().len()
                && is_expansion::<W, CD>(
                self.input(),
                self.table_view()[id],
                self.cached_trs()[id],
                self.table_view(),
                self.delta_spec(),
            )
        &&& forall|id: int| #[trigger]
            self.cached_final_weights().contains_key(id) ==> 0 <= id < self.table_view().len()
                && self.cached_final_weights()[id] == FstView::<W>::kept_final(
                subset_final(self.input(), self.table_view()[id]),
            )
    }

    /// Whether the two acceptors are at the same point of the same work: they
    /// determinize the same input with the same settings, have met the same
    /// subsets and remember the same.
    pub open spec fn same_work(&self, other: &Self) -> bool {
        &&& self.input() == other.input()
        &&& self.in_dist_view() == other.in_dist_view()
        &&& self.delta_spec() == other.delta_spec()
        &&& self.max_states_spec() == other.max_states_spec()
        &&& self.table_view() == other.table_view()
        &&& self.cached_start() == other.cached_start()
        &&& self.cached_trs() == other.cached_trs()
        &&& self.cached_final_weights() == other.cached_final_weights()
    }

    /// Whether the acceptor is computed in full: the start subset has its
    /// number, where there is one, and every numbered subset has its
    /// transitions remembered, so that no further subset can be met.
    pub open spec fn is_computed(&self) -> bool {
        &&& self.input().start is Some ==> self.table_view().len() > 0
        &&& forall|i: int|
            0 <= i < self.table_view().len() ==> #[trigger] self.cached_trs().contains_key(i)
    }

    /// Whether the two acceptors determinize the same input with the same
    /// settings, the second having met the states of the first and maybe
    /// more.
    pub open spec fn extends(&self, earlier: &Self) -> bool {
        &&& self.input() == earlier.input()
        &&& self.in_dist_view() == earlier.in_dist_view()
        &&& self.delta_spec() == earlier.delta_spec()
        &&& self.max_states_spec() == earlier.max_states_spec()
        &&& self.isymt_view() == earlier.isymt_view()
        &&& self.osymt_view() == earlier.osymt_view()
        &&& is_prefix_of(earlier.table_view(), self.table_view())
    }

    /// The determinized form of `fst`, of which nothing is computed yet.
    /// Where distances are given for the states of `fst`, the distances of
    /// the states of the result can be had from `out_dist`. A transducer
    /// that is no acceptor is refused, and so are distances that are not one
    /// for each state.
    pub fn new(fst: F, in_dist: Option<Vec<W>>) -> (r: Result<Self, FstError>)
        requires
            fst@.wf(),
        ensures
            match r {
                Ok(d) => d.inv() && d.input() == fst@ && d.table_view().len() == 0
                    && d.in_dist_view() == (match in_dist {
                    Some(dist) => Some(dist@),
                    None => None,
                }) && d.max_states_spec() == usize::MAX && d.delta_spec()
                    == crate::algorithms::determinize::determinize_fsa_op::DEFAULT_DELTA
                    && fst@.every_tr_meets(ACCEPTOR_BIT) && d.isymt_view() == fst@.isymt
                    && d.osymt_view() == fst@.osymt,
                Err(e) => if !fst@.every_tr_meets(ACCEPTOR_BIT) {
                    e == FstError::PropertyViolation
                } else {
                    e == FstError::InvalidInput && (in_dist matches Some(dist) && dist@.len()
                        != fst@.states.len())
                },
            },
    {
        let isymt = match fst.input_symbols() {
            Some(symt) => Some(share_symbol_table(symt)),
            None => None,
        };
        let osymt = match fst.output_symbols() {
            Some(symt) => Some(share_symbol_table(symt)),
            None => None,
        };
        let fst_op = match DeterminizeFsaOp::new(fst, in_dist) {
            Ok(op) => op,
            Err(e) => {
                return Err(e);
            },
        };
        let fst_cache = SimpleVecCache::new();
        Ok(DeterminizeFsa { op: fst_op, cache: fst_cache, isymt, osymt })
    }

    /// Sets the number of states that may be met. With fewer the work ends
    /// earlier where the construction does not come to an end.
    pub fn set_max_states(&mut self, max_states: usize)
        requires
            old(self).inv(),
            old(self).table_view().len() == 0,
        ensures
            final(self).inv(),
            final(self).isymt_view() == old(self).isymt_view(),
            final(self).osymt_view() == old(self).osymt_view(),
            final(self).input() == old(self).input(),
            final(self).in_dist_view() == old(self).in_dist_view(),
            final(self).delta_spec() == old(self).delta_spec(),
            final(self).table_view().len() == 0,
            final(self).max_states_spec() == max_states,
    {
        self.op.set_max_states(max_states);
        assert(self.cached_trs() == old(self).cached_trs());
        assert(self.cached_final_weights() == old(self).cached_final_weights());
        assert(self.cached_start() == old(self).cached_start());
        assert forall|id: int| !#[trigger] self.cached_trs().contains_key(id) by {
            if old(self).cached_trs().contains_key(id) {
                assert(0 <= id < old(self).table_view().len());
            }
        }
        assert forall|id: int| !#[trigger] self.cached_final_weights().contains_key(id) by {
            if old(self).cached_final_weights().contains_key(id) {
                assert(0 <= id < old(self).table_view().len());
            }
        }
    }

    /// Sets the width of the bins into which residual weights are put.
    pub fn set_delta(&mut self, delta: u64)
        requires
            old(self).inv(),
            old(self).table_view().len() == 0,
            old(self).cached_trs() == Map::<int, Seq<Tr<W>>>::empty(),
        ensures
            final(self).inv(),
            final(self).isymt_view() == old(self).isymt_view(),
            final(self).osymt_view() == old(self).osymt_view(),
            final(self).input() == old(self).input(),
            final(self).in_dist_view() == old(self).in_dist_view(),
            final(self).max_states_spec() == old(self).max_states_spec(),
            final(self).table_view().len() == 0,
            final(self).delta_spec() == delta,
    {
        self.op.set_delta(delta);
    }

    /// The number of states that were met.
    pub fn num_known_states(&self) -> (n: usize)
        ensures
            n == self.table_view().len(),
    {
        self.op.num_states()
    }

    /// The start state.
    pub fn start(&mut self) -> (r: Result<Option<StateId>, FstError>)
        requires
            old(self).inv(),
        ensures
            final(self).inv(),
            final(self).extends(old(self)),
            match r {
                Ok(x) => x == old(self).start_spec() && (x is Some ==> final(self).table_view().len()
                    > 0) && final(self).table_view().len() <= old(self).table_view().len() + 1
                    && (old(self).table_view().len() > 0 || x is None ==> final(self).table_view()
                    == old(self).table_view()) && final(self).cached_trs() == old(
                    self,
                ).cached_trs(),
                Err(e) => e == FstError::NotConvergent && old(self).max_states_spec() == 0 && old(
                    self,
                ).input().start is Some && old(self).table_view().len() == 0,
            },
    {
        match self.cache.get_start() {
            CacheStatus::Computed(x) => Ok(x),
            CacheStatus::NotComputed => {
                match self.op.compute_start() {
                    Err(e) => {
                        proof {
                            self.lemma_inv_kept(old(self));
                        }
                        Err(e)
                    },
                    Ok(x) => {
                        let ghost before = *self;
                        proof {
                            if x is Some && old(self).table_view().len() > 0 {
                                let id = x->0 as int;
                                if id != 0 {
                                    assert(self.table_view()[0] == old(self).table_view()[0]);
                                    assert(self.table_view()[0] != self.table_view()[id]);
                                }
                            }
                            before.lemma_inv_kept(old(self));
                        }
                        self.cache.insert_start(x);
                        proof {
                            self.lemma_inv_kept(&before);
                        }
                        Ok(x)
                    },
                }
            },
        }
    }

    /// What was remembered stays right when further subsets get numbers
    /// and further results are remembered.
    proof fn lemma_inv_kept(&self, earlier: &Self)
        requires
            earlier.inv(),
            self.op_inv(),
            self.extends(earlier),
            self.table_view().len() > 0 ==> (self.input().start matches Some(s)
                && self.table_view()[0] == start_subset::<W>(s)),
            forall|i: int|
                1 <= i && earlier.table_view().len() <= i < self.table_view().len()
                    ==> #[trigger] is_met_from_earlier_subset::<W, CD>(
                    self.input(),
                    self.table_view(),
                    i,
                    self.delta_spec(),
                ),
            self.cached_start() == earlier.cached_start() || (self.cached_start() matches CacheStatus::Computed(
                x,
            ) && x == self.start_spec() && (x is Some ==> self.table_view().len() > 0)),
            forall|id: int| #[trigger]
                self.cached_trs().contains_key(id) ==> (earlier.cached_trs().contains_key(id)
                    && self.cached_trs()[id] == earlier.cached_trs()[id]) || (0 <= id
                    < self.table_view().len() && is_expansion::<W, CD>(
                    self.input(),
                    self.table_view()[id],
                    self.cached_trs()[id],
                    self.table_view(),
                    self.delta_spec(),
                )),
            forall|id: int| #[trigger]
                self.cached_final_weights().contains_key(id) ==> (
                earlier.cached_final_weights().contains_key(id) && self.cached_final_weights()[id]
                    == earlier.cached_final_weights()[id]) || (0 <= id < self.table_view().len()
                    && self.cached_final_weights()[id] == FstView::<W>::kept_final(
                    subset_final(self.input(), self.table_view()[id]),
                )),
        ensures
            self.inv(),
    {
        assert forall|i: int| 1 <= i < self.table_view().len() implies #[trigger] is_met_from_earlier_subset::<
            W,
            CD,
        >(self.input(), self.table_view(), i, self.delta_spec()) by {
            if i < earlier.table_view().len() {
                assert(is_met_from_earlier_subset::<W, CD>(
                    earlier.input(),
                    earlier.table_view(),
                    i,
                    earlier.delta_spec(),
                ));
                let j = choose|j: int|
                    0 <= j < i && #[trigger] is_target_subset::<W, CD>(
                        earlier.input(),
                        earlier.table_view()[j],
                        earlier.table_view()[i],
                        earlier.delta_spec(),
                    );
                assert(self.table_view()[j] == earlier.table_view()[j]);
                assert(self.table_view()[i] == earlier.table_view()[i]);
                assert(is_target_subset::<W, CD>(
                    self.input(),
                    self.table_view()[j],
                    self.table_view()[i],
                    self.delta_spec(),
                ));
            }
        }
        assert forall|id: int| #[trigger] self.cached_trs().contains_key(id) implies 0 <= id
            < self.table_view().len() && is_expansion::<W, CD>(
            self.input(),
            self.table_view()[id],
            self.cached_trs()[id],
            self.table_view(),
            self.delta_spec(),
        ) by {
            if earlier.cached_trs().contains_key(id) && self.cached_trs()[id]
                == earlier.cached_trs()[id] {
                assert(self.table_view()[id] == earlier.table_view()[id]);
                lemma_expansion_stable::<W, CD>(
                    self.input(),
                    earlier.table_view()[id],
                    earlier.cached_trs()[id],
                    earlier.table_view(),
                    self.table_view(),
                    self.delta_spec(),
                );
            }
        }
        assert forall|id: int| #[trigger] self.cached_final_weights().contains_key(id) implies 0
            <= id < self.table_view().len() && self.cached_final_weights()[id]
            == FstView::<W>::kept_final(subset_final(self.input(), self.table_view()[id])) by {
            if earlier.cached_final_weights().contains_key(id) && self.cached_final_weights()[id]
                == earlier.cached_final_weights()[id] {
                assert(self.table_view()[id] == earlier.table_view()[id]);
            }
        }
        assert forall|i: int| 0 <= i < self.table_view().len() implies is_subset_of(
            #[trigger] self.table_view()[i],
            self.input(),
        ) by {}
        assert forall|i: int, j: int| 0 <= i < j < self.table_view().len() implies #[trigger] self.table_view()[i]
            != #[trigger] self.table_view()[j] by {}
        if self.cached_start() == earlier.cached_start() {
            if self.cached_start() is Computed {
                assert(earlier.table_view().len() <= self.table_view().len());
            }
        }
    }

    /// The final weight of a state that was met.
    pub fn final_weight(&mut self, state_id: StateId) -> (r: Result<Option<W>, FstError>)
        requires
            old(self).inv(),
        ensures
            final(self).inv(),
            final(self).extends(old(self)),
            final(self).table_view() == old(self).table_view(),
            final(self).cached_trs() == old(self).cached_trs(),
            r == if state_id < old(self).table_view().len() {
                Ok::<Option<W>, FstError>(
                    FstView::<W>::kept_final(
                        subset_final(old(self).input(), old(self).table_view()[state_id as int]),
                    ),
                )
            } else {
                Err::<Option<W>, FstError>(FstError::StateNotFound(state_id))
            },
    {
        if state_id >= self.op.num_states() {
            return Err(FstError::StateNotFound(state_id));
        }
        match self.cache.get_final_weight(state_id) {
            CacheStatus::Computed(w) => Ok(w),
            CacheStatus::NotComputed => {
                let w = self.op.compute_final_weight(state_id);
                self.cache.insert_final_weight(state_id, w);
                proof {
                    self.lemma_inv_kept(old(self));
                }
                Ok(w)
            },
        }
    }

    /// The transitions that leave a state that was met. The states they lead
    /// to are met, if they were not before. The transitions are remembered:
    /// asked again, the state has the same transitions, and no new state is
    /// met.
    pub fn get_trs(&mut self, state_id: StateId) -> (r: Result<Vec<Tr<W>>, FstError>)
        requires
            old(self).inv(),
        ensures
            final(self).inv(),
            final(self).extends(old(self)),
            match r {
                Ok(trs) => state_id < old(self).table_view().len() && is_expansion::<W, CD>(
                    old(self).input(),
                    old(self).table_view()[state_id as int],
                    trs@,
                    final(self).table_view(),
                    old(self).delta_spec(),
                ) && final(self).cached_trs() == old(self).cached_trs().insert(
                    state_id as int,
                    trs@,
                ) && (forall|i: int|
                    old(self).table_view().len() <= i < final(self).table_view().len()
                        ==> #[trigger] leads_to(trs@, i)) && (old(self).cached_trs().contains_key(
                    state_id as int,
                ) ==> final(self).table_view() == old(self).table_view() && trs@ == old(
                    self,
                ).cached_trs()[state_id as int]),
                Err(e) => !old(self).cached_trs().contains_key(state_id as int) && (if state_id
                    >= old(self).table_view().len() {
                    e == FstError::StateNotFound(state_id)
                } else {
                    is_expansion_failure::<W, CD>(
                        old(self).input(),
                        old(self).table_view()[state_id as int],
                        final(self).table_view(),
                        old(self).delta_spec(),
                        old(self).max_states_spec(),
                        e,
                    )
                }),
            },
    {
        if state_id >= self.op.num_states() {
            return Err(FstError::StateNotFound(state_id));
        }
        match self.cache.get_trs(state_id) {
            CacheStatus::Computed(trs) => {
                proof {
                    assert(self.cached_trs() =~= old(self).cached_trs().insert(
                        state_id as int,
                        trs@,
                    ));
                }
                Ok(trs)
            },
            CacheStatus::NotComputed => {
                match self.op.compute_trs(state_id) {
                    Err(e) => {
                        proof {
                            assert forall|i: int|
                                1 <= i && old(self).table_view().len() <= i
                                    < self.table_view().len() implies #[trigger] is_met_from_earlier_subset::<
                                W,
                                CD,
                            >(self.input(), self.table_view(), i, self.delta_spec()) by {
                                assert(self.table_view()[state_id as int] == old(
                                    self,
                                ).table_view()[state_id as int]);
                                assert(is_target_subset::<W, CD>(
                                    self.input(),
                                    self.table_view()[state_id as int],
                                    self.table_view()[i],
                                    self.delta_spec(),
                                ));
                            }
                            self.lemma_inv_kept(old(self));
                        }
                        Err(e)
                    },
                    Ok(trs) => {
                        let copy = copy_trs(&trs);
                        self.cache.insert_trs(state_id, copy);
                        proof {
                            assert forall|i: int|
                                1 <= i && old(self).table_view().len() <= i
                                    < self.table_view().len() implies #[trigger] is_met_from_earlier_subset::<
                                W,
                                CD,
                            >(self.input(), self.table_view(), i, self.delta_spec()) by {
                                assert(self.table_view()[state_id as int] == old(
                                    self,
                                ).table_view()[state_id as int]);
                                assert(is_target_subset::<W, CD>(
                                    self.input(),
                                    self.table_view()[state_id as int],
                                    self.table_view()[i],
                                    self.delta_spec(),
                                ));
                            }
                            self.lemma_inv_kept(old(self));
                        }
                        Ok(trs)
                    },
                }
            },
        }
    }

    /// The number of transitions that leave a state that was met. The
    /// transitions are computed, if they were not before, and remembered.
    pub fn num_trs(&mut self, s: StateId) -> (r: Result<usize, FstError>)
        requires
            old(self).inv(),
        ensures
            final(self).inv(),
            final(self).extends(old(self)),
            match r {
                Ok(n) => s < old(self).table_view().len() && final(self).cached_trs().contains_key(
                    s as int,
                ) && n == final(self).cached_trs()[s as int].len() && is_expansion::<W, CD>(
                    old(self).input(),
                    old(self).table_view()[s as int],
                    final(self).cached_trs()[s as int],
                    final(self).table_view(),
                    old(self).delta_spec(),
                ),
                Err(e) => if s >= old(self).table_view().len() {
                    e == FstError::StateNotFound(s)
                } else {
                    is_expansion_failure::<W, CD>(
                        old(self).input(),
                        old(self).table_view()[s as int],
                        final(self).table_view(),
                        old(self).delta_spec(),
                        old(self).max_states_spec(),
                        e,
                    )
                },
            },
    {
        match self.get_trs(s) {
            Ok(trs) => Ok(trs.len()),
            Err(e) => Err(e),
        }
    }

    /// The final weight of a state that was met.
    pub fn final_weight_unchecked(&mut self, state_id: StateId) -> (r: Option<W>)
        requires
            old(self).inv(),
            state_id < old(self).table_view().len(),
        ensures
            final(self).inv(),
            final(self).extends(old(self)),
            final(self).table_view() == old(self).table_view(),
            final(self).cached_trs() == old(self).cached_trs(),
            r == FstView::<W>::kept_final(
                subset_final(old(self).input(), old(self).table_view()[state_id as int]),
            ),
    {
        match self.final_weight(state_id) {
            Ok(w) => w,
            Err(_) => None,
        }
    }

    /// The transitions that leave a state that was met, computed if they
    /// were not before. They cannot be had where a weight cannot be divided
    /// by the common divisor of its group, or where the allowed number of
    /// states is used up.
    pub fn get_trs_unchecked(&mut self, state_id: StateId) -> (r: Result<Vec<Tr<W>>, FstError>)
        requires
            old(self).inv(),
            state_id < old(self).table_view().len(),
        ensures
            final(self).inv(),
            final(self).extends(old(self)),
            match r {
                Ok(trs) => is_expansion::<W, CD>(
                    old(self).input(),
                    old(self).table_view()[state_id as int],
                    trs@,
                    final(self).table_view(),
                    old(self).delta_spec(),
                ) && final(self).cached_trs() == old(self).cached_trs().insert(
                    state_id as int,
                    trs@,
                ) && (old(self).cached_trs().contains_key(state_id as int) ==> final(self).table_view() == old(self).table_view() && trs@ == old(
                    self,
                ).cached_trs()[state_id as int]),
                Err(e) => is_expansion_failure::<W, CD>(
                    old(self).input(),
                    old(self).table_view()[state_id as int],
                    final(self).table_view(),
                    old(self).delta_spec(),
                    old(self).max_states_spec(),
                    e,
                ),
            },
    {
        self.get_trs(state_id)
    }

    /// The number of transitions that leave a state that was met.
    pub fn num_trs_unchecked(&mut self, s: StateId) -> (r: Result<usize, FstError>)
        requires
            old(self).inv(),
            s < old(self).table_view().len(),
        ensures
            final(self).inv(),
            final(self).extends(old(self)),
            match r {
                Ok(n) => final(self).cached_trs().contains_key(s as int) && n == final(self).cached_trs()[s as int].len() && is_expansion::<W, CD>(
                    old(self).input(),
                    old(self).table_view()[s as int],
                    final(self).cached_trs()[s as int],
                    final(self).table_view(),
                    old(self).delta_spec(),
                ),
                Err(e) => is_expansion_failure::<W, CD>(
                    old(self).input(),
                    old(self).table_view()[s as int],
                    final(self).table_view(),
                    old(self).delta_spec(),
                    old(self).max_states_spec(),
                    e,
                ),
            },
    {
        self.num_trs(s)
    }

    /// The number of transitions of a state that was met that read ε.
    pub fn num_input_epsilons(&mut self, state: StateId) -> (r: Result<usize, FstError>)
        requires
            old(self).inv(),
        ensures
            final(self).inv(),
            final(self).extends(old(self)),
            match r {
                Ok(n) => state < old(self).table_view().len() && final(self).cached_trs().contains_key(state as int) && n == count_input_epsilons(
                    final(self).cached_trs()[state as int],
                ),
                Err(e) => state >= old(self).table_view().len() ==> e == FstError::StateNotFound(
                    state,
                ),
            },
    {
        match self.get_trs(state) {
            Ok(trs) => Ok(count_labels(trs.as_slice(), true)),
            Err(e) => Err(e),
        }
    }

    /// The number of transitions of a state that was met that write ε.
    pub fn num_output_epsilons(&mut self, state: StateId) -> (r: Result<usize, FstError>)
        requires
            old(self).inv(),
        ensures
            final(self).inv(),
            final(self).extends(old(self)),
            match r {
                Ok(n) => state < old(self).table_view().len() && final(self).cached_trs().contains_key(state as int) && n == count_output_epsilons(
                    final(self).cached_trs()[state as int],
                ),
                Err(e) => state >= old(self).table_view().len() ==> e == FstError::StateNotFound(
                    state,
                ),
            },
    {
        match self.get_trs(state) {
            Ok(trs) => Ok(count_labels(trs.as_slice(), false)),
            Err(e) => Err(e),
        }
    }

    /// The states that were met, in the order of their numbers.
    pub fn states_iter(&self) -> (states: Vec<StateId>)
        ensures
            states@ == Seq::new(self.table_view().len(), |i: int| i as usize),
    {
        let n = self.op.num_states();
        let mut states: Vec<StateId> = Vec::new();
        let mut i: usize = 0;
        while i < n
            invariant
                i <= n,
                states@ =~= Seq::new(i as nat, |j: int| j as usize),
            decreases n - i,
        {
            states.push(i);
            i += 1;
        }
        states
    }

    /// What is known of the determinized acceptor.
    pub fn properties(&self) -> (p: FstProperties)
        ensures
            p@ == determinized_properties(),
    {
        determinized_fst_properties()
    }

    /// The table that names the input labels, if one is attached. At first
    /// it is that of the input.
    pub fn input_symbols(&self) -> (r: Option<&Arc<SymbolTable>>)
        ensures
            match r {
                Some(t) => self.isymt_view() == Some(t@),
                None => self.isymt_view() is None,
            },
    {
        self.isymt.as_ref()
    }

    /// The table that names the output labels, if one is attached. At first
    /// it is that of the input.
    pub fn output_symbols(&self) -> (r: Option<&Arc<SymbolTable>>)
        ensures
            match r {
                Some(t) => self.osymt_view() == Some(t@),
                None => self.osymt_view() is None,
            },
    {
        self.osymt.as_ref()
    }

    /// Attaches a table that names the input labels. What was computed
    /// stays as it is.
    pub fn set_input_symbols(&mut self, symt: Arc<SymbolTable>)
        ensures
            final(self).isymt_view() == Some(symt@),
            final(self).same_work(old(self)),
            old(self).inv() ==> final(self).inv(),
            final(self).osymt_view() == old(self).osymt_view(),
    {
        self.isymt = Some(symt);
    }

    /// Attaches a table that names the output labels. What was computed
    /// stays as it is.
    pub fn set_output_symbols(&mut self, symt: Arc<SymbolTable>)
        ensures
            final(self).osymt_view() == Some(symt@),
            final(self).same_work(old(self)),
            old(self).inv() ==> final(self).inv(),
            final(self).isymt_view() == old(self).isymt_view(),
    {
        self.osymt = Some(symt);
    }

    /// Detaches the table of the input labels and returns it.
    pub fn take_input_symbols(&mut self) -> (r: Option<Arc<SymbolTable>>)
        ensures
            final(self).isymt_view() is None,
            symbols_of(r) == old(self).isymt_view(),
            final(self).same_work(old(self)),
            old(self).inv() ==> final(self).inv(),
            final(self).osymt_view() == old(self).osymt_view(),
    {
        self.isymt.take()
    }

    /// Detaches the table of the output labels and returns it.
    pub fn take_output_symbols(&mut self) -> (r: Option<Arc<SymbolTable>>)
        ensures
            final(self).osymt_view() is None,
            symbols_of(r) == old(self).osymt_view(),
            final(self).same_work(old(self)),
            old(self).inv() ==> final(self).inv(),
            final(self).isymt_view() == old(self).isymt_view(),
    {
        self.osymt.take()
    }

    /// Turns the lazy acceptor into one that is computed in full: a copy in
    /// which every state that can be met has its transitions and its final
    /// weight. The states keep the numbers under which they were met.
    ///
    /// The work ends when no further state is met or when the allowed number
    /// of states is used up. It is then refused as not convergent, as it is
    /// refused as unsupported where a weight cannot be divided by the common
    /// divisor of its group.
    pub fn compute<F2: MutableFst<W>>(&mut self) -> (r: Result<F2, FstError>)
        requires
            old(self).inv(),
        ensures
            final(self).inv(),
            final(self).extends(old(self)),
            match r {
                Ok(g) => is_determinization::<W, CD>(
                    old(self).input(),
                    g@,
                    final(self).table_view(),
                    old(self).delta_spec(),
                ) && g@.wf() && g@.i_deterministic() && (old(self).table_view().len() == 0
                    ==> is_numbered_as_met(g@)) && g@.isymt == old(self).isymt_view() && g@.osymt
                    == old(self).osymt_view() && final(self).is_computed() && (forall|i: int|
                    0 <= i < final(self).table_view().len() ==> (#[trigger] g@.states[i]).trs
                        == final(self).cached_trs()[i]),
                Err(e) => !old(self).is_computed() && is_failure_of::<W, CD>(
                    old(self).input(),
                    final(self).table_view(),
                    old(self).delta_spec(),
                    old(self).max_states_spec(),
                    e,
                ),
            },
            old(self).is_computed() ==> final(self).table_view() == old(self).table_view()
                && final(self).cached_trs() == old(self).cached_trs(),
            is_reached_table::<W, CD>(
                old(self).input(),
                final(self).table_view(),
                old(self).delta_spec(),
                old(self).max_states_spec(),
            ),
    {
        let ghost f = self.input();
        let ghost delta = self.delta_spec();
        let ghost fresh = self.table_view().len() == 0;
        let ghost closed = self.is_computed();
        let start = match self.start() {
            Ok(start) => start,
            Err(e) => {
                return Err(e);
            },
        };
        let mut all_trs: Vec<Vec<Tr<W>>> = Vec::new();
        let mut finals: Vec<Option<W>> = Vec::new();
        let mut id: usize = 0;
        while id < self.op.num_states()
            invariant
                self.inv(),
                self.extends(old(self)),
                f == self.input(),
                delta == self.delta_spec(),
                start == self.start_spec(),
                start is Some ==> self.table_view().len() > 0,
                id <= self.table_view().len(),
                all_trs.len() == id,
                finals.len() == id,
                forall|j: int| 0 <= j < id ==> #[trigger] self.cached_trs().contains_key(j),
                forall|j: int| 0 <= j < id ==> (#[trigger] all_trs@[j])@ == self.cached_trs()[j],
                forall|j: int|
                    0 <= j < id ==> #[trigger] finals@[j] == FstView::<W>::kept_final(
                        subset_final(f, self.table_view()[j]),
                    ),
                fresh ==> forall|i: int|
                    1 <= i < self.table_view().len() ==> #[trigger] is_met_by(
                        all_trs@,
                        id as int,
                        i,
                    ),
                closed == old(self).is_computed(),
                closed ==> self.table_view() == old(self).table_view() && self.cached_trs() == old(
                    self,
                ).cached_trs(),
            decreases
                    self.max_states_spec() - self.table_view().len(),
                    self.table_view().len() - id,
        {
            let ghost before = *self;
            let ghost all_before = all_trs@;
            let trs = match self.get_trs(id) {
                Ok(trs) => trs,
                Err(e) => {
                    proof {
                        if e == FstError::UnsupportedSemiring {
                            assert(self.table_view()[id as int] == before.table_view()[id as int]);
                        }
                    }
                    return Err(e);
                },
            };
            let w = match self.final_weight(id) {
                Ok(w) => w,
                Err(e) => {
                    proof {
                        assert(false);
                    }
                    return Err(e);
                },
            };
            let ghost trs_view = trs@;
            all_trs.push(trs);
            finals.push(w);
            proof {
                assert(self.cached_trs() == before.cached_trs().insert(id as int, trs_view));
                if closed {
                    assert(before.cached_trs().contains_key(id as int));
                    assert(self.cached_trs() =~= before.cached_trs());
                }
                assert forall|j: int| 0 <= j < id + 1 implies #[trigger] self.cached_trs().contains_key(
                    j,
                ) by {
                    if j < id {
                        assert(before.cached_trs().contains_key(j));
                    }
                }
                assert forall|j: int| 0 <= j < id + 1 implies (#[trigger] all_trs@[j])@
                    == self.cached_trs()[j] by {
                    if j < id {
                        assert(all_trs@[j] == all_before[j]);
                        assert(before.cached_trs().contains_key(j));
                        assert(all_before[j]@ == before.cached_trs()[j]);
                    } else {
                        assert(all_trs@[j]@ == trs_view);
                    }
                }
                assert forall|j: int| 0 <= j < id + 1 implies #[trigger] finals@[j]
                    == FstView::<W>::kept_final(subset_final(f, self.table_view()[j])) by {
                    if j < id {
                        assert(self.table_view()[j] == before.table_view()[j]);
                    }
                }
                if fresh {
                    assert forall|i: int| 1 <= i < self.table_view().len() implies #[trigger] is_met_by(
                        all_trs@,
                        id as int + 1,
                        i,
                    ) by {
                        if i < before.table_view().len() {
                            assert(is_met_by(all_before, id as int, i));
                            let j = choose|j: int|
                                0 <= j < i && j < id && #[trigger] leads_to(all_before[j]@, i);
                            assert(all_trs@[j] == all_before[j]);
                            assert(leads_to(all_trs@[j]@, i));
                        } else {
                            assert(leads_to(all_trs@[id as int]@, i));
                        }
                    }
                }
            }
            id += 1;
        }
        let n = id;
        let mut out = F2::new();
        out.add_states(n);
        let ghost table = self.table_view();
        let mut t: usize = 0;
        proof {
            assert forall|x: int| 0 <= x < n implies #[trigger] out@.states[x]
                == StateView::<W>::empty() by {}
        }
        while t < n
            invariant
                t <= n,
                n == table.len(),
                table == self.table_view(),
                self.inv(),
                f == self.input(),
                delta == self.delta_spec(),
                all_trs.len() == n,
                finals.len() == n,
                out@.wf(),
                out@.states.len() == n,
                out@.start is None,
                out@.isymt is None,
                out@.osymt is None,
                forall|j: int| 0 <= j < n ==> #[trigger] self.cached_trs().contains_key(j),
                forall|j: int| 0 <= j < n ==> (#[trigger] all_trs@[j])@ == self.cached_trs()[j],
                forall|j: int|
                    0 <= j < n ==> #[trigger] finals@[j] == FstView::<W>::kept_final(
                        subset_final(f, table[j]),
                    ),
                forall|x: int|
                    0 <= x < t ==> #[trigger] out@.states[x] == (StateView {
                        final_weight: finals@[x],
                        trs: all_trs@[x]@,
                    }),
                forall|x: int| t <= x < n ==> #[trigger] out@.states[x] == StateView::<W>::empty(),
            decreases n - t,
        {
            let trs = copy_trs(&all_trs[t]);
            let ghost before = out@;
            proof {
                assert(self.cached_trs().contains_key(t as int));
                assert forall|i: int| 0 <= i < trs@.len() implies (#[trigger] trs@[i]).nextstate
                    < out@.states.len() by {
                    assert(is_group_tr::<W, CD>(f, table[t as int], trs@[i], table, delta));
                }
            }
            out.set_trs_unchecked(t, trs);
            match finals[t] {
                Some(w) => {
                    out.set_final_unchecked(t, w);
                },
                None => {},
            }
            proof {
                assert(before.states[t as int] == StateView::<W>::empty());
                assert forall|x: int| 0 <= x < t + 1 implies #[trigger] out@.states[x]
                    == (StateView { final_weight: finals@[x], trs: all_trs@[x]@ }) by {
                    if x < t {
                        assert(before.states[x] == (StateView {
                            final_weight: finals@[x],
                            trs: all_trs@[x]@,
                        }));
                    } else {
                        assert(out@.states[x].trs =~= all_trs@[x]@);
                    }
                }
                assert forall|x: int| t + 1 <= x < n implies #[trigger] out@.states[x]
                    == StateView::<W>::empty() by {
                    assert(before.states[x] == StateView::<W>::empty());
                }
            }
            t += 1;
        }
        match &self.isymt {
            Some(symt) => {
                out.set_input_symbols(share_symbol_table(symt));
            },
            None => {},
        }
        match &self.osymt {
            Some(symt) => {
                out.set_output_symbols(share_symbol_table(symt));
            },
            None => {},
        }
        match start {
            Some(s) => {
                out.set_start_unchecked(s);
            },
            None => {},
        }
        proof {
            let g = out@.with_properties(determinized_properties());
            assert forall|i: int| 0 <= i < table.len() implies (#[trigger] g.states[i]).final_weight
                == FstView::<W>::kept_final(subset_final(f, table[i])) && is_expansion::<W, CD>(
                f,
                table[i],
                g.states[i].trs,
                table,
                delta,
            ) by {
                assert(out@.states[i] == (StateView {
                    final_weight: finals@[i],
                    trs: all_trs@[i]@,
                }));
                assert(self.cached_trs().contains_key(i));
            }
            assert(is_determinization::<W, CD>(f, g, table, delta));
            assert forall|i: int| 0 <= i < table.len() implies (#[trigger] g.states[i]).trs
                == self.cached_trs()[i] by {
                assert(out@.states[i] == (StateView {
                    final_weight: finals@[i],
                    trs: all_trs@[i]@,
                }));
            }
            lemma_determinization_wf::<W, CD>(f, g, table, delta);
            out@.lemma_same_states_same_facts(g);
            assert(out@.properties_hold(determinized_properties())) by {
                assert forall|k: u64| determinized_properties().contains(k) implies #[trigger] out@.property_fact(
                    k,
                ) by {
                    assert(g.property_fact(k));
                }
            }
            if fresh {
                assert forall|i: int| 1 <= i < g.states.len() implies #[trigger] is_met_from_before(
                    g,
                    i,
                ) by {
                    assert(is_met_by(all_trs@, id as int, i));
                    let j = choose|j: int|
                        0 <= j < i && j < id && #[trigger] leads_to(all_trs@[j]@, i);
                    assert(g.states[j].trs == all_trs@[j]@);
                    assert(leads_to(g.states[j].trs, i));
                }
            }
        }
        out.set_properties(determinized_fst_properties());
        Ok(out)
    }

    /// Computes the acceptor in full and returns it with the distances of
    /// its states.
    pub fn compute_with_distance<F2: MutableFst<W>>(self) -> (r: Result<(F2, Vec<W>), FstError>)
        requires
            self.inv(),
        ensures
            match r {
                Ok((g, dist)) => (self.in_dist_view() matches Some(d) && exists|
                    table: Seq<SubsetView<W>>,
                |
                    #[trigger] is_determinization::<W, CD>(
                        self.input(),
                        g@,
                        table,
                        self.delta_spec(),
                    ) && dist@.len() == table.len() && (forall|i: int|
                        0 <= i < dist@.len() ==> #[trigger] dist@[i] == subset_distance(
                            table[i],
                            d,
                        )) && is_prefix_of(self.table_view(), table) && is_reached_table::<W, CD>(
                        self.input(),
                        table,
                        self.delta_spec(),
                        self.max_states_spec(),
                    )) && g@.wf() && g@.i_deterministic() && g@.isymt == self.isymt_view()
                    && g@.osymt == self.osymt_view(),
                Err(e) => (e == FstError::InvalidInput && self.in_dist_view() is None) || (exists|
                    table: Seq<SubsetView<W>>,
                |
                    is_prefix_of(self.table_view(), table) && is_reached_table::<W, CD>(
                        self.input(),
                        table,
                        self.delta_spec(),
                        self.max_states_spec(),
                    ) && #[trigger] is_failure_of::<W, CD>(
                        self.input(),
                        table,
                        self.delta_spec(),
                        self.max_states_spec(),
                        e,
                    )),
            },
    {
        let mut this = self;
        let dfst: F2 = match this.compute() {
            Ok(dfst) => dfst,
            Err(e) => {
                proof {
                    assert(is_failure_of::<W, CD>(
                        self.input(),
                        this.table_view(),
                        self.delta_spec(),
                        self.max_states_spec(),
                        e,
                    ));
                    assert(is_reached_table::<W, CD>(
                        self.input(),
                        this.table_view(),
                        self.delta_spec(),
                        self.max_states_spec(),
                    ));
                }
                return Err(e);
            },
        };
        let ghost table = this.table_view();
        let out_dist = match this.out_dist() {
            Ok(out_dist) => out_dist,
            Err(e) => {
                return Err(e);
            },
        };
        proof {
            let d = self.in_dist_view()->0;
            assert(is_determinization::<W, CD>(self.input(), dfst@, table, self.delta_spec()));
            assert(out_dist@.len() == table.len());
            assert(is_prefix_of(self.table_view(), table));
            assert(is_reached_table::<W, CD>(
                self.input(),
                table,
                self.delta_spec(),
                self.max_states_spec(),
            ));
        }
        Ok((dfst, out_dist))
    }

    /// The distances of the states that were met, in the order of their
    /// numbers: for each state the sum over its subset of residual weight
    /// times the distance of the state. There are none where no distances
    /// were given for the input.
    pub fn out_dist(self) -> (r: Result<Vec<W>, FstError>)
        requires
            self.inv(),
        ensures
            match r {
                Ok(dist) => (self.in_dist_view() matches Some(d) && dist@.len()
                    == self.table_view().len() && forall|i: int|
                    0 <= i < dist@.len() ==> #[trigger] dist@[i] == subset_distance(
                        self.table_view()[i],
                        d,
                    )),
                Err(e) => e == FstError::InvalidInput && self.in_dist_view() is None,
            },
    {
        self.op.out_dist()
    }
}

/// The bits that are known of a determinized acceptor.
pub fn determinized_fst_properties() -> (p: FstProperties)
    ensures
        p@ == determinized_properties(),
{
    let p = FstProperties::empty().insert_bit(ACCEPTOR_BIT).insert_bit(
        I_DETERMINISTIC_BIT,
    ).insert_bit(O_DETERMINISTIC_BIT).insert_bit(I_LABEL_SORTED_BIT).insert_bit(
        O_LABEL_SORTED_BIT,
    );
    assert(p@ =~= determinized_properties());
    p
}

/// A copy of the transitions.
pub fn copy_trs<W: Semiring>(trs: &Vec<Tr<W>>) -> (r: Vec<Tr<W>>)
    ensures
        r@ == trs@,
{
    let mut r: Vec<Tr<W>> = Vec::new();
    let mut i: usize = 0;
    while i < trs.len()
        invariant
            i <= trs.len(),
            r@ =~= trs@.take(i as int),
        decreases trs.len() - i,
    {
        r.push(trs[i]);
        i += 1;
    }
    proof {
        assert(trs@.take(trs@.len() as int) =~= trs@);
    }
    r
}

} // verus!
