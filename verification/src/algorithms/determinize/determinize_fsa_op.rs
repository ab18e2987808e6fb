//! The operation behind a determinized acceptor: it numbers the weighted
//! subsets as they are met and computes what leaves each of them.

use std::marker::PhantomData;
use vstd::prelude::*;
use crate::algorithms::compute_properties::is_acceptor;
use crate::algorithms::determinize::divisors::CommonDivisor;
use crate::algorithms::determinize::subset::{
    canonical, canonicalize, collect_items, collect_labels, compute_divisor,
    compute_subset_distance, compute_subset_final, divide_subset, divided, divisor_of, has_label,
    is_divisible, is_subset_of, label_items, labels_rise_strictly,
    lemma_canonical, lemma_label_items_states, subset_distance, subset_final, subset_items,
    subsets_equal, DeterminizeElement, SubsetView,
};
use crate::error::FstError;
use crate::fst_properties::ACCEPTOR_BIT;
use crate::fst_traits::Fst;
use crate::fst_view::FstView;
use crate::semirings::semiring::{Semiring, WeaklyDivisibleSemiring, WeightQuantize};
use crate::tr::{Label, StateId, Tr};

verus! {

/// The width of the bins into which residual weights are put unless another
/// width is asked for.
pub const DEFAULT_DELTA: u64 = 1;

/// Numbers weighted subsets of the states of `fst` and computes the
/// transitions and the final weight of each.
pub struct DeterminizeFsaOp<
    W: WeaklyDivisibleSemiring + WeightQuantize,
    F: Fst<W>,
    CD: CommonDivisor<W>,
> {
    fst: F,
    table: Vec<Vec<DeterminizeElement<W>>>,
    in_dist: Option<Vec<W>>,
    out_dist: Vec<W>,
    delta: u64,
    max_states: usize,
    divisor: PhantomData<CD>,
}

/// What the one transition for `label` that leaves `subset` is: it carries
/// the label on both sides and the common divisor of the weights that reach
/// its targets, and leads to the state of the subset of its targets, each
/// with what is left of its weight.
pub open spec fn is_group_tr<W: WeaklyDivisibleSemiring + WeightQuantize, CD: CommonDivisor<W>>(
    f: FstView<W>,
    subset: SubsetView<W>,
    tr: Tr<W>,
    table: Seq<SubsetView<W>>,
    delta: u64,
) -> bool {
    let items = subset_items(f, subset, tr.ilabel);
    &&& tr.olabel == tr.ilabel
    &&& has_label(f, subset, tr.ilabel)
    &&& tr.weight == divisor_of::<W, CD>(items)
    &&& is_divisible(canonical(items), tr.weight)
    &&& tr.nextstate < table.len()
    &&& table[tr.nextstate as int] == divided(canonical(items), tr.weight, delta)
}

/// Whether `trs` are the transitions that leave `subset`: one for each input
/// label that leaves a state of the subset, in rising order of the labels.
pub open spec fn is_expansion<W: WeaklyDivisibleSemiring + WeightQuantize, CD: CommonDivisor<W>>(
    f: FstView<W>,
    subset: SubsetView<W>,
    trs: Seq<Tr<W>>,
    table: Seq<SubsetView<W>>,
    delta: u64,
) -> bool {
    &&& forall|k: int|
        0 <= k < trs.len() ==> is_group_tr::<W, CD>(f, subset, #[trigger] trs[k], table, delta)
    &&& forall|j: int, k: int|
        0 <= j < k < trs.len() ==> (#[trigger] trs[j]).ilabel < (#[trigger] trs[k]).ilabel
    &&& forall|l: Label|
        has_label(f, subset, l) ==> exists|k: int|
            0 <= k < trs.len() && (#[trigger] trs[k]).ilabel == l
}

/// Whether `to` is the subset that a transition of `from` leads to: the
/// targets of the transitions with some label that leave the states of
/// `from`, each with what is left of its weight.
pub open spec fn is_target_subset<W: WeaklyDivisibleSemiring + WeightQuantize, CD: CommonDivisor<W>>(
    f: FstView<W>,
    from: SubsetView<W>,
    to: SubsetView<W>,
    delta: u64,
) -> bool {
    exists|l: Label| #[trigger]
        has_label(f, from, l) && is_divisible(
            canonical(subset_items(f, from, l)),
            divisor_of::<W, CD>(subset_items(f, from, l)),
        ) && to == divided(
            canonical(subset_items(f, from, l)),
            divisor_of::<W, CD>(subset_items(f, from, l)),
            delta,
        )
}

/// Whether `subset` has no number in `table`.
pub open spec fn is_outside<W: Semiring>(table: Seq<SubsetView<W>>, subset: SubsetView<W>) -> bool {
    forall|i: int| 0 <= i < table.len() ==> #[trigger] table[i] != subset
}

/// Whether a transition of `from` leads to a subset that has no number in
/// `table`.
pub open spec fn leads_outside<W: WeaklyDivisibleSemiring + WeightQuantize, CD: CommonDivisor<W>>(
    f: FstView<W>,
    from: SubsetView<W>,
    table: Seq<SubsetView<W>>,
    delta: u64,
) -> bool {
    exists|to: SubsetView<W>|
        #[trigger] is_target_subset::<W, CD>(f, from, to, delta) && is_outside(table, to)
}

/// Whether one of `trs` leads to state `i`.
pub open spec fn leads_to<W: Semiring>(trs: Seq<Tr<W>>, i: int) -> bool {
    exists|k: int| 0 <= k < trs.len() && (#[trigger] trs[k]).nextstate == i
}

/// Whether `longer` starts with `shorter`.
pub open spec fn is_prefix_of<T>(shorter: Seq<T>, longer: Seq<T>) -> bool {
    shorter.len() <= longer.len() && forall|i: int|
        0 <= i < shorter.len() ==> #[trigger] longer[i] == shorter[i]
}

/// The targets of the items lie within the states of a well-formed
/// transducer.
pub proof fn lemma_subset_items_states<W: Semiring>(
    f: FstView<W>,
    subset: SubsetView<W>,
    label: Label,
)
    requires
        f.graph_wf(),
        is_subset_of(subset, f),
    ensures
        is_subset_of(subset_items(f, subset, label), f),
    decreases subset.len(),
{
    if subset.len() > 0 {
        let rest = subset.drop_last();
        assert(is_subset_of(rest, f)) by {
            assert forall|i: int| 0 <= i < rest.len() implies (#[trigger] rest[i]).state
                < f.states.len() by {
                assert(rest[i] == subset[i]);
            }
        }
        lemma_subset_items_states(f, rest, label);
        let s = subset.last().state as int;
        assert(subset.last() == subset[subset.len() - 1]);
        assert forall|i: int| 0 <= i < f.states[s].trs.len() implies (#[trigger] f.states[s].trs[i]).nextstate
            < f.states.len() by {
            assert(f.has_tr(s, i));
        }
        lemma_label_items_states(f.states[s].trs, subset.last().weight, label, f.states.len());
        let a = subset_items(f, rest, label);
        let b = label_items(f.states[s].trs, subset.last().weight, label);
        let all = subset_items(f, subset, label);
        assert forall|i: int| 0 <= i < all.len() implies (#[trigger] all[i]).state
            < f.states.len() by {
            if i < a.len() {
                assert(all[i] == a[i]);
            } else {
                assert(all[i] == b[i - a.len()]);
            }
        }
    }
}

impl<
    W: WeaklyDivisibleSemiring + WeightQuantize,
    F: Fst<W>,
    CD: CommonDivisor<W>,
> DeterminizeFsaOp<W, F, CD> {
    /// The acceptor that is determinized.
    pub closed spec fn input(&self) -> FstView<W> {
        self.fst@
    }

    /// The subsets that have a number, each at its number.
    pub closed spec fn table_view(&self) -> Seq<SubsetView<W>> {
        Seq::new(self.table.len() as nat, |i: int| self.table[i]@)
    }

    /// The distances that were given for the states of the input.
    pub closed spec fn in_dist_view(&self) -> Option<Seq<W>> {
        match self.in_dist {
            Some(d) => Some(d@),
            None => None,
        }
    }

    /// The distances of the numbered subsets, where distances were given.
    pub closed spec fn out_dist_view(&self) -> Seq<W> {
        self.out_dist@
    }

    /// The width of the bins for residual weights.
    pub closed spec fn delta_spec(&self) -> u64 {
        self.delta
    }

    /// The number of subsets that may get a number.
    pub closed spec fn max_states_spec(&self) -> usize {
        self.max_states
    }

    /// What holds of the operation at all times: the input is a well-formed
    /// acceptor, the numbered subsets are distinct subsets of its states and
    /// not more than allowed, and each has its distance where distances were
    /// given.
    pub open spec fn inv(&self) -> bool {
        &&& self.input().wf()
        &&& self.input().every_tr_meets(ACCEPTOR_BIT)
        &&& self.table_view().len() <= self.max_states_spec()
        &&& forall|i: int|
            0 <= i < self.table_view().len() ==> is_subset_of(
                #[trigger] self.table_view()[i],
                self.input(),
            )
        &&& forall|i: int, j: int|
            0 <= i < j < self.table_view().len() ==> #[trigger] self.table_view()[i]
                != #[trigger] self.table_view()[j]
        &&& match self.in_dist_view() {
            Some(d) => d.len() == self.input().states.len() && self.out_dist_view().len()
                == self.table_view().len() && forall|i: int|
                0 <= i < self.table_view().len() ==> #[trigger] self.out_dist_view()[i]
                    == subset_distance(self.table_view()[i], d),
            None => self.out_dist_view().len() == 0,
        }
    }

    /// Whether the two operations work on the same input with the same
    /// settings.
    pub open spec fn same_setup(&self, other: &Self) -> bool {
        &&& self.input() == other.input()
        &&& self.in_dist_view() == other.in_dist_view()
        &&& self.delta_spec() == other.delta_spec()
        &&& self.max_states_spec() == other.max_states_spec()
    }

    /// An operation on `fst` with no subset numbered yet. A transducer that
    /// is no acceptor is refused, and so are distances that are not one for
    /// each state.
    pub fn new(fst: F, in_dist: Option<Vec<W>>) -> (r: Result<Self, FstError>)
        requires
            fst@.wf(),
        ensures
            match r {
                Ok(op) => op.inv() && op.input() == fst@ && op.table_view().len() == 0
                    && op.in_dist_view() == (match in_dist {
                    Some(d) => Some(d@),
                    None => None,
                }) && op.delta_spec() == DEFAULT_DELTA && op.max_states_spec() == usize::MAX
                    && fst@.every_tr_meets(ACCEPTOR_BIT),
                Err(e) => if !fst@.every_tr_meets(ACCEPTOR_BIT) {
                    e == FstError::PropertyViolation
                } else {
                    e == FstError::InvalidInput && (in_dist matches Some(d) && d@.len()
                        != fst@.states.len())
                },
            },
    {
        if !is_acceptor(&fst) {
            return Err(FstError::PropertyViolation);
        }
        match &in_dist {
            Some(d) => {
                if d.len() != fst.num_states() {
                    return Err(FstError::InvalidInput);
                }
            },
            None => {},
        }
        let op = DeterminizeFsaOp {
            fst,
            table: Vec::new(),
            in_dist,
            out_dist: Vec::new(),
            delta: DEFAULT_DELTA,
            max_states: usize::MAX,
            divisor: PhantomData,
        };
        Ok(op)
    }

    /// Sets the width of the bins for residual weights.
    pub fn set_delta(&mut self, delta: u64)
        requires
            old(self).inv(),
            old(self).table_view().len() == 0,
        ensures
            final(self).inv(),
            final(self).input() == old(self).input(),
            final(self).in_dist_view() == old(self).in_dist_view(),
            final(self).max_states_spec() == old(self).max_states_spec(),
            final(self).table_view() == old(self).table_view(),
            final(self).delta_spec() == delta,
    {
        self.delta = delta;
        assert(self.table_view() =~= old(self).table_view());
    }

    /// Sets the number of subsets that may get a number.
    pub fn set_max_states(&mut self, max_states: usize)
        requires
            old(self).inv(),
            old(self).table_view().len() == 0,
        ensures
            final(self).inv(),
            final(self).input() == old(self).input(),
            final(self).in_dist_view() == old(self).in_dist_view(),
            final(self).delta_spec() == old(self).delta_spec(),
            final(self).table_view() == old(self).table_view(),
            final(self).max_states_spec() == max_states,
    {
        self.max_states = max_states;
        assert(self.table_view() =~= old(self).table_view());
    }

    /// The acceptor that is determinized.
    pub fn fst(&self) -> (fst: &F)
        ensures
            fst@ == self.input(),
    {
        &self.fst
    }

    /// The number of subsets that have a number.
    pub fn num_states(&self) -> (n: usize)
        ensures
            n == self.table_view().len(),
    {
        self.table.len()
    }

    /// The number of `subset`: the one it has, or the next free number,
    /// which it then gets. Where no number is free the subset gets none.
    pub fn find_or_add(&mut self, subset: Vec<DeterminizeElement<W>>) -> (r: Result<
        StateId,
        FstError,
    >)
        requires
            old(self).inv(),
            is_subset_of(subset@, old(self).input()),
        ensures
            final(self).inv(),
            final(self).same_setup(old(self)),
            is_prefix_of(old(self).table_view(), final(self).table_view()),
            match r {
                Ok(id) => id < final(self).table_view().len() && final(self).table_view()[id as int]
                    == subset@ && final(self).table_view().len() <= old(self).table_view().len()
                    + 1 && (if id < old(self).table_view().len() {
                    final(self).table_view() == old(self).table_view()
                } else {
                    final(self).table_view().len() == old(self).table_view().len() + 1 && id
                        == old(self).table_view().len()
                }),
                Err(e) => e == FstError::NotConvergent && final(self).table_view() == old(
                    self,
                ).table_view() && old(self).table_view().len() == old(self).max_states_spec()
                    && forall|i: int|
                    0 <= i < old(self).table_view().len() ==> #[trigger] old(
                        self,
                    ).table_view()[i] != subset@,
            },
    {
        let mut i: usize = 0;
        while i < self.table.len()
            invariant
                i <= self.table.len(),
                self.table_view() == old(self).table_view(),
                self.same_setup(old(self)),
                self.inv(),
                *self == *old(self),
                forall|j: int| 0 <= j < i ==> #[trigger] self.table_view()[j] != subset@,
            decreases self.table.len() - i,
        {
            if subsets_equal(&self.table[i], &subset) {
                assert(self.table_view()[i as int] == subset@);
                return Ok(i);
            }
            assert(self.table_view()[i as int] != subset@);
            i += 1;
        }
        if self.table.len() >= self.max_states {
            return Err(FstError::NotConvergent);
        }
        let id = self.table.len();
        let ghost before = self.table_view();
        let ghost before_dist = self.out_dist@;
        match &self.in_dist {
            Some(d) => {
                let w = compute_subset_distance(&subset, d);
                self.out_dist.push(w);
            },
            None => {},
        }
        self.table.push(subset);
        proof {
            assert(self.table_view() =~= before.push(subset@));
            assert forall|a: int, b: int| 0 <= a < b < self.table_view().len() implies #[trigger] self.table_view()[a]
                != #[trigger] self.table_view()[b] by {
                if b < before.len() {
                    assert(before[a] != before[b]);
                } else {
                    assert(before[a] != subset@);
                }
            }
            assert forall|a: int| 0 <= a < self.table_view().len() implies is_subset_of(
                #[trigger] self.table_view()[a],
                self.input(),
            ) by {
                if a < before.len() {
                    assert(is_subset_of(before[a], self.input()));
                }
            }
            match self.in_dist_view() {
                Some(d) => {
                    assert forall|a: int| 0 <= a < self.table_view().len() implies #[trigger] self.out_dist_view()[a]
                        == subset_distance(self.table_view()[a], d) by {
                        if a < before.len() {
                            assert(before_dist[a] == subset_distance(before[a], d));
                        }
                    }
                },
                None => {},
            }
        }
        Ok(id)
    }

    /// The number of the start subset: the start state with residual weight
    /// `1̄`. An input without start state has no start subset.
    pub fn compute_start(&mut self) -> (r: Result<Option<StateId>, FstError>)
        requires
            old(self).inv(),
            old(self).table_view().len() > 0 ==> (old(self).input().start matches Some(s) && old(
                self,
            ).table_view()[0] == seq![DeterminizeElement { state: s, weight: W::one_spec() }]),
        ensures
            final(self).inv(),
            final(self).same_setup(old(self)),
            is_prefix_of(old(self).table_view(), final(self).table_view()),
            match r {
                Ok(Some(id)) => (old(self).input().start matches Some(s) && id < final(self).table_view().len() && final(self).table_view()[id as int] == seq![
                    DeterminizeElement { state: s, weight: W::one_spec() },
                ] && final(self).table_view().len() <= old(self).table_view().len() + 1 && (if id
                    < old(self).table_view().len() {
                    final(self).table_view() == old(self).table_view()
                } else {
                    final(self).table_view().len() == old(self).table_view().len() + 1 && id
                        == old(self).table_view().len()
                })),
                Ok(None) => old(self).input().start is None && final(self).table_view() == old(
                    self,
                ).table_view(),
                Err(e) => e == FstError::NotConvergent && final(self).table_view() == old(
                    self,
                ).table_view() && old(self).table_view().len() == old(self).max_states_spec()
                    && old(self).table_view().len() == 0 && old(self).input().start is Some,
            },
    {
        match self.fst.start() {
            None => Ok(None),
            Some(s) => {
                let mut subset: Vec<DeterminizeElement<W>> = Vec::new();
                subset.push(DeterminizeElement::new(s, W::one()));
                proof {
                    assert(subset@ =~= seq![DeterminizeElement { state: s, weight: W::one_spec() }]);
                    assert(subset@[0].state == s);
                }
                match self.find_or_add(subset) {
                    Ok(id) => Ok(Some(id)),
                    Err(e) => Err(e),
                }
            },
        }
    }

    /// The final weight of the subset with number `id`: none where the sum
    /// over its final states is `0̄`.
    pub fn compute_final_weight(&self, id: StateId) -> (r: Option<W>)
        requires
            self.inv(),
            id < self.table_view().len(),
        ensures
            r == FstView::<W>::kept_final(subset_final(self.input(), self.table_view()[id as int])),
    {
        assert(is_subset_of(self.table_view()[id as int], self.input()));
        let w = compute_subset_final(&self.fst, &self.table[id]);
        if w.is_zero() {
            None
        } else {
            Some(w)
        }
    }

    /// The transitions that leave the subset with number `id`. The subsets
    /// they lead to get numbers where they have none. A weight that cannot
    /// be divided by the common divisor of its group shows that the semiring
    /// does not suit; a subset for which no number is left shows that the
    /// construction does not end within the allowed number of states.
    pub fn compute_trs(&mut self, id: StateId) -> (r: Result<Vec<Tr<W>>, FstError>)
        requires
            old(self).inv(),
            id < old(self).table_view().len(),
        ensures
            final(self).inv(),
            final(self).same_setup(old(self)),
            is_prefix_of(old(self).table_view(), final(self).table_view()),
            forall|i: int|
                old(self).table_view().len() <= i < final(self).table_view().len()
                    ==> is_target_subset::<W, CD>(
                    old(self).input(),
                    old(self).table_view()[id as int],
                    #[trigger] final(self).table_view()[i],
                    old(self).delta_spec(),
                ),
            match r {
                Ok(trs) => is_expansion::<W, CD>(
                    old(self).input(),
                    old(self).table_view()[id as int],
                    trs@,
                    final(self).table_view(),
                    old(self).delta_spec(),
                ) && (forall|k: int|
                    0 <= k < trs@.len() ==> (#[trigger] trs@[k]).nextstate < old(
                        self,
                    ).table_view().len() + k + 1) && (forall|i: int|
                    old(self).table_view().len() <= i < final(self).table_view().len()
                        ==> #[trigger] leads_to(trs@, i)),
                Err(e) => (e == FstError::UnsupportedSemiring && exists|l: Label|
                    has_label(old(self).input(), old(self).table_view()[id as int], l)
                        && !is_divisible(
                        canonical(
                            subset_items(old(self).input(), old(self).table_view()[id as int], l),
                        ),
                        divisor_of::<W, CD>(
                            #[trigger] subset_items(
                                old(self).input(),
                                old(self).table_view()[id as int],
                                l,
                            ),
                        ),
                    )) || (e == FstError::NotConvergent && final(self).table_view().len()
                    == old(self).max_states_spec() && leads_outside::<W, CD>(
                    old(self).input(),
                    old(self).table_view()[id as int],
                    final(self).table_view(),
                    old(self).delta_spec(),
                )),
            },
    {
        let ghost f = self.input();
        let ghost table0 = self.table_view();
        let ghost subset_view = table0[id as int];
        let ghost delta = self.delta_spec();
        let subset = copy_subset(&self.table[id]);
        assert(is_subset_of(subset_view, f));
        let labels = collect_labels(&self.fst, &subset);
        let mut trs: Vec<Tr<W>> = Vec::new();
        let mut k: usize = 0;
        while k < labels.len()
            invariant
                k <= labels.len(),
                self.inv(),
                self.same_setup(old(self)),
                f == self.input(),
                f == old(self).input(),
                delta == self.delta_spec(),
                delta == old(self).delta_spec(),
                table0 == old(self).table_view(),
                id < table0.len(),
                subset_view == table0[id as int],
                is_prefix_of(table0, self.table_view()),
                self.table_view().len() <= table0.len() + k,
                subset@ == subset_view,
                is_subset_of(subset_view, f),
                labels_rise_strictly(labels@),
                forall|l: Label| labels@.contains(l) <==> has_label(f, subset_view, l),
                trs.len() == k,
                forall|j: int| 0 <= j < k ==> (#[trigger] trs@[j]).ilabel == labels@[j],
                forall|j: int|
                    0 <= j < k ==> is_group_tr::<W, CD>(
                        f,
                        subset_view,
                        #[trigger] trs@[j],
                        self.table_view(),
                        delta,
                    ),
                forall|j: int| 0 <= j < k ==> (#[trigger] trs@[j]).nextstate < table0.len() + j + 1,
                forall|i: int|
                    table0.len() <= i < self.table_view().len() ==> #[trigger] leads_to(trs@, i),
                forall|i: int|
                    table0.len() <= i < self.table_view().len() ==> is_target_subset::<W, CD>(
                        f,
                        subset_view,
                        #[trigger] self.table_view()[i],
                        delta,
                    ),
            decreases labels.len() - k,
        {
            let label = labels[k];
            let items = collect_items(&self.fst, &subset, label);
            let d = compute_divisor::<W, CD>(&items);
            let canon = canonicalize(&items);
            proof {
                assert(labels@.contains(label));
                lemma_subset_items_states(f, subset_view, label);
                lemma_canonical(items@, f.states.len());
            }
            let dest = match divide_subset(&canon, &d, self.delta) {
                Some(dest) => dest,
                None => {
                    proof {
                        assert(has_label(f, subset_view, label) && !is_divisible(
                            canonical(subset_items(f, subset_view, label)),
                            divisor_of::<W, CD>(subset_items(f, subset_view, label)),
                        ));
                    }
                    return Err(FstError::UnsupportedSemiring);
                },
            };
            proof {
                assert forall|i: int| 0 <= i < dest@.len() implies (#[trigger] dest@[i]).state
                    < f.states.len() by {
                    assert(dest@[i].state == canon@[i].state);
                }
            }
            let ghost table_before = self.table_view();
            let ghost trs_before = trs@;
            let ghost dest_view = dest@;
            let next = match self.find_or_add(dest) {
                Ok(next) => next,
                Err(e) => {
                    proof {
                        assert(self.table_view() == table_before);
                        assert(has_label(f, subset_view, label));
                        assert(is_target_subset::<W, CD>(f, subset_view, dest_view, delta));
                        assert(is_outside(self.table_view(), dest_view));
                    }
                    return Err(e);
                },
            };
            let tr = Tr::new(label, label, d, next);
            trs.push(tr);
            proof {
                assert forall|i: int|
                    table0.len() <= i < self.table_view().len() implies is_target_subset::<W, CD>(
                    f,
                    subset_view,
                    #[trigger] self.table_view()[i],
                    delta,
                ) by {
                    if i < table_before.len() {
                        assert(self.table_view()[i] == table_before[i]);
                    } else {
                        assert(has_label(f, subset_view, label));
                    }
                }
                assert forall|j: int| 0 <= j < k + 1 implies is_group_tr::<W, CD>(
                    f,
                    subset_view,
                    #[trigger] trs@[j],
                    self.table_view(),
                    delta,
                ) by {
                    if j < k {
                        assert(trs@[j] == trs_before[j]);
                        assert(is_group_tr::<W, CD>(
                            f,
                            subset_view,
                            trs_before[j],
                            table_before,
                            delta,
                        ));
                        assert(self.table_view()[trs_before[j].nextstate as int]
                            == table_before[trs_before[j].nextstate as int]);
                    }
                }
                assert forall|j: int| 0 <= j < k + 1 implies (#[trigger] trs@[j]).ilabel
                    == labels@[j] by {
                    if j < k {
                        assert(trs@[j] == trs_before[j]);
                    }
                }
                assert forall|j: int| 0 <= j < k + 1 implies (#[trigger] trs@[j]).nextstate
                    < table0.len() + j + 1 by {
                    if j < k {
                        assert(trs@[j] == trs_before[j]);
                    }
                }
                assert(is_prefix_of(table0, self.table_view())) by {
                    assert forall|i: int| 0 <= i < table0.len() implies #[trigger] self.table_view()[i]
                        == table0[i] by {
                        assert(table_before[i] == table0[i]);
                    }
                }
                assert forall|i: int|
                    table0.len() <= i < self.table_view().len() implies #[trigger] leads_to(
                    trs@,
                    i,
                ) by {
                    if i < table_before.len() {
                        assert(leads_to(trs_before, i));
                        let j = choose|j: int|
                            0 <= j < trs_before.len() && (#[trigger] trs_before[j]).nextstate == i;
                        assert(trs@[j] == trs_before[j]);
                    } else {
                        assert(trs@[k as int].nextstate == i);
                    }
                }
            }
            k += 1;
        }
        proof {
            assert forall|a: int, b: int| 0 <= a < b < trs@.len() implies (#[trigger] trs@[a]).ilabel
                < (#[trigger] trs@[b]).ilabel by {
                assert(trs@[a].ilabel == labels@[a] && trs@[b].ilabel == labels@[b]);
            }
            assert forall|l: Label| has_label(f, subset_view, l) implies exists|j: int|
                0 <= j < trs@.len() && (#[trigger] trs@[j]).ilabel == l by {
                assert(labels@.contains(l));
                let j = choose|j: int| 0 <= j < labels@.len() && labels@[j] == l;
                assert(trs@[j].ilabel == l);
            }
        }
        Ok(trs)
    }

    /// The distances of the numbered subsets, in the order of their numbers.
    /// There are none where no distances were given for the input.
    pub fn out_dist(self) -> (r: Result<Vec<W>, FstError>)
        requires
            self.inv(),
        ensures
            match r {
                Ok(dist) => (self.in_dist_view() matches Some(d) && dist@.len()
                    == self.table_view().len() && forall|i: int|
                    0 <= i < dist@.len() ==> #[trigger] dist@[i] == subset_distance(
                        self.table_view()[i],
                        d,
                    )),
                Err(e) => e == FstError::InvalidInput && self.in_dist_view() is None,
            },
    {
        match self.in_dist {
            Some(_) => Ok(self.out_dist),
            None => Err(FstError::InvalidInput),
        }
    }
}

/// A copy of the subset.
pub fn copy_subset<W: Semiring>(subset: &Vec<DeterminizeElement<W>>) -> (r: Vec<
    DeterminizeElement<W>,
>)
    ensures
        r@ == subset@,
{
    let mut r: Vec<DeterminizeElement<W>> = Vec::new();
    let mut i: usize = 0;
    while i < subset.len()
        invariant
            i <= subset.len(),
            r@ =~= subset@.take(i as int),
        decreases subset.len() - i,
    {
        r.push(subset[i]);
        i += 1;
    }
    proof {
        assert(subset@.take(subset@.len() as int) =~= subset@);
    }
    r
}

} // verus!
