//! Weighted subsets: the states of a determinized acceptor.

use vstd::prelude::*;
use crate::algorithms::determinize::divisors::CommonDivisor;
use crate::fst_traits::Fst;
use crate::fst_view::FstView;
use crate::semirings::semiring::{DivideType, Semiring, WeaklyDivisibleSemiring, WeightQuantize};
use crate::tr::{Label, StateId, Tr};

verus! {

/// A state of the input together with the weight that was read on the way
/// to it and not yet given out.
#[derive(Clone, Copy, Debug, PartialEq, Eq)]
pub struct DeterminizeElement<W: Semiring> {
    pub state: StateId,
    pub weight: W,
}

/// A weighted subset, as the model sees it.
pub type SubsetView<W> = Seq<DeterminizeElement<W>>;

impl<W: Semiring> DeterminizeElement<W> {
    pub fn new(state: StateId, weight: W) -> (e: Self)
        ensures
            e == (DeterminizeElement { state, weight }),
    {
        DeterminizeElement { state, weight }
    }

    /// Whether the two elements have the same state and the same weight.
    pub fn is_equal(&self, other: &Self) -> (b: bool)
        ensures
            b == (*self == *other),
    {
        self.state == other.state && self.weight.is_equal(&other.weight)
    }
}

/// Whether the states of a subset rise strictly: no state occurs twice and
/// the subset has one form only.
pub open spec fn is_canonical<W: Semiring>(subset: SubsetView<W>) -> bool {
    forall|i: int, j: int|
        0 <= i < j < subset.len() ==> (#[trigger] subset[i]).state < (#[trigger] subset[j]).state
}

/// Whether every state of the subset is a state of the transducer.
pub open spec fn is_subset_of<W: Semiring>(subset: SubsetView<W>, f: FstView<W>) -> bool {
    forall|i: int| 0 <= i < subset.len() ==> (#[trigger] subset[i]).state < f.states.len()
}

/// Where the transitions `trs` with input label `label` lead from a state
/// with residual weight `r`, each target with the weight that reaches it.
pub open spec fn label_items<W: Semiring>(trs: Seq<Tr<W>>, r: W, label: Label) -> SubsetView<W>
    decreases trs.len(),
{
    if trs.len() == 0 {
        Seq::empty()
    } else {
        let rest = label_items(trs.drop_last(), r, label);
        if trs.last().ilabel == label {
            rest.push(
                DeterminizeElement {
                    state: trs.last().nextstate,
                    weight: r.times_spec(trs.last().weight),
                },
            )
        } else {
            rest
        }
    }
}

/// Where the transitions with input label `label` lead from the states of a
/// subset, in the order of the subset and of the transitions.
pub open spec fn subset_items<W: Semiring>(
    f: FstView<W>,
    subset: SubsetView<W>,
    label: Label,
) -> SubsetView<W>
    decreases subset.len(),
{
    if subset.len() == 0 {
        Seq::empty()
    } else {
        subset_items(f, subset.drop_last(), label) + label_items(
            f.states[subset.last().state as int].trs,
            subset.last().weight,
            label,
        )
    }
}

/// Whether a state of the subset has a transition with input label `label`.
pub open spec fn has_label<W: Semiring>(f: FstView<W>, subset: SubsetView<W>, label: Label) -> bool {
    exists|k: int, i: int|
        0 <= k < subset.len() && #[trigger] f.has_tr(subset[k].state as int, i) && f.tr(
            subset[k].state as int,
            i,
        ).ilabel == label
}

/// The common divisor of the weights of the items.
pub open spec fn divisor_of<W: Semiring, CD: CommonDivisor<W>>(items: SubsetView<W>) -> W
    decreases items.len(),
{
    if items.len() == 0 {
        W::zero_spec()
    } else {
        CD::common_divisor_spec(divisor_of::<W, CD>(items.drop_last()), items.last().weight)
    }
}

/// The canonical subset with one more item: its weight is added to that of
/// the element with its state, or it becomes an element at its place.
pub open spec fn insert_merged<W: Semiring>(
    subset: SubsetView<W>,
    e: DeterminizeElement<W>,
) -> SubsetView<W>
    decreases subset.len(),
{
    if subset.len() == 0 {
        seq![e]
    } else if subset.last().state == e.state {
        subset.drop_last().push(
            DeterminizeElement { state: e.state, weight: subset.last().weight.plus_spec(e.weight) },
        )
    } else if subset.last().state < e.state {
        subset.push(e)
    } else {
        insert_merged(subset.drop_last(), e).push(subset.last())
    }
}

/// The canonical subset of the items: by rising state, the weights of the
/// items with one state added up in their order.
pub open spec fn canonical<W: Semiring>(items: SubsetView<W>) -> SubsetView<W>
    decreases items.len(),
{
    if items.len() == 0 {
        Seq::empty()
    } else {
        insert_merged(canonical(items.drop_last()), items.last())
    }
}

/// Whether each weight of the subset can be divided by `d` on the left.
pub open spec fn is_divisible<W: WeaklyDivisibleSemiring>(subset: SubsetView<W>, d: W) -> bool {
    forall|i: int|
        0 <= i < subset.len() ==> (#[trigger] subset[i]).weight.divide_spec(
            d,
            DivideType::DivideLeft,
        ) is Some
}

/// The subset with each weight divided by `d` on the left and put in its
/// bin of width `delta`.
pub open spec fn divided<W: WeaklyDivisibleSemiring + WeightQuantize>(
    subset: SubsetView<W>,
    d: W,
    delta: u64,
) -> SubsetView<W> {
    Seq::new(
        subset.len(),
        |i: int|
            DeterminizeElement {
                state: subset[i].state,
                weight: subset[i].weight.divide_spec(d, DivideType::DivideLeft)->0.quantize_spec(
                    delta,
                ),
            },
    )
}

/// The weight with which the subset is final: the sum over its final states
/// of residual weight times final weight.
pub open spec fn subset_final<W: Semiring>(f: FstView<W>, subset: SubsetView<W>) -> W
    decreases subset.len(),
{
    if subset.len() == 0 {
        W::zero_spec()
    } else {
        let rest = subset_final(f, subset.drop_last());
        match f.states[subset.last().state as int].final_weight {
            Some(w) => rest.plus_spec(subset.last().weight.times_spec(w)),
            None => rest,
        }
    }
}

/// The distance of the subset: the sum over its states of residual weight
/// times the distance of the state.
pub open spec fn subset_distance<W: Semiring>(subset: SubsetView<W>, dist: Seq<W>) -> W
    decreases subset.len(),
{
    if subset.len() == 0 {
        W::zero_spec()
    } else {
        subset_distance(subset.drop_last(), dist).plus_spec(
            subset.last().weight.times_spec(dist[subset.last().state as int]),
        )
    }
}

// ----- lemmas -----

/// Every item leads to the target of a transition.
pub proof fn lemma_label_items_states<W: Semiring>(trs: Seq<Tr<W>>, r: W, label: Label, n: nat)
    requires
        forall|i: int| 0 <= i < trs.len() ==> (#[trigger] trs[i]).nextstate < n,
    ensures
        forall|i: int|
            0 <= i < label_items(trs, r, label).len() ==> (#[trigger] label_items(
                trs,
                r,
                label,
            )[i]).state < n,
    decreases trs.len(),
{
    if trs.len() > 0 {
        assert forall|i: int| 0 <= i < trs.drop_last().len() implies (#[trigger] trs.drop_last()[i]).nextstate
            < n by {
            assert(trs.drop_last()[i] == trs[i]);
        }
        lemma_label_items_states(trs.drop_last(), r, label, n);
        assert(trs.last() == trs[trs.len() - 1]);
        let rest = label_items(trs.drop_last(), r, label);
        let all = label_items(trs, r, label);
        assert forall|i: int| 0 <= i < all.len() implies (#[trigger] all[i]).state < n by {
            if i < rest.len() {
                assert(all[i] == rest[i]);
            }
        }
    }
}

/// Merging an item keeps a subset canonical and within the states.
pub proof fn lemma_insert_merged<W: Semiring>(
    subset: SubsetView<W>,
    e: DeterminizeElement<W>,
    n: nat,
)
    requires
        is_canonical(subset),
        forall|i: int| 0 <= i < subset.len() ==> (#[trigger] subset[i]).state < n,
        e.state < n,
    ensures
        is_canonical(insert_merged(subset, e)),
        forall|i: int|
            0 <= i < insert_merged(subset, e).len() ==> (#[trigger] insert_merged(
                subset,
                e,
            )[i]).state < n,
        forall|i: int|
            0 <= i < insert_merged(subset, e).len() ==> (#[trigger] insert_merged(
                subset,
                e,
            )[i]).state == e.state || exists|j: int|
                0 <= j < subset.len() && subset[j].state == insert_merged(subset, e)[i].state,
        insert_merged(subset, e).len() >= 1,
    decreases subset.len(),
{
    let r = insert_merged(subset, e);
    if subset.len() == 0 {
    } else if subset.last().state == e.state {
        assert forall|i: int, j: int| 0 <= i < j < r.len() implies (#[trigger] r[i]).state
            < (#[trigger] r[j]).state by {
            assert(r[i].state == subset[i].state && r[j].state == subset[j].state);
        }
        assert forall|i: int| 0 <= i < r.len() implies (#[trigger] r[i]).state == e.state
            || exists|j: int| 0 <= j < subset.len() && subset[j].state == r[i].state by {
            assert(r[i].state == subset[i].state);
        }
    } else if subset.last().state < e.state {
        assert forall|i: int, j: int| 0 <= i < j < r.len() implies (#[trigger] r[i]).state
            < (#[trigger] r[j]).state by {
            if j == subset.len() {
                assert(r[i] == subset[i]);
                if i < subset.len() - 1 {
                    assert(subset[i].state < subset[subset.len() - 1].state);
                }
            } else {
                assert(r[i] == subset[i] && r[j] == subset[j]);
            }
        }
        assert forall|i: int| 0 <= i < r.len() implies (#[trigger] r[i]).state == e.state
            || exists|j: int| 0 <= j < subset.len() && subset[j].state == r[i].state by {
            if i < subset.len() {
                assert(r[i] == subset[i]);
            }
        }
    } else {
        let rest = subset.drop_last();
        assert(is_canonical(rest)) by {
            assert forall|i: int, j: int| 0 <= i < j < rest.len() implies (#[trigger] rest[i]).state
                < (#[trigger] rest[j]).state by {
                assert(rest[i] == subset[i] && rest[j] == subset[j]);
            }
        }
        assert forall|i: int| 0 <= i < rest.len() implies (#[trigger] rest[i]).state < n by {
            assert(rest[i] == subset[i]);
        }
        lemma_insert_merged(rest, e, n);
        let m = insert_merged(rest, e);
        assert forall|i: int, j: int| 0 <= i < j < r.len() implies (#[trigger] r[i]).state
            < (#[trigger] r[j]).state by {
            if j == m.len() {
                assert(r[i] == m[i]);
                if m[i].state != e.state {
                    let k = choose|k: int| 0 <= k < rest.len() && rest[k].state == m[i].state;
                    assert(rest[k] == subset[k]);
                    assert(subset[k].state < subset[subset.len() - 1].state);
                }
            } else {
                assert(r[i] == m[i] && r[j] == m[j]);
            }
        }
        assert forall|i: int| 0 <= i < r.len() implies (#[trigger] r[i]).state == e.state
            || exists|j: int| 0 <= j < subset.len() && subset[j].state == r[i].state by {
            if i < m.len() {
                assert(r[i] == m[i]);
                if m[i].state != e.state {
                    let k = choose|k: int| 0 <= k < rest.len() && rest[k].state == m[i].state;
                    assert(rest[k] == subset[k]);
                }
            } else {
                assert(r[i] == subset[subset.len() - 1]);
            }
        }
        assert forall|i: int| 0 <= i < r.len() implies (#[trigger] r[i]).state < n by {
            if i < m.len() {
                assert(r[i] == m[i]);
            } else {
                assert(r[i] == subset[subset.len() - 1]);
            }
        }
    }
}

/// The canonical subset of items within the states is canonical and within
/// the states.
pub proof fn lemma_canonical<W: Semiring>(items: SubsetView<W>, n: nat)
    requires
        forall|i: int| 0 <= i < items.len() ==> (#[trigger] items[i]).state < n,
    ensures
        is_canonical(canonical(items)),
        forall|i: int|
            0 <= i < canonical(items).len() ==> (#[trigger] canonical(items)[i]).state < n,
    decreases items.len(),
{
    if items.len() > 0 {
        assert forall|i: int| 0 <= i < items.drop_last().len() implies (#[trigger] items.drop_last()[i]).state
            < n by {
            assert(items.drop_last()[i] == items[i]);
        }
        lemma_canonical(items.drop_last(), n);
        assert(items.last() == items[items.len() - 1]);
        lemma_insert_merged(canonical(items.drop_last()), items.last(), n);
    }
}

// ----- executable helpers -----

/// Appends to `items` where the transitions `trs` with input label `label`
/// lead from a state with residual weight `r`.
fn push_label_items<W: Semiring>(
    items: &mut Vec<DeterminizeElement<W>>,
    trs: &[Tr<W>],
    r: W,
    label: Label,
)
    ensures
        final(items)@ == old(items)@ + label_items(trs@, r, label),
{
    let ghost before = items@;
    let mut i: usize = 0;
    proof {
        assert(trs@.take(0) =~= Seq::<Tr<W>>::empty());
        assert(before + Seq::<DeterminizeElement<W>>::empty() =~= before);
    }
    while i < trs.len()
        invariant
            i <= trs.len(),
            items@ == before + label_items(trs@.take(i as int), r, label),
        decreases trs.len() - i,
    {
        let t = trs[i];
        proof {
            assert(trs@.take(i as int + 1).drop_last() =~= trs@.take(i as int));
            assert(trs@.take(i as int + 1).last() == t);
        }
        if t.ilabel == label {
            items.push(DeterminizeElement::new(t.nextstate, r.times(&t.weight)));
            proof {
                let a = label_items(trs@.take(i as int), r, label);
                assert(items@ =~= before + a.push(
                    DeterminizeElement { state: t.nextstate, weight: r.times_spec(t.weight) },
                ));
            }
        }
        i += 1;
    }
    proof {
        assert(trs@.take(trs@.len() as int) =~= trs@);
    }
}

/// Where the transitions with input label `label` lead from the states of
/// the subset.
pub fn collect_items<W: Semiring, F: Fst<W>>(
    fst: &F,
    subset: &Vec<DeterminizeElement<W>>,
    label: Label,
) -> (items: Vec<DeterminizeElement<W>>)
    requires
        is_subset_of(subset@, fst@),
    ensures
        items@ == subset_items(fst@, subset@, label),
{
    let mut items: Vec<DeterminizeElement<W>> = Vec::new();
    let mut k: usize = 0;
    proof {
        assert(subset@.take(0) =~= Seq::<DeterminizeElement<W>>::empty());
    }
    while k < subset.len()
        invariant
            k <= subset.len(),
            is_subset_of(subset@, fst@),
            items@ == subset_items(fst@, subset@.take(k as int), label),
        decreases subset.len() - k,
    {
        let e = subset[k];
        proof {
            assert(subset@.take(k as int + 1).drop_last() =~= subset@.take(k as int));
            assert(subset@.take(k as int + 1).last() == e);
            assert(subset@[k as int].state < fst@.states.len());
        }
        let trs = fst.get_trs_unchecked(e.state);
        push_label_items(&mut items, trs, e.weight, label);
        k += 1;
    }
    proof {
        assert(subset@.take(subset@.len() as int) =~= subset@);
    }
    items
}

/// Whether the labels rise strictly.
pub open spec fn labels_rise_strictly(labels: Seq<Label>) -> bool {
    forall|i: int, j: int| 0 <= i < j < labels.len() ==> labels[i] < labels[j]
}

/// Puts `label` at its place among the strictly rising `labels`, unless it
/// is there.
pub fn insert_label(labels: &mut Vec<Label>, label: Label)
    requires
        labels_rise_strictly(old(labels)@),
    ensures
        labels_rise_strictly(final(labels)@),
        forall|l: Label| final(labels)@.contains(l) <==> old(labels)@.contains(l) || l == label,
{
    let ghost before = labels@;
    let mut i: usize = labels.len();
    while i > 0 && labels[i - 1] > label
        invariant
            i <= labels.len(),
            labels@ == before,
            labels_rise_strictly(before),
            forall|j: int| i <= j < before.len() ==> before[j] > label,
        decreases i,
    {
        i -= 1;
    }
    if i > 0 && labels[i - 1] == label {
        proof {
            assert(before.contains(label));
        }
        return ;
    }
    labels.insert(i, label);
    proof {
        let after = labels@;
        assert(after =~= before.insert(i as int, label));
        assert forall|a: int, b: int| 0 <= a < b < after.len() implies after[a] < after[b] by {
            if b < i {
            } else if b == i {
                if a < i - 1 {
                    assert(before[a] < before[i - 1]);
                }
            } else if a == i {
                assert(after[b] == before[b - 1]);
            } else if a < i {
                assert(after[b] == before[b - 1]);
            } else {
                assert(after[a] == before[a - 1] && after[b] == before[b - 1]);
            }
        }
        assert forall|l: Label| after.contains(l) <==> before.contains(l) || l == label by {
            if after.contains(l) {
                let k = choose|k: int| 0 <= k < after.len() && after[k] == l;
                if k < i {
                    assert(before[k] == l);
                } else if k > i {
                    assert(before[k - 1] == l);
                }
            }
            if before.contains(l) {
                let k = choose|k: int| 0 <= k < before.len() && before[k] == l;
                if k < i {
                    assert(after[k] == l);
                } else {
                    assert(after[k + 1] == l);
                }
            }
            if l == label {
                assert(after[i as int] == l);
            }
        }
    }
}

/// The input labels of the transitions that leave the states of the subset,
/// each once, in rising order.
pub fn collect_labels<W: Semiring, F: Fst<W>>(fst: &F, subset: &Vec<DeterminizeElement<W>>) -> (labels:
    Vec<Label>)
    requires
        is_subset_of(subset@, fst@),
    ensures
        labels_rise_strictly(labels@),
        forall|l: Label| labels@.contains(l) <==> has_label(fst@, subset@, l),
{
    let ghost f = fst@;
    let mut labels: Vec<Label> = Vec::new();
    let mut k: usize = 0;
    while k < subset.len()
        invariant
            k <= subset.len(),
            f == fst@,
            is_subset_of(subset@, f),
            labels_rise_strictly(labels@),
            forall|l: Label|
                labels@.contains(l) <==> exists|a: int, i: int|
                    0 <= a < k && #[trigger] f.has_tr(subset@[a].state as int, i) && f.tr(
                        subset@[a].state as int,
                        i,
                    ).ilabel == l,
        decreases subset.len() - k,
    {
        let e = subset[k];
        assert(subset@[k as int].state < f.states.len());
        let trs = fst.get_trs_unchecked(e.state);
        let mut i: usize = 0;
        while i < trs.len()
            invariant
                i <= trs.len(),
                k < subset.len(),
                e == subset@[k as int],
                e.state < f.states.len(),
                trs@ == f.states[e.state as int].trs,
                labels_rise_strictly(labels@),
                forall|l: Label|
                    labels@.contains(l) <==> (exists|a: int, j: int|
                        0 <= a < k && #[trigger] f.has_tr(subset@[a].state as int, j) && f.tr(
                            subset@[a].state as int,
                            j,
                        ).ilabel == l) || (exists|j: int|
                        0 <= j < i && (#[trigger] trs@[j]).ilabel == l),
            decreases trs.len() - i,
        {
            let ghost before = labels@;
            insert_label(&mut labels, trs[i].ilabel);
            proof {
                assert forall|l: Label|
                    labels@.contains(l) <==> (exists|a: int, j: int|
                        0 <= a < k && #[trigger] f.has_tr(subset@[a].state as int, j) && f.tr(
                            subset@[a].state as int,
                            j,
                        ).ilabel == l) || (exists|j: int|
                        0 <= j < i + 1 && (#[trigger] trs@[j]).ilabel == l) by {
                    if exists|j: int| 0 <= j < i + 1 && (#[trigger] trs@[j]).ilabel == l {
                        let j = choose|j: int| 0 <= j < i + 1 && (#[trigger] trs@[j]).ilabel == l;
                        if j < i {
                            assert(before.contains(l));
                        }
                    }
                    if l == trs@[i as int].ilabel {
                        assert(trs@[i as int].ilabel == l);
                    }
                }
            }
            i += 1;
        }
        proof {
            assert forall|l: Label|
                labels@.contains(l) <==> exists|a: int, j: int|
                    0 <= a < k + 1 && #[trigger] f.has_tr(subset@[a].state as int, j) && f.tr(
                        subset@[a].state as int,
                        j,
                    ).ilabel == l by {
                if labels@.contains(l) {
                    if exists|j: int| 0 <= j < trs@.len() && (#[trigger] trs@[j]).ilabel == l {
                        let j = choose|j: int|
                            0 <= j < trs@.len() && (#[trigger] trs@[j]).ilabel == l;
                        assert(f.has_tr(subset@[k as int].state as int, j));
                    }
                }
                if exists|a: int, j: int|
                    0 <= a < k + 1 && #[trigger] f.has_tr(subset@[a].state as int, j) && f.tr(
                        subset@[a].state as int,
                        j,
                    ).ilabel == l {
                    let (a, j) = choose|a: int, j: int|
                        0 <= a < k + 1 && #[trigger] f.has_tr(subset@[a].state as int, j) && f.tr(
                            subset@[a].state as int,
                            j,
                        ).ilabel == l;
                    if a == k {
                        assert(trs@[j].ilabel == l);
                    }
                }
            }
        }
        k += 1;
    }
    labels
}

/// The common divisor of the weights of the items.
pub fn compute_divisor<W: Semiring, CD: CommonDivisor<W>>(items: &Vec<DeterminizeElement<W>>) -> (d:
    W)
    ensures
        d == divisor_of::<W, CD>(items@),
{
    let mut d = W::zero();
    let mut i: usize = 0;
    proof {
        assert(items@.take(0) =~= Seq::<DeterminizeElement<W>>::empty());
    }
    while i < items.len()
        invariant
            i <= items.len(),
            d == divisor_of::<W, CD>(items@.take(i as int)),
        decreases items.len() - i,
    {
        proof {
            assert(items@.take(i as int + 1).drop_last() =~= items@.take(i as int));
            assert(items@.take(i as int + 1).last() == items@[i as int]);
        }
        d = CD::common_divisor(&d, &items[i].weight);
        i += 1;
    }
    proof {
        assert(items@.take(items@.len() as int) =~= items@);
    }
    d
}

/// Merges the item `e` into the canonical `subset`.
pub fn merge_item<W: Semiring>(subset: &mut Vec<DeterminizeElement<W>>, e: DeterminizeElement<W>)
    ensures
        final(subset)@ == insert_merged(old(subset)@, e),
{
    let ghost before = subset@;
    let mut i: usize = subset.len();
    proof {
        assert(before.take(before.len() as int) =~= before);
        assert(before.skip(before.len() as int) =~= Seq::<DeterminizeElement<W>>::empty());
        assert(insert_merged(before, e) =~= insert_merged(before.take(i as int), e) + before.skip(
            i as int,
        ));
    }
    while i > 0 && subset[i - 1].state > e.state
        invariant
            i <= subset.len(),
            subset@ == before,
            insert_merged(before, e) == insert_merged(before.take(i as int), e) + before.skip(
                i as int,
            ),
        decreases i,
    {
        proof {
            let t = before.take(i as int);
            assert(t.last() == before[i - 1]);
            assert(t.drop_last() =~= before.take(i - 1));
            assert(insert_merged(t, e) == insert_merged(t.drop_last(), e).push(t.last()));
            assert(insert_merged(t.drop_last(), e).push(t.last()) + before.skip(i as int)
                =~= insert_merged(before.take(i - 1), e) + before.skip(i - 1));
        }
        i -= 1;
    }
    if i > 0 && subset[i - 1].state == e.state {
        let merged = DeterminizeElement::new(e.state, subset[i - 1].weight.plus(&e.weight));
        subset[i - 1] = merged;
        proof {
            let t = before.take(i as int);
            assert(t.last() == before[i - 1]);
            assert(subset@ =~= t.drop_last().push(merged) + before.skip(i as int));
        }
    } else {
        subset.insert(i, e);
        proof {
            let t = before.take(i as int);
            if i > 0 {
                assert(t.last() == before[i - 1]);
                assert(insert_merged(t, e) == t.push(e));
            } else {
                assert(t =~= Seq::<DeterminizeElement<W>>::empty());
                assert(insert_merged(t, e) =~= t.push(e));
            }
            assert(subset@ =~= t.push(e) + before.skip(i as int));
        }
    }
}

/// The canonical subset of the items.
pub fn canonicalize<W: Semiring>(items: &Vec<DeterminizeElement<W>>) -> (subset: Vec<
    DeterminizeElement<W>,
>)
    ensures
        subset@ == canonical(items@),
{
    let mut subset: Vec<DeterminizeElement<W>> = Vec::new();
    let mut i: usize = 0;
    proof {
        assert(items@.take(0) =~= Seq::<DeterminizeElement<W>>::empty());
    }
    while i < items.len()
        invariant
            i <= items.len(),
            subset@ == canonical(items@.take(i as int)),
        decreases items.len() - i,
    {
        proof {
            assert(items@.take(i as int + 1).drop_last() =~= items@.take(i as int));
            assert(items@.take(i as int + 1).last() == items@[i as int]);
        }
        merge_item(&mut subset, items[i]);
        i += 1;
    }
    proof {
        assert(items@.take(items@.len() as int) =~= items@);
    }
    subset
}

/// Divides each weight of the subset by `d` on the left and puts it in its
/// bin of width `delta`. Where a weight cannot be divided there is no
/// result.
pub fn divide_subset<W: WeaklyDivisibleSemiring + WeightQuantize>(
    subset: &Vec<DeterminizeElement<W>>,
    d: &W,
    delta: u64,
) -> (r: Option<Vec<DeterminizeElement<W>>>)
    ensures
        match r {
            Some(s) => is_divisible(subset@, *d) && s@ == divided(subset@, *d, delta),
            None => !is_divisible(subset@, *d),
        },
{
    let mut out: Vec<DeterminizeElement<W>> = Vec::new();
    let mut i: usize = 0;
    while i < subset.len()
        invariant
            i <= subset.len(),
            out.len() == i,
            forall|j: int|
                0 <= j < i ==> (#[trigger] subset@[j]).weight.divide_spec(
                    *d,
                    DivideType::DivideLeft,
                ) is Some,
            forall|j: int| 0 <= j < i ==> out@[j] == divided(subset@, *d, delta)[j],
        decreases subset.len() - i,
    {
        match subset[i].weight.divide(d, DivideType::DivideLeft) {
            Some(w) => {
                out.push(DeterminizeElement::new(subset[i].state, w.quantize(delta)));
            },
            None => {
                return None;
            },
        }
        i += 1;
    }
    proof {
        assert(out@ =~= divided(subset@, *d, delta));
    }
    Some(out)
}

/// Whether the two subsets have the same elements in the same order.
pub fn subsets_equal<W: Semiring>(
    a: &Vec<DeterminizeElement<W>>,
    b: &Vec<DeterminizeElement<W>>,
) -> (r: bool)
    ensures
        r == (a@ == b@),
{
    if a.len() != b.len() {
        return false;
    }
    let mut i: usize = 0;
    while i < a.len()
        invariant
            i <= a.len(),
            a.len() == b.len(),
            forall|j: int| 0 <= j < i ==> a@[j] == b@[j],
        decreases a.len() - i,
    {
        if !a[i].is_equal(&b[i]) {
            return false;
        }
        i += 1;
    }
    proof {
        assert(a@ =~= b@);
    }
    true
}

/// The weight with which the subset is final.
pub fn compute_subset_final<W: Semiring, F: Fst<W>>(
    fst: &F,
    subset: &Vec<DeterminizeElement<W>>,
) -> (w: W)
    requires
        is_subset_of(subset@, fst@),
    ensures
        w == subset_final(fst@, subset@),
{
    let mut w = W::zero();
    let mut k: usize = 0;
    proof {
        assert(subset@.take(0) =~= Seq::<DeterminizeElement<W>>::empty());
    }
    while k < subset.len()
        invariant
            k <= subset.len(),
            is_subset_of(subset@, fst@),
            w == subset_final(fst@, subset@.take(k as int)),
        decreases subset.len() - k,
    {
        let e = subset[k];
        proof {
            assert(subset@.take(k as int + 1).drop_last() =~= subset@.take(k as int));
            assert(subset@.take(k as int + 1).last() == e);
            assert(subset@[k as int].state < fst@.states.len());
        }
        match fst.final_weight_unchecked(e.state) {
            Some(fw) => {
                w = w.plus(&e.weight.times(&fw));
            },
            None => {},
        }
        k += 1;
    }
    proof {
        assert(subset@.take(subset@.len() as int) =~= subset@);
    }
    w
}

/// The distance of the subset.
pub fn compute_subset_distance<W: Semiring>(
    subset: &Vec<DeterminizeElement<W>>,
    dist: &Vec<W>,
) -> (w: W)
    requires
        forall|i: int| 0 <= i < subset@.len() ==> (#[trigger] subset@[i]).state < dist@.len(),
    ensures
        w == subset_distance(subset@, dist@),
{
    let mut w = W::zero();
    let mut k: usize = 0;
    proof {
        assert(subset@.take(0) =~= Seq::<DeterminizeElement<W>>::empty());
    }
    while k < subset.len()
        invariant
            k <= subset.len(),
            forall|i: int| 0 <= i < subset@.len() ==> (#[trigger] subset@[i]).state < dist@.len(),
            w == subset_distance(subset@.take(k as int), dist@),
        decreases subset.len() - k,
    {
        let e = subset[k];
        proof {
            assert(subset@.take(k as int + 1).drop_last() =~= subset@.take(k as int));
            assert(subset@.take(k as int + 1).last() == e);
            assert(subset@[k as int].state < dist@.len());
        }
        w = w.plus(&e.weight.times(&dist[e.state]));
        k += 1;
    }
    proof {
        assert(subset@.take(subset@.len() as int) =~= subset@);
    }
    w
}

} // verus!
