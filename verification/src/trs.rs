//! Thinning out the list of transitions that leave one state.

use vstd::prelude::*;
use crate::semirings::semiring::Semiring;
use crate::tr::Tr;

verus! {

/// Whether the index `i` occurs in `to_del`.
pub open spec fn is_listed_index(to_del: Seq<usize>, i: int) -> bool {
    exists|j: int| 0 <= j < to_del.len() && to_del[j] == i
}

/// Whether the indices never fall from one place to the next.
pub open spec fn indices_rise(to_del: Seq<usize>) -> bool {
    forall|i: int, j: int| 0 <= i <= j < to_del.len() ==> to_del[i] <= to_del[j]
}

/// The transitions whose index does not occur in `to_del`, in the order they
/// had.
pub open spec fn without_listed<W: Semiring>(trs: Seq<Tr<W>>, to_del: Seq<usize>) -> Seq<Tr<W>>
    decreases trs.len(),
{
    if trs.len() == 0 {
        trs
    } else {
        let rest = without_listed(trs.drop_last(), to_del);
        if is_listed_index(to_del, trs.len() - 1) {
            rest
        } else {
            rest.push(trs.last())
        }
    }
}

/// The transitions that differ from the one before them, in the order they
/// had: of each run of equal transitions the first.
pub open spec fn without_repeats<W: Semiring>(trs: Seq<Tr<W>>) -> Seq<Tr<W>>
    decreases trs.len(),
{
    if trs.len() == 0 {
        trs
    } else {
        let rest = without_repeats(trs.drop_last());
        if trs.len() >= 2 && trs[trs.len() - 2] == trs.last() {
            rest
        } else {
            rest.push(trs.last())
        }
    }
}

/// Whether two transitions carry the same labels to the same state.
pub open spec fn agree<W: Semiring>(a: Tr<W>, b: Tr<W>) -> bool {
    a.ilabel == b.ilabel && a.olabel == b.olabel && a.nextstate == b.nextstate
}

/// The transitions with each run of transitions that agree on labels and
/// target merged into one, whose weight is the `⊕`-sum of theirs, taken from
/// the left.
pub open spec fn summed<W: Semiring>(trs: Seq<Tr<W>>) -> Seq<Tr<W>>
    decreases trs.len(),
{
    if trs.len() == 0 {
        trs
    } else {
        let rest = summed(trs.drop_last());
        let tr = trs.last();
        if rest.len() > 0 && agree(rest.last(), tr) {
            rest.update(
                rest.len() - 1,
                rest.last().with_weight(rest.last().weight.plus_spec(tr.weight)),
            )
        } else {
            rest.push(tr)
        }
    }
}

/// Taking listed transitions away leaves transitions that lead where some
/// of the old ones led.
pub proof fn lemma_without_listed_targets<W: Semiring>(
    trs: Seq<Tr<W>>,
    to_del: Seq<usize>,
    bound: nat,
)
    requires
        forall|i: int| 0 <= i < trs.len() ==> (#[trigger] trs[i]).nextstate < bound,
    ensures
        without_listed(trs, to_del).len() <= trs.len(),
        forall|k: int|
            0 <= k < without_listed(trs, to_del).len() ==> (#[trigger] without_listed(
                trs,
                to_del,
            )[k]).nextstate < bound,
    decreases trs.len(),
{
    if trs.len() > 0 {
        lemma_without_listed_targets(trs.drop_last(), to_del, bound);
    }
}

/// Taking repeated transitions away leaves transitions that lead where
/// some of the old ones led.
pub proof fn lemma_without_repeats_targets<W: Semiring>(trs: Seq<Tr<W>>, bound: nat)
    requires
        forall|i: int| 0 <= i < trs.len() ==> (#[trigger] trs[i]).nextstate < bound,
    ensures
        without_repeats(trs).len() <= trs.len(),
        forall|k: int|
            0 <= k < without_repeats(trs).len() ==> (#[trigger] without_repeats(
                trs,
            )[k]).nextstate < bound,
    decreases trs.len(),
{
    if trs.len() > 0 {
        lemma_without_repeats_targets(trs.drop_last(), bound);
    }
}

/// Merging transitions leaves transitions that lead where some of the old
/// ones led.
pub proof fn lemma_summed_targets<W: Semiring>(trs: Seq<Tr<W>>, bound: nat)
    requires
        forall|i: int| 0 <= i < trs.len() ==> (#[trigger] trs[i]).nextstate < bound,
    ensures
        summed(trs).len() <= trs.len(),
        forall|k: int|
            0 <= k < summed(trs).len() ==> (#[trigger] summed(trs)[k]).nextstate < bound,
    decreases trs.len(),
{
    if trs.len() > 0 {
        lemma_summed_targets(trs.drop_last(), bound);
    }
}

/// Where no two neighbours are equal nothing is taken away.
pub proof fn lemma_without_repeats_of_distinct<W: Semiring>(trs: Seq<Tr<W>>)
    requires
        forall|i: int| 0 < i < trs.len() ==> trs[i - 1] != #[trigger] trs[i],
    ensures
        without_repeats(trs) == trs,
    decreases trs.len(),
{
    if trs.len() > 0 {
        let front = trs.drop_last();
        assert forall|i: int| 0 < i < front.len() implies front[i - 1] != #[trigger] front[i] by {
            assert(front[i] == trs[i]);
            assert(front[i - 1] == trs[i - 1]);
        }
        lemma_without_repeats_of_distinct(front);
        assert(front.push(trs.last()) =~= trs);
    }
}

/// What is left after repeated transitions were taken away holds no two
/// equal neighbours: taking them away once more changes nothing.
pub proof fn lemma_without_repeats_idempotent<W: Semiring>(trs: Seq<Tr<W>>)
    ensures
        without_repeats(without_repeats(trs)) == without_repeats(trs),
        trs.len() > 0 ==> without_repeats(trs).len() > 0 && without_repeats(trs).last()
            == trs.last(),
        forall|i: int|
            0 < i < without_repeats(trs).len() ==> without_repeats(trs)[i - 1]
                != #[trigger] without_repeats(trs)[i],
    decreases trs.len(),
{
    if trs.len() > 0 {
        let front = trs.drop_last();
        lemma_without_repeats_idempotent(front);
        if front.len() > 0 {
            assert(front.last() == trs[trs.len() - 2]);
        }
    }
    lemma_without_repeats_of_distinct(without_repeats(trs));
}

/// The transitions whose index does not occur in `to_del`, which never falls
/// from one place to the next.
pub fn drop_listed<W: Semiring>(trs: &Vec<Tr<W>>, to_del: &[usize]) -> (kept: Vec<Tr<W>>)
    requires
        indices_rise(to_del@),
    ensures
        kept@ == without_listed(trs@, to_del@),
{
    let mut kept: Vec<Tr<W>> = Vec::new();
    let mut i: usize = 0;
    let mut j: usize = 0;
    assert(trs@.take(0) =~= Seq::<Tr<W>>::empty());
    while i < trs.len()
        invariant
            i <= trs.len(),
            j <= to_del.len(),
            indices_rise(to_del@),
            forall|k: int| 0 <= k < j ==> to_del@[k] < i,
            forall|k: int| j <= k < to_del.len() ==> to_del@[k] >= i,
            kept@ == without_listed(trs@.take(i as int), to_del@),
        decreases trs.len() - i,
    {
        let ghost front = trs@.take(i + 1);
        assert(front.drop_last() =~= trs@.take(i as int));
        if j < to_del.len() && to_del[j] == i {
            assert(is_listed_index(to_del@, i as int));
            while j < to_del.len() && to_del[j] == i
                invariant
                    j <= to_del.len(),
                    indices_rise(to_del@),
                    forall|k: int| 0 <= k < j ==> to_del@[k] <= i,
                    forall|k: int| j <= k < to_del.len() ==> to_del@[k] >= i,
                decreases to_del.len() - j,
            {
                j += 1;
            }
            assert forall|k: int| j <= k < to_del.len() implies to_del@[k] >= i + 1 by {
                assert(to_del@[j as int] <= to_del@[k]);
            }
        } else {
            assert(!is_listed_index(to_del@, i as int)) by {
                if is_listed_index(to_del@, i as int) {
                    let k = choose|k: int| 0 <= k < to_del.len() && to_del@[k] == i;
                    if k >= j {
                        assert(to_del@[j as int] <= to_del@[k]);
                    }
                }
            }
            kept.push(trs[i]);
            assert forall|k: int| j <= k < to_del.len() implies to_del@[k] >= i + 1 by {
                assert(to_del@[j as int] <= to_del@[k]);
            }
        }
        i += 1;
    }
    assert(trs@.take(trs@.len() as int) =~= trs@);
    kept
}

/// The transitions that differ from the one before them.
pub fn drop_repeats<W: Semiring>(trs: &Vec<Tr<W>>) -> (kept: Vec<Tr<W>>)
    ensures
        kept@ == without_repeats(trs@),
{
    let mut kept: Vec<Tr<W>> = Vec::new();
    let mut i: usize = 0;
    assert(trs@.take(0) =~= Seq::<Tr<W>>::empty());
    while i < trs.len()
        invariant
            i <= trs.len(),
            kept@ == without_repeats(trs@.take(i as int)),
        decreases trs.len() - i,
    {
        let ghost front = trs@.take(i + 1);
        assert(front.drop_last() =~= trs@.take(i as int));
        if i == 0 || !trs[i - 1].is_equal(&trs[i]) {
            kept.push(trs[i]);
        }
        i += 1;
    }
    assert(trs@.take(trs@.len() as int) =~= trs@);
    kept
}

/// The transitions with each run that agrees on labels and target merged
/// into one.
pub fn sum_runs<W: Semiring>(trs: &Vec<Tr<W>>) -> (merged: Vec<Tr<W>>)
    ensures
        merged@ == summed(trs@),
{
    let mut merged: Vec<Tr<W>> = Vec::new();
    let mut i: usize = 0;
    assert(trs@.take(0) =~= Seq::<Tr<W>>::empty());
    while i < trs.len()
        invariant
            i <= trs.len(),
            merged@ == summed(trs@.take(i as int)),
        decreases trs.len() - i,
    {
        let ghost front = trs@.take(i + 1);
        assert(front.drop_last() =~= trs@.take(i as int));
        let tr = trs[i];
        let n = merged.len();
        if n > 0 && merged[n - 1].ilabel == tr.ilabel && merged[n - 1].olabel == tr.olabel
            && merged[n - 1].nextstate == tr.nextstate {
            let last = merged[n - 1];
            let sum = last.weight.plus(&tr.weight);
            merged.set(n - 1, Tr::new(last.ilabel, last.olabel, sum, last.nextstate));
        } else {
            merged.push(tr);
        }
        i += 1;
    }
    assert(trs@.take(trs@.len() as int) =~= trs@);
    merged
}

} // verus!
