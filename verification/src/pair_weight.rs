//! The weight that a transducer gives a pair of strings.
//!
//! A transducer gives a pair of strings the `⊕`-sum of the weights of its
//! successful paths whose input labels spell the first and whose output
//! labels spell the second string, ε aside. The sum is taken over the paths
//! of a bounded number of transitions, so that it is finite.

use vstd::prelude::*;
use crate::fst_view::FstView;
use crate::semirings::semiring::Semiring;
use crate::tr::{Label, Tr, EPS_LABEL};

verus! {

/// What is left of the string `x` when a transition with label `l` was
/// taken: `x` itself for ε, `x` without its first label where that is `l`,
/// and nothing where the label does not fit.
pub open spec fn consume(l: Label, x: Seq<Label>) -> Option<Seq<Label>> {
    if l == EPS_LABEL {
        Some(x)
    } else if x.len() > 0 && x[0] == l {
        Some(x.drop_first())
    } else {
        None
    }
}

/// The final weight of a state, `0̄` for a state that is not final.
pub open spec fn final_weight_or_zero<W: Semiring>(f: FstView<W>, s: int) -> W {
    match f.states[s].final_weight {
        Some(w) => w,
        None => W::zero_spec(),
    }
}

/// What ending in state `s` contributes to the pair of strings: the final
/// weight of `s` where both strings are spelled out.
pub open spec fn ending_weight<W: Semiring>(f: FstView<W>, s: int, x: Seq<Label>, y: Seq<Label>) -> W {
    if x.len() == 0 && y.len() == 0 {
        final_weight_or_zero(f, s)
    } else {
        W::zero_spec()
    }
}

/// The `⊕`-sum of the weights of the paths from state `s` to a final state
/// that have `k` transitions at most and spell the pair `(x, y)`, each with
/// the final weight it ends with.
pub open spec fn weight_from<W: Semiring>(
    f: FstView<W>,
    s: int,
    x: Seq<Label>,
    y: Seq<Label>,
    k: nat,
) -> W
    decreases k, 0nat, 0nat,
{
    if k == 0 {
        ending_weight(f, s, x, y)
    } else {
        ending_weight(f, s, x, y).plus_spec(
            weight_through(f, f.states[s].trs, x, y, (k - 1) as nat),
        )
    }
}

/// The `⊕`-sum over the transitions `trs` of what the paths that begin with
/// the transition and go on with `k` transitions at most contribute to the
/// pair `(x, y)`.
pub open spec fn weight_through<W: Semiring>(
    f: FstView<W>,
    trs: Seq<Tr<W>>,
    x: Seq<Label>,
    y: Seq<Label>,
    k: nat,
) -> W
    decreases k, 1nat, trs.len(),
{
    if trs.len() == 0 {
        W::zero_spec()
    } else {
        weight_through(f, trs.drop_last(), x, y, k).plus_spec(
            match (consume(trs.last().ilabel, x), consume(trs.last().olabel, y)) {
                (Some(x2), Some(y2)) => trs.last().weight.times_spec(
                    weight_from(f, trs.last().nextstate as int, x2, y2, k),
                ),
                _ => W::zero_spec(),
            },
        )
    }
}

/// The weight that the transducer gives the pair of strings `(x, y)` on its
/// successful paths of `k` transitions at most.
pub open spec fn pair_weight<W: Semiring>(f: FstView<W>, x: Seq<Label>, y: Seq<Label>, k: nat) -> W {
    match f.start {
        Some(s) => weight_from(f, s as int, x, y, k),
        None => W::zero_spec(),
    }
}

/// What a path that begins with the transition `tr` of `g` contributes.
pub open spec fn step_weight<W: Semiring>(
    g: FstView<W>,
    tr: Tr<W>,
    x: Seq<Label>,
    y: Seq<Label>,
    k: nat,
) -> W {
    match (consume(tr.ilabel, x), consume(tr.olabel, y)) {
        (Some(x2), Some(y2)) => tr.weight.times_spec(
            weight_from(g, tr.nextstate as int, x2, y2, k),
        ),
        _ => W::zero_spec(),
    }
}

/// What the transitions contribute, one behind the other.
pub proof fn lemma_weight_through_concat<W: Semiring>(
    g: FstView<W>,
    a: Seq<Tr<W>>,
    b: Seq<Tr<W>>,
    x: Seq<Label>,
    y: Seq<Label>,
    k: nat,
)
    ensures
        weight_through(g, a + b, x, y, k) == weight_through(g, a, x, y, k).plus_spec(
            weight_through(g, b, x, y, k),
        ),
    decreases b.len(),
{
    if b.len() == 0 {
        assert(a + b =~= a);
        W::lemma_plus_zero(weight_through(g, a, x, y, k));
    } else {
        lemma_weight_through_concat(g, a, b.drop_last(), x, y, k);
        assert((a + b).drop_last() =~= a + b.drop_last());
        assert((a + b).last() == b.last());
        W::lemma_plus_associative(
            weight_through(g, a, x, y, k),
            weight_through(g, b.drop_last(), x, y, k),
            step_weight(g, b.last(), x, y, k),
        );
    }
}

/// What one more transition contributes.
pub proof fn lemma_weight_through_push<W: Semiring>(
    g: FstView<W>,
    a: Seq<Tr<W>>,
    tr: Tr<W>,
    x: Seq<Label>,
    y: Seq<Label>,
    k: nat,
)
    ensures
        weight_through(g, a.push(tr), x, y, k) == weight_through(g, a, x, y, k).plus_spec(
            step_weight(g, tr, x, y, k),
        ),
{
    assert(a.push(tr).drop_last() =~= a);
}

/// Where `1̄` is `0̄` every weight is `0̄`.
pub proof fn lemma_trivial_semiring<W: Semiring>(a: W)
    requires
        W::one_spec() == W::zero_spec(),
    ensures
        a == W::zero_spec(),
{
    W::lemma_times_one(a);
    W::lemma_times_zero(a);
}

/// Transitions that contribute nothing each contribute nothing together.
pub proof fn lemma_weight_through_zero<W: Semiring>(
    g: FstView<W>,
    trs: Seq<Tr<W>>,
    x: Seq<Label>,
    y: Seq<Label>,
    k: nat,
)
    requires
        forall|i: int| 0 <= i < trs.len() ==> step_weight(g, #[trigger] trs[i], x, y, k)
            == W::zero_spec(),
    ensures
        weight_through(g, trs, x, y, k) == W::zero_spec(),
    decreases trs.len(),
{
    if trs.len() > 0 {
        assert forall|i: int| 0 <= i < trs.drop_last().len() implies step_weight(
            g,
            #[trigger] trs.drop_last()[i],
            x,
            y,
            k,
        ) == W::zero_spec() by {
            assert(trs.drop_last()[i] == trs[i]);
        }
        lemma_weight_through_zero(g, trs.drop_last(), x, y, k);
        assert(trs.last() == trs[trs.len() - 1]);
        W::lemma_plus_zero(W::zero_spec());
    }
}

/// Transitions that contribute the same one by one contribute the same
/// together.
pub proof fn lemma_weight_through_same<W: Semiring>(
    g: FstView<W>,
    a: Seq<Tr<W>>,
    f: FstView<W>,
    b: Seq<Tr<W>>,
    x: Seq<Label>,
    y: Seq<Label>,
    k: nat,
    j: nat,
)
    requires
        a.len() == b.len(),
        forall|i: int|
            0 <= i < a.len() ==> step_weight(g, #[trigger] a[i], x, y, k) == step_weight(
                f,
                b[i],
                x,
                y,
                j,
            ),
    ensures
        weight_through(g, a, x, y, k) == weight_through(f, b, x, y, j),
    decreases a.len(),
{
    if a.len() > 0 {
        assert forall|i: int| 0 <= i < a.drop_last().len() implies step_weight(
            g,
            #[trigger] a.drop_last()[i],
            x,
            y,
            k,
        ) == step_weight(f, b.drop_last()[i], x, y, j) by {
            assert(a.drop_last()[i] == a[i]);
            assert(b.drop_last()[i] == b[i]);
        }
        lemma_weight_through_same(g, a.drop_last(), f, b.drop_last(), x, y, k, j);
        assert(a.last() == a[a.len() - 1]);
        assert(b.last() == b[b.len() - 1]);
    }
}

} // verus!
