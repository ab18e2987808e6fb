//! Why determinization keeps the weight of every string.
//!
//! An acceptor gives a string the `⊕`-sum of the weights of its successful
//! paths for that string. A determinized acceptor has one path at most for a
//! string. The law at the end of this file says that the weight of that one
//! path is the sum that the given transducer gives.

use vstd::prelude::*;
use crate::algorithms::determinize::determinize_fsa::{is_determinization, start_subset};
use crate::algorithms::determinize::determinize_fsa_op::{is_expansion, is_group_tr};
use crate::algorithms::determinize::divisors::CommonDivisor;
use crate::algorithms::determinize::subset::{
    canonical, divided, has_label, insert_merged, is_canonical, is_divisible,
    is_subset_of, label_items, lemma_canonical, subset_final, subset_items, DeterminizeElement,
    SubsetView,
};
use crate::algorithms::determinize::determinize_fsa_op::lemma_subset_items_states;
use crate::fst_view::FstView;
use crate::semirings::semiring::{
    is_quotient, DivideType, Semiring, WeaklyDivisibleSemiring, WeightQuantize,
};
use crate::tr::{Label, Tr};

verus! {

// ----- the weight that an acceptor gives a string -----

/// What the transitions `trs` with input label `a` of a state that holds `x`
/// carry into state `q`.
pub open spec fn carried_label<W: Semiring>(trs: Seq<Tr<W>>, x: W, a: Label, q: int) -> W
    decreases trs.len(),
{
    if trs.len() == 0 {
        W::zero_spec()
    } else {
        carried_label(trs.drop_last(), x, a, q).plus_spec(
            if trs.last().ilabel == a && trs.last().nextstate == q {
                x.times_spec(trs.last().weight)
            } else {
                W::zero_spec()
            },
        )
    }
}

/// What the transitions with input label `a` of the first `n` states,
/// holding `d`, carry into state `q`.
pub open spec fn inflow_label<W: Semiring>(
    f: FstView<W>,
    d: Seq<W>,
    a: Label,
    q: int,
    n: nat,
) -> W
    decreases n,
{
    if n == 0 {
        W::zero_spec()
    } else {
        inflow_label(f, d, a, q, (n - 1) as nat).plus_spec(
            carried_label(f.states[n - 1].trs, d[n - 1], a, q),
        )
    }
}

/// The `⊕`-sum of the weights of the paths from the start state to state `q`
/// whose input labels spell `x`, taken by their last transition.
pub open spec fn reach<W: Semiring>(f: FstView<W>, x: Seq<Label>, q: int) -> W
    decreases x.len(), 0nat,
{
    if x.len() == 0 {
        match f.start {
            Some(s) => if s == q {
                W::one_spec()
            } else {
                W::zero_spec()
            },
            None => W::zero_spec(),
        }
    } else {
        inflow_label(f, reach_all(f, x.drop_last()), x.last(), q, f.states.len())
    }
}

/// For each state the sum over the paths that spell `x` and end in it.
pub open spec fn reach_all<W: Semiring>(f: FstView<W>, x: Seq<Label>) -> Seq<W>
    decreases x.len(), 1nat,
{
    Seq::new(f.states.len(), |p: int| reach(f, x, p))
}

/// The final weight of a state, `0̄` for a state that is not final.
pub open spec fn final_or_zero<W: Semiring>(f: FstView<W>, q: int) -> W {
    match f.states[q].final_weight {
        Some(w) => w,
        None => W::zero_spec(),
    }
}

/// The sum over the first `n` states of what they hold times their final
/// weight.
pub open spec fn accepted_sum<W: Semiring>(f: FstView<W>, d: Seq<W>, n: nat) -> W
    decreases n,
{
    if n == 0 {
        W::zero_spec()
    } else {
        accepted_sum(f, d, (n - 1) as nat).plus_spec(d[n - 1].times_spec(final_or_zero(f, n - 1)))
    }
}

/// The weight that the acceptor gives the string `x`: the `⊕`-sum over its
/// successful paths that spell `x` of path weight times final weight.
pub open spec fn string_weight<W: Semiring>(f: FstView<W>, x: Seq<Label>) -> W {
    accepted_sum(f, reach_all(f, x), f.states.len())
}

// ----- the one path of a deterministic acceptor -----

/// The last of `trs` with input label `a`.
pub open spec fn tr_with_label<W: Semiring>(trs: Seq<Tr<W>>, a: Label) -> Option<Tr<W>>
    decreases trs.len(),
{
    if trs.len() == 0 {
        None
    } else if trs.last().ilabel == a {
        Some(trs.last())
    } else {
        tr_with_label(trs.drop_last(), a)
    }
}

/// Where the acceptor gets to from its start state when it reads `x` by the
/// transition that `tr_with_label` finds in each state, and the weight of
/// the way; nothing where a transition is missing.
pub open spec fn run<W: Semiring>(g: FstView<W>, x: Seq<Label>) -> Option<(int, W)>
    decreases x.len(),
{
    if x.len() == 0 {
        match g.start {
            Some(s) => Some((s as int, W::one_spec())),
            None => None,
        }
    } else {
        match run(g, x.drop_last()) {
            Some((i, w)) => match tr_with_label(g.states[i].trs, x.last()) {
                Some(t) => Some((t.nextstate as int, w.times_spec(t.weight))),
                None => None,
            },
            None => None,
        }
    }
}

/// The weight that a deterministic acceptor gives the string `x`: that of
/// its one path for `x` times the final weight of the state it ends in.
pub open spec fn det_string_weight<W: Semiring>(g: FstView<W>, x: Seq<Label>) -> W {
    match run(g, x) {
        Some((i, w)) => w.times_spec(final_or_zero(g, i)),
        None => W::zero_spec(),
    }
}

// ----- weighted subsets as vectors -----

/// The residual weight of state `q` in the subset, `0̄` for a state that is
/// not in it.
pub open spec fn weight_at<W: Semiring>(subset: SubsetView<W>, q: int) -> W
    decreases subset.len(),
{
    if subset.len() == 0 {
        W::zero_spec()
    } else if subset.last().state == q {
        subset.last().weight
    } else {
        weight_at(subset.drop_last(), q)
    }
}

/// The sum of the weights of the items with state `q`, in their order.
pub open spec fn sum_at<W: Semiring>(items: SubsetView<W>, q: int) -> W
    decreases items.len(),
{
    if items.len() == 0 {
        W::zero_spec()
    } else {
        sum_at(items.drop_last(), q).plus_spec(
            if items.last().state == q {
                items.last().weight
            } else {
                W::zero_spec()
            },
        )
    }
}

/// What the transitions with input label `a` of the states of the subset
/// carry into state `q`, each state holding its residual weight.
pub open spec fn subset_inflow<W: Semiring>(
    f: FstView<W>,
    subset: SubsetView<W>,
    a: Label,
    q: int,
) -> W
    decreases subset.len(),
{
    if subset.len() == 0 {
        W::zero_spec()
    } else {
        subset_inflow(f, subset.drop_last(), a, q).plus_spec(
            carried_label(
                f.states[subset.last().state as int].trs,
                subset.last().weight,
                a,
                q,
            ),
        )
    }
}

/// The vector that holds at each state `w` times its residual weight in the
/// subset.
pub open spec fn scaled<W: Semiring>(w: W, subset: SubsetView<W>, n: nat) -> Seq<W> {
    Seq::new(n, |p: int| w.times_spec(weight_at(subset, p)))
}

/// Whether binning at width `delta` changes no weight.
pub open spec fn quantize_is_identity<W: WeightQuantize>(delta: u64) -> bool {
    forall|a: W| #[trigger] a.quantize_spec(delta) == a
}

// ----- lemmas -----

/// The vector of what reaches the states holds at each state what reaches it.
proof fn lemma_reach_all<W: Semiring>(f: FstView<W>, x: Seq<Label>)
    ensures
        reach_all(f, x).len() == f.states.len(),
        forall|p: int| 0 <= p < f.states.len() ==> #[trigger] reach_all(f, x)[p] == reach(f, x, p),
{
}

/// A state that is not in the subset has residual weight `0̄`.
proof fn lemma_weight_at_absent<W: Semiring>(subset: SubsetView<W>, q: int)
    requires
        forall|k: int| 0 <= k < subset.len() ==> (#[trigger] subset[k]).state != q,
    ensures
        weight_at(subset, q) == W::zero_spec(),
    decreases subset.len(),
{
    if subset.len() > 0 {
        assert(subset.last() == subset[subset.len() - 1]);
        assert forall|k: int| 0 <= k < subset.drop_last().len() implies (#[trigger] subset.drop_last()[k]).state
            != q by {
            assert(subset.drop_last()[k] == subset[k]);
        }
        lemma_weight_at_absent(subset.drop_last(), q);
    }
}

/// A canonical subset without its last element is canonical.
proof fn lemma_canonical_drop_last<W: Semiring>(subset: SubsetView<W>)
    requires
        is_canonical(subset),
        subset.len() > 0,
    ensures
        is_canonical(subset.drop_last()),
        forall|k: int|
            0 <= k < subset.drop_last().len() ==> (#[trigger] subset.drop_last()[k]).state
                < subset.last().state,
{
    let rest = subset.drop_last();
    assert forall|i: int, j: int| 0 <= i < j < rest.len() implies (#[trigger] rest[i]).state
        < (#[trigger] rest[j]).state by {
        assert(rest[i] == subset[i] && rest[j] == subset[j]);
    }
    assert forall|k: int| 0 <= k < rest.len() implies (#[trigger] rest[k]).state
        < subset.last().state by {
        assert(rest[k] == subset[k]);
        assert(subset.last() == subset[subset.len() - 1]);
    }
}

/// Merging an item adds its weight to the residual weight of its state.
proof fn lemma_weight_at_insert_merged<W: Semiring>(
    subset: SubsetView<W>,
    e: DeterminizeElement<W>,
    q: int,
)
    requires
        is_canonical(subset),
    ensures
        weight_at(insert_merged(subset, e), q) == weight_at(subset, q).plus_spec(
            if e.state == q {
                e.weight
            } else {
                W::zero_spec()
            },
        ),
    decreases subset.len(),
{
    let r = insert_merged(subset, e);
    let added = if e.state == q {
        e.weight
    } else {
        W::zero_spec()
    };
    if subset.len() == 0 {
        W::lemma_plus_zero(e.weight);
        W::lemma_plus_zero(W::zero_spec());
        assert(r =~= seq![e]);
        assert(r.last() == e);
        assert(r.drop_last() =~= Seq::<DeterminizeElement<W>>::empty());
        assert(weight_at(r.drop_last(), q) == W::zero_spec());
        assert(weight_at(r, q) == added);
    } else {
        lemma_canonical_drop_last(subset);
        let rest = subset.drop_last();
        let last = subset.last();
        if last.state == e.state {
            let merged = DeterminizeElement {
                state: e.state,
                weight: last.weight.plus_spec(e.weight),
            };
            assert(r == rest.push(merged));
            assert(r.last() == merged);
            assert(r.drop_last() =~= rest);
            if e.state == q {
                assert(weight_at(r, q) == merged.weight);
                assert(weight_at(subset, q) == last.weight);
            } else {
                assert(weight_at(r, q) == weight_at(rest, q));
                assert(weight_at(subset, q) == weight_at(rest, q));
                W::lemma_plus_zero(weight_at(subset, q));
            }
        } else if last.state < e.state {
            assert(r == subset.push(e));
            assert(r.last() == e);
            assert(r.drop_last() =~= subset);
            if e.state == q {
                assert forall|k: int| 0 <= k < subset.len() implies (#[trigger] subset[k]).state
                    != q by {
                    if k < subset.len() - 1 {
                        assert(rest[k] == subset[k]);
                    } else {
                        assert(subset[k] == last);
                    }
                }
                lemma_weight_at_absent(subset, q);
                W::lemma_plus_zero(e.weight);
                assert(weight_at(r, q) == e.weight);
            } else {
                assert(weight_at(r, q) == weight_at(subset, q));
                W::lemma_plus_zero(weight_at(subset, q));
            }
        } else {
            lemma_weight_at_insert_merged(rest, e, q);
            let m = insert_merged(rest, e);
            assert(r == m.push(last));
            assert(r.last() == last);
            assert(r.drop_last() =~= m);
            if last.state == q {
                assert(weight_at(r, q) == last.weight);
                assert(weight_at(subset, q) == last.weight);
                W::lemma_plus_zero(last.weight);
            } else {
                assert(weight_at(r, q) == weight_at(m, q));
                assert(weight_at(subset, q) == weight_at(rest, q));
            }
        }
    }
}

/// The residual weight of a state in the canonical subset is the sum of the
/// weights of the items with that state.
proof fn lemma_canonical_weight<W: Semiring>(items: SubsetView<W>, q: int, n: nat)
    requires
        forall|i: int| 0 <= i < items.len() ==> (#[trigger] items[i]).state < n,
    ensures
        weight_at(canonical(items), q) == sum_at(items, q),
    decreases items.len(),
{
    if items.len() > 0 {
        assert forall|i: int| 0 <= i < items.drop_last().len() implies (#[trigger] items.drop_last()[i]).state
            < n by {
            assert(items.drop_last()[i] == items[i]);
        }
        lemma_canonical_weight(items.drop_last(), q, n);
        lemma_canonical(items.drop_last(), n);
        lemma_weight_at_insert_merged(canonical(items.drop_last()), items.last(), q);
    }
}

/// The sum over two sequences of items one behind the other.
proof fn lemma_sum_at_concat<W: Semiring>(a: SubsetView<W>, b: SubsetView<W>, q: int)
    ensures
        sum_at(a + b, q) == sum_at(a, q).plus_spec(sum_at(b, q)),
    decreases b.len(),
{
    if b.len() == 0 {
        assert(a + b =~= a);
        W::lemma_plus_zero(sum_at(a, q));
    } else {
        lemma_sum_at_concat(a, b.drop_last(), q);
        assert((a + b).drop_last() =~= a + b.drop_last());
        assert((a + b).last() == b.last());
        let t = if b.last().state == q {
            b.last().weight
        } else {
            W::zero_spec()
        };
        W::lemma_plus_associative(sum_at(a, q), sum_at(b.drop_last(), q), t);
    }
}

/// The items of a state sum up to what the state carries.
proof fn lemma_sum_at_label_items<W: Semiring>(trs: Seq<Tr<W>>, r: W, a: Label, q: int)
    ensures
        sum_at(label_items(trs, r, a), q) == carried_label(trs, r, a, q),
    decreases trs.len(),
{
    if trs.len() > 0 {
        lemma_sum_at_label_items(trs.drop_last(), r, a, q);
        let rest = label_items(trs.drop_last(), r, a);
        if trs.last().ilabel == a {
            let e = DeterminizeElement {
                state: trs.last().nextstate,
                weight: r.times_spec(trs.last().weight),
            };
            assert(rest.push(e).drop_last() =~= rest);
            assert(rest.push(e).last() == e);
        } else {
            W::lemma_plus_zero(carried_label(trs.drop_last(), r, a, q));
        }
    }
}

/// The items of a subset sum up to what the subset carries.
proof fn lemma_sum_at_subset_items<W: Semiring>(
    f: FstView<W>,
    subset: SubsetView<W>,
    a: Label,
    q: int,
)
    ensures
        sum_at(subset_items(f, subset, a), q) == subset_inflow(f, subset, a, q),
    decreases subset.len(),
{
    if subset.len() > 0 {
        lemma_sum_at_subset_items(f, subset.drop_last(), a, q);
        let trs = f.states[subset.last().state as int].trs;
        lemma_sum_at_label_items(trs, subset.last().weight, a, q);
        lemma_sum_at_concat(
            subset_items(f, subset.drop_last(), a),
            label_items(trs, subset.last().weight, a),
            q,
        );
    }
}

/// What a state carries scales with what it holds.
proof fn lemma_carried_label_scale<W: Semiring>(trs: Seq<Tr<W>>, w: W, r: W, a: Label, q: int)
    ensures
        carried_label(trs, w.times_spec(r), a, q) == w.times_spec(carried_label(trs, r, a, q)),
    decreases trs.len(),
{
    if trs.len() == 0 {
        W::lemma_times_zero(w);
    } else {
        lemma_carried_label_scale(trs.drop_last(), w, r, a, q);
        let t = trs.last();
        let rest = carried_label(trs.drop_last(), r, a, q);
        if t.ilabel == a && t.nextstate == q {
            W::lemma_times_associative(w, r, t.weight);
            W::lemma_distributive(w, rest, r.times_spec(t.weight));
        } else {
            W::lemma_times_zero(w);
            W::lemma_distributive(w, rest, W::zero_spec());
        }
    }
}

/// A state that holds `0̄` carries `0̄`.
proof fn lemma_carried_label_zero<W: Semiring>(trs: Seq<Tr<W>>, a: Label, q: int)
    ensures
        carried_label(trs, W::zero_spec(), a, q) == W::zero_spec(),
    decreases trs.len(),
{
    if trs.len() > 0 {
        lemma_carried_label_zero(trs.drop_last(), a, q);
        W::lemma_times_zero(trs.last().weight);
        W::lemma_plus_zero(W::zero_spec());
    }
}

/// What the first `n` states carry depends on what they hold alone.
proof fn lemma_inflow_label_congruent<W: Semiring>(
    f: FstView<W>,
    d: Seq<W>,
    e: Seq<W>,
    a: Label,
    q: int,
    n: nat,
)
    requires
        forall|p: int| 0 <= p < n ==> d[p] == e[p],
    ensures
        inflow_label(f, d, a, q, n) == inflow_label(f, e, a, q, n),
    decreases n,
{
    if n > 0 {
        lemma_inflow_label_congruent(f, d, e, a, q, (n - 1) as nat);
    }
}

/// States that hold `0̄` carry `0̄`.
proof fn lemma_inflow_label_zero<W: Semiring>(f: FstView<W>, d: Seq<W>, a: Label, q: int, n: nat)
    requires
        forall|p: int| 0 <= p < n ==> d[p] == W::zero_spec(),
    ensures
        inflow_label(f, d, a, q, n) == W::zero_spec(),
    decreases n,
{
    if n > 0 {
        lemma_inflow_label_zero(f, d, a, q, (n - 1) as nat);
        lemma_carried_label_zero(f.states[n - 1].trs, a, q);
        W::lemma_plus_zero(W::zero_spec());
    }
}

/// What the states carry when each holds `w` times its residual weight in a
/// canonical subset is `w` times what the subset carries.
proof fn lemma_inflow_of_scaled<W: Semiring>(
    f: FstView<W>,
    w: W,
    subset: SubsetView<W>,
    a: Label,
    q: int,
    n: nat,
    len: nat,
)
    requires
        is_canonical(subset),
        forall|k: int| 0 <= k < subset.len() ==> (#[trigger] subset[k]).state < n,
        n <= len,
    ensures
        inflow_label(f, scaled(w, subset, len), a, q, n) == w.times_spec(
            subset_inflow(f, subset, a, q),
        ),
    decreases n,
{
    let d = scaled(w, subset, len);
    if n == 0 {
        W::lemma_times_zero(w);
    } else {
        let trs = f.states[n - 1].trs;
        if subset.len() > 0 && subset.last().state == n - 1 {
            let rest = subset.drop_last();
            lemma_canonical_drop_last(subset);
            lemma_inflow_of_scaled(f, w, rest, a, q, (n - 1) as nat, len);
            let d_rest = scaled(w, rest, len);
            assert forall|p: int| 0 <= p < n - 1 implies d[p] == d_rest[p] by {}
            lemma_inflow_label_congruent(f, d, d_rest, a, q, (n - 1) as nat);
            lemma_carried_label_scale(trs, w, subset.last().weight, a, q);
            W::lemma_distributive(
                w,
                subset_inflow(f, rest, a, q),
                carried_label(trs, subset.last().weight, a, q),
            );
        } else {
            assert forall|k: int| 0 <= k < subset.len() implies (#[trigger] subset[k]).state < n
                - 1 by {
                if subset[k].state == n - 1 {
                    if k < subset.len() - 1 {
                        assert(subset[k].state < subset[subset.len() - 1].state);
                    }
                    assert(subset.last() == subset[subset.len() - 1]);
                }
            }
            lemma_inflow_of_scaled(f, w, subset, a, q, (n - 1) as nat, len);
            assert forall|k: int| 0 <= k < subset.len() implies (#[trigger] subset[k]).state != n
                - 1 by {}
            lemma_weight_at_absent(subset, n - 1);
            W::lemma_times_zero(w);
            lemma_carried_label_zero(trs, a, q);
            W::lemma_plus_zero(w.times_spec(subset_inflow(f, subset, a, q)));
        }
    }
}

/// What the states are accepted with when each holds `w` times its residual
/// weight in a canonical subset is `w` times the final weight of the subset.
proof fn lemma_accepted_of_scaled<W: Semiring>(
    f: FstView<W>,
    w: W,
    subset: SubsetView<W>,
    n: nat,
    len: nat,
)
    requires
        is_canonical(subset),
        forall|k: int| 0 <= k < subset.len() ==> (#[trigger] subset[k]).state < n,
        n <= len,
    ensures
        accepted_sum(f, scaled(w, subset, len), n) == w.times_spec(subset_final(f, subset)),
    decreases n,
{
    let d = scaled(w, subset, len);
    if n == 0 {
        W::lemma_times_zero(w);
    } else {
        if subset.len() > 0 && subset.last().state == n - 1 {
            let rest = subset.drop_last();
            lemma_canonical_drop_last(subset);
            lemma_accepted_of_scaled(f, w, rest, (n - 1) as nat, len);
            let d_rest = scaled(w, rest, len);
            lemma_accepted_congruent(f, d, d_rest, (n - 1) as nat);
            let r = subset.last().weight;
            match f.states[n - 1].final_weight {
                Some(fw) => {
                    W::lemma_times_associative(w, r, fw);
                    W::lemma_distributive(w, subset_final(f, rest), r.times_spec(fw));
                },
                None => {
                    W::lemma_times_zero(w.times_spec(r));
                    W::lemma_plus_zero(w.times_spec(subset_final(f, rest)));
                },
            }
        } else {
            assert forall|k: int| 0 <= k < subset.len() implies (#[trigger] subset[k]).state < n
                - 1 by {
                if subset[k].state == n - 1 {
                    if k < subset.len() - 1 {
                        assert(subset[k].state < subset[subset.len() - 1].state);
                    }
                    assert(subset.last() == subset[subset.len() - 1]);
                }
            }
            lemma_accepted_of_scaled(f, w, subset, (n - 1) as nat, len);
            assert forall|k: int| 0 <= k < subset.len() implies (#[trigger] subset[k]).state != n
                - 1 by {}
            lemma_weight_at_absent(subset, n - 1);
            W::lemma_times_zero(w);
            W::lemma_times_zero(final_or_zero(f, n - 1));
            W::lemma_plus_zero(w.times_spec(subset_final(f, subset)));
        }
    }
}

/// What the first `n` states are accepted with depends on what they hold
/// alone.
proof fn lemma_accepted_congruent<W: Semiring>(f: FstView<W>, d: Seq<W>, e: Seq<W>, n: nat)
    requires
        forall|p: int| 0 <= p < n ==> d[p] == e[p],
    ensures
        accepted_sum(f, d, n) == accepted_sum(f, e, n),
    decreases n,
{
    if n > 0 {
        lemma_accepted_congruent(f, d, e, (n - 1) as nat);
    }
}

/// States that hold `0̄` are accepted with `0̄`.
proof fn lemma_accepted_zero<W: Semiring>(f: FstView<W>, d: Seq<W>, n: nat)
    requires
        forall|p: int| 0 <= p < n ==> d[p] == W::zero_spec(),
    ensures
        accepted_sum(f, d, n) == W::zero_spec(),
    decreases n,
{
    if n > 0 {
        lemma_accepted_zero(f, d, (n - 1) as nat);
        W::lemma_times_zero(final_or_zero(f, n - 1));
        W::lemma_plus_zero(W::zero_spec());
    }
}

/// The divisor times the residual weight after division is the weight
/// before it.
proof fn lemma_divided_weight<W: WeaklyDivisibleSemiring + WeightQuantize>(
    subset: SubsetView<W>,
    d: W,
    delta: u64,
    q: int,
)
    requires
        is_divisible(subset, d),
        quantize_is_identity::<W>(delta),
    ensures
        d.times_spec(weight_at(divided(subset, d, delta), q)) == weight_at(subset, q),
    decreases subset.len(),
{
    let out = divided(subset, d, delta);
    if subset.len() == 0 {
        W::lemma_times_zero(d);
    } else {
        let last = subset.last();
        assert(last == subset[subset.len() - 1]);
        assert(out.last() == out[out.len() - 1]);
        assert(out.drop_last() =~= divided(subset.drop_last(), d, delta));
        if last.state == q {
            W::lemma_divide_is_quotient(last.weight, d, DivideType::DivideLeft);
            let c = last.weight.divide_spec(d, DivideType::DivideLeft)->0;
            assert(c.quantize_spec(delta) == c);
            assert(is_quotient(last.weight, d, c, DivideType::DivideLeft));
        } else {
            assert(is_divisible(subset.drop_last(), d)) by {
                assert forall|i: int| 0 <= i < subset.drop_last().len() implies (#[trigger] subset.drop_last()[i]).weight.divide_spec(
                    d,
                    DivideType::DivideLeft,
                ) is Some by {
                    assert(subset.drop_last()[i] == subset[i]);
                }
            }
            lemma_divided_weight(subset.drop_last(), d, delta, q);
        }
    }
}

/// A subset stays canonical and within the states when its weights are
/// divided.
proof fn lemma_divided_canonical<W: WeaklyDivisibleSemiring + WeightQuantize>(
    subset: SubsetView<W>,
    d: W,
    delta: u64,
    n: nat,
)
    requires
        is_canonical(subset),
        forall|k: int| 0 <= k < subset.len() ==> (#[trigger] subset[k]).state < n,
    ensures
        is_canonical(divided(subset, d, delta)),
        forall|k: int|
            0 <= k < divided(subset, d, delta).len() ==> (#[trigger] divided(
                subset,
                d,
                delta,
            )[k]).state < n,
{
    let out = divided(subset, d, delta);
    assert forall|i: int, j: int| 0 <= i < j < out.len() implies (#[trigger] out[i]).state
        < (#[trigger] out[j]).state by {
        assert(subset[i].state < subset[j].state);
    }
    assert forall|k: int| 0 <= k < out.len() implies (#[trigger] out[k]).state < n by {
        assert(subset[k].state < n);
    }
}

/// The transition that `tr_with_label` finds is one of the transitions and
/// has the label; where it finds none there is none.
pub proof fn lemma_tr_with_label<W: Semiring>(trs: Seq<Tr<W>>, a: Label)
    ensures
        match tr_with_label(trs, a) {
            Some(t) => t.ilabel == a && exists|k: int| 0 <= k < trs.len() && trs[k] == t,
            None => forall|k: int| 0 <= k < trs.len() ==> (#[trigger] trs[k]).ilabel != a,
        },
    decreases trs.len(),
{
    if trs.len() > 0 {
        if trs.last().ilabel == a {
            assert(trs[trs.len() - 1] == trs.last());
        } else {
            lemma_tr_with_label(trs.drop_last(), a);
            match tr_with_label(trs.drop_last(), a) {
                Some(t) => {
                    let k = choose|k: int| 0 <= k < trs.drop_last().len() && trs.drop_last()[k] == t;
                    assert(trs[k] == t);
                },
                None => {
                    assert forall|k: int| 0 <= k < trs.len() implies (#[trigger] trs[k]).ilabel
                        != a by {
                        if k < trs.len() - 1 {
                            assert(trs.drop_last()[k] == trs[k]);
                        }
                    }
                },
            }
        }
    }
}

/// A subset without a transition for a label has no item for it.
proof fn lemma_no_label_no_items<W: Semiring>(f: FstView<W>, subset: SubsetView<W>, a: Label, q: int)
    requires
        is_subset_of(subset, f),
        !has_label(f, subset, a),
    ensures
        subset_inflow(f, subset, a, q) == W::zero_spec(),
    decreases subset.len(),
{
    if subset.len() > 0 {
        let rest = subset.drop_last();
        assert(is_subset_of(rest, f)) by {
            assert forall|i: int| 0 <= i < rest.len() implies (#[trigger] rest[i]).state
                < f.states.len() by {
                assert(rest[i] == subset[i]);
            }
        }
        assert(!has_label(f, rest, a)) by {
            if has_label(f, rest, a) {
                let (k, i) = choose|k: int, i: int|
                    0 <= k < rest.len() && #[trigger] f.has_tr(rest[k].state as int, i) && f.tr(
                        rest[k].state as int,
                        i,
                    ).ilabel == a;
                assert(rest[k] == subset[k]);
                assert(f.has_tr(subset[k].state as int, i));
            }
        }
        lemma_no_label_no_items(f, rest, a, q);
        let s = subset.last().state as int;
        assert(subset.last() == subset[subset.len() - 1]);
        assert forall|i: int| 0 <= i < f.states[s].trs.len() implies (#[trigger] f.states[s].trs[i]).ilabel
            != a by {
            assert(f.has_tr(subset[subset.len() - 1].state as int, i));
        }
        lemma_carried_without_label(f, s, f.states[s].trs.len(), subset.last().weight, a, q);
        assert(f.states[s].trs.take(f.states[s].trs.len() as int) =~= f.states[s].trs);
        W::lemma_plus_zero(W::zero_spec());
    }
}

/// Transitions without the label carry nothing for it.
proof fn lemma_carried_without_label<W: Semiring>(
    f: FstView<W>,
    s: int,
    m: nat,
    x: W,
    a: Label,
    q: int,
)
    requires
        0 <= s < f.states.len(),
        m <= f.states[s].trs.len(),
        forall|i: int| 0 <= i < f.states[s].trs.len() ==> (#[trigger] f.states[s].trs[i]).ilabel != a,
    ensures
        carried_label(f.states[s].trs.take(m as int), x, a, q) == W::zero_spec(),
    decreases m,
{
    let trs = f.states[s].trs;
    if m > 0 {
        lemma_carried_without_label(f, s, (m - 1) as nat, x, a, q);
        assert(trs.take(m as int).drop_last() =~= trs.take(m - 1));
        assert(trs.take(m as int).last() == trs[m - 1]);
        W::lemma_plus_zero(W::zero_spec());
    }
}

/// What holds after each string that the determinized acceptor reads: where
/// it gets to a state with some weight, each state of the given transducer is
/// reached with that weight times its residual weight in the subset of the
/// state; where it gets nowhere, no state of the given transducer is reached.
pub open spec fn tracks<W: WeaklyDivisibleSemiring + WeightQuantize>(
    f: FstView<W>,
    g: FstView<W>,
    table: Seq<SubsetView<W>>,
    x: Seq<Label>,
) -> bool {
    match run(g, x) {
        Some((i, w)) => 0 <= i < table.len() && is_canonical(table[i]) && reach_all(f, x)
            == scaled(w, table[i], f.states.len()),
        None => forall|q: int| 0 <= q < f.states.len() ==> reach(f, x, q) == W::zero_spec(),
    }
}

/// The determinized acceptor tracks the given transducer along every string.
pub proof fn lemma_determinization_tracks<
    W: WeaklyDivisibleSemiring + WeightQuantize,
    CD: CommonDivisor<W>,
>(f: FstView<W>, g: FstView<W>, table: Seq<SubsetView<W>>, delta: u64, x: Seq<Label>)
    requires
        f.graph_wf(),
        is_determinization::<W, CD>(f, g, table, delta),
        quantize_is_identity::<W>(delta),
    ensures
        tracks(f, g, table, x),
    decreases x.len(),
{
    let n = f.states.len();
    lemma_reach_all(f, x);
    if x.len() == 0 {
        match f.start {
            Some(s) => {
                let t0 = start_subset::<W>(s);
                assert(table[0] == t0);
                assert(run(g, x) == Some((0int, W::one_spec())));
                assert(is_canonical(t0));
                assert forall|q: int| 0 <= q < n implies reach(f, x, q) == W::one_spec().times_spec(
                    weight_at(t0, q),
                ) by {
                    assert(t0.len() == 1);
                    assert(t0.last() == t0[0]);
                    assert(t0[0] == (DeterminizeElement { state: s, weight: W::one_spec() }));
                    assert(t0.drop_last() =~= Seq::<DeterminizeElement<W>>::empty());
                    assert(weight_at(t0.drop_last(), q) == W::zero_spec());
                    assert(weight_at(t0, q) == if s == q {
                        W::one_spec()
                    } else {
                        W::zero_spec()
                    });
                    assert(reach(f, x, q) == if s == q {
                        W::one_spec()
                    } else {
                        W::zero_spec()
                    });
                    W::lemma_times_one(W::one_spec());
                    W::lemma_times_zero(W::one_spec());
                }
                assert(reach_all(f, x) =~= scaled(W::one_spec(), table[0], n));
            },
            None => {},
        }
    } else {
        let y = x.drop_last();
        let a = x.last();
        lemma_determinization_tracks::<W, CD>(f, g, table, delta, y);
        lemma_reach_all(f, y);
        match run(g, y) {
            Some((i, w)) => {
                let subset = table[i];
                let trs = g.states[i].trs;
                assert(is_expansion::<W, CD>(f, subset, trs, table, delta));
                assert(is_subset_of(subset, f));
                lemma_tr_with_label(trs, a);
                match tr_with_label(trs, a) {
                    Some(t) => {
                        let k = choose|k: int| 0 <= k < trs.len() && trs[k] == t;
                        assert(is_group_tr::<W, CD>(f, subset, trs[k], table, delta));
                        let items = subset_items(f, subset, a);
                        let c = canonical(items);
                        let j = t.nextstate as int;
                        lemma_subset_items_states(f, subset, a);
                        lemma_canonical(items, n);
                        lemma_divided_canonical(c, t.weight, delta, n);
                        assert forall|q: int| 0 <= q < n implies reach(f, x, q) == w.times_spec(
                            t.weight,
                        ).times_spec(weight_at(table[j], q)) by {
                            lemma_inflow_of_scaled(f, w, subset, a, q, n, n);
                            lemma_sum_at_subset_items(f, subset, a, q);
                            lemma_canonical_weight(items, q, n);
                            lemma_divided_weight(c, t.weight, delta, q);
                            W::lemma_times_associative(w, t.weight, weight_at(table[j], q));
                        }
                        assert(reach_all(f, x) =~= scaled(w.times_spec(t.weight), table[j], n));
                    },
                    None => {
                        assert(!has_label(f, subset, a)) by {
                            if has_label(f, subset, a) {
                                let k = choose|k: int|
                                    0 <= k < trs.len() && (#[trigger] trs[k]).ilabel == a;
                                assert(false);
                            }
                        }
                        assert forall|q: int| 0 <= q < n implies reach(f, x, q)
                            == W::zero_spec() by {
                            lemma_inflow_of_scaled(f, w, subset, a, q, n, n);
                            lemma_no_label_no_items(f, subset, a, q);
                            W::lemma_times_zero(w);
                        }
                    },
                }
            },
            None => {
                assert forall|q: int| 0 <= q < n implies reach(f, x, q) == W::zero_spec() by {
                    lemma_inflow_label_zero(f, reach_all(f, y), a, q, n);
                }
            },
        }
    }
}

/// Determinization keeps the weight of every string: the weight of the one
/// path that the determinized acceptor has for a string is the sum of the
/// weights of the successful paths that the given transducer has for it. This holds
/// where binning at the width in use changes no weight.
pub proof fn lemma_determinization_keeps_weights<
    W: WeaklyDivisibleSemiring + WeightQuantize,
    CD: CommonDivisor<W>,
>(f: FstView<W>, g: FstView<W>, table: Seq<SubsetView<W>>, delta: u64, x: Seq<Label>)
    requires
        f.graph_wf(),
        is_determinization::<W, CD>(f, g, table, delta),
        quantize_is_identity::<W>(delta),
    ensures
        det_string_weight(g, x) == string_weight(f, x),
{
    let n = f.states.len();
    lemma_determinization_tracks::<W, CD>(f, g, table, delta, x);
    lemma_reach_all(f, x);
    match run(g, x) {
        Some((i, w)) => {
            assert(is_subset_of(table[i], f));
            lemma_accepted_of_scaled(f, w, table[i], n, n);
            let sf = subset_final(f, table[i]);
            if sf == W::zero_spec() {
                W::lemma_times_zero(w);
            }
        },
        None => {
            lemma_accepted_zero(f, reach_all(f, x), n);
        },
    }
}

/// Binning changes no Boolean weight and no counting weight, whatever the
/// width, and no tropical weight at a width of one or none.
pub proof fn lemma_quantize_is_identity(delta: u64)
    ensures
        quantize_is_identity::<crate::semirings::boolean_weight::BooleanWeight>(delta),
        quantize_is_identity::<crate::semirings::integer_weight::IntegerWeight>(delta),
        delta <= 1 ==> quantize_is_identity::<crate::semirings::tropical_weight::TropicalWeight>(
            delta,
        ),
{
}

} // verus!
