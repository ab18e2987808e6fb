//! That the determinized acceptor accepts the strings that the acceptor
//! accepts, whatever the width of the bins: binning changes what a string
//! weighs, never whether it has a weight. This holds where no weight is lost
//! on the way, with the `⊕`-sum as the common divisor.

use vstd::prelude::*;
use crate::algorithms::determinize::determinize_fsa::{is_determinization, start_subset};
use crate::algorithms::determinize::determinize_fsa_op::{is_expansion, is_group_tr};
use crate::algorithms::determinize::divisors::DefaultCommonDivisor;
use crate::algorithms::determinize::language::{
    accepted_sum, carried_label, det_string_weight, final_or_zero, inflow_label,
    lemma_tr_with_label, reach, reach_all, run, string_weight, tr_with_label,
};
use crate::algorithms::determinize::subset::{
    canonical, divided, divisor_of, has_label, insert_merged, is_divisible, is_subset_of,
    label_items, subset_final, subset_items, DeterminizeElement, SubsetView,
};
use crate::algorithms::shortest_distance::keeps_weights_nonzero;
use crate::fst_view::FstView;
use crate::semirings::semiring::{
    has_no_zero_divisors, is_zero_sum_free, DivideType, Semiring, WeaklyDivisibleSemiring,
    WeightQuantize,
};
use crate::tr::{Label, Tr};

verus! {

/// Whether state `q` is in the subset.
pub open spec fn holds_state<W: Semiring>(subset: SubsetView<W>, q: int) -> bool {
    exists|k: int| 0 <= k < subset.len() && (#[trigger] subset[k]).state == q
}

/// Whether no weight of the subset is `0̄`.
pub open spec fn all_nonzero<W: Semiring>(subset: SubsetView<W>) -> bool {
    forall|k: int| 0 <= k < subset.len() ==> (#[trigger] subset[k]).weight != W::zero_spec()
}

/// Whether one of the transitions has the input label `a` and leads to
/// state `q`.
pub open spec fn leads_by<W: Semiring>(trs: Seq<Tr<W>>, a: Label, q: int) -> bool {
    exists|i: int| 0 <= i < trs.len() && (#[trigger] trs[i]).ilabel == a && trs[i].nextstate == q
}

/// Whether a state of the subset has a transition with the input label `a`
/// that leads to state `q`.
pub open spec fn leads_from<W: Semiring>(
    f: FstView<W>,
    subset: SubsetView<W>,
    a: Label,
    q: int,
) -> bool {
    exists|k: int|
        0 <= k < subset.len() && leads_by(f.states[(#[trigger] subset[k]).state as int].trs, a, q)
}

/// Whether no weight among the transitions is `0̄`.
pub open spec fn weights_nonzero<W: Semiring>(trs: Seq<Tr<W>>) -> bool {
    forall|i: int| 0 <= i < trs.len() ==> (#[trigger] trs[i]).weight != W::zero_spec()
}

/// The items of a state with a weight other than `0̄` have such weights,
/// and their states are the targets of its transitions with the label.
proof fn lemma_label_items<W: Semiring>(trs: Seq<Tr<W>>, r: W, a: Label)
    requires
        r != W::zero_spec(),
        weights_nonzero(trs),
        has_no_zero_divisors::<W>(),
    ensures
        all_nonzero(label_items(trs, r, a)),
        forall|q: int| holds_state(label_items(trs, r, a), q) <==> leads_by(trs, a, q),
    decreases trs.len(),
{
    let items = label_items(trs, r, a);
    if trs.len() == 0 {
        assert forall|q: int| holds_state(items, q) <==> leads_by(trs, a, q) by {}
    } else {
        let front = trs.drop_last();
        let rest = label_items(front, r, a);
        let t = trs.last();
        assert(t == trs[trs.len() - 1]);
        assert(weights_nonzero(front)) by {
            assert forall|i: int| 0 <= i < front.len() implies (#[trigger] front[i]).weight
                != W::zero_spec() by {
                assert(front[i] == trs[i]);
            }
        }
        lemma_label_items(front, r, a);
        assert forall|q: int| leads_by(trs, a, q) <==> leads_by(front, a, q) || (t.ilabel == a
            && t.nextstate == q) by {
            if leads_by(trs, a, q) {
                let i = choose|i: int|
                    0 <= i < trs.len() && (#[trigger] trs[i]).ilabel == a && trs[i].nextstate == q;
                if i < front.len() {
                    assert(front[i] == trs[i]);
                }
            }
            if leads_by(front, a, q) {
                let i = choose|i: int|
                    0 <= i < front.len() && (#[trigger] front[i]).ilabel == a && front[i].nextstate
                        == q;
                assert(trs[i] == front[i]);
            }
        }
        if t.ilabel == a {
            let e = DeterminizeElement { state: t.nextstate, weight: r.times_spec(t.weight) };
            assert(items == rest.push(e));
            assert forall|k: int| 0 <= k < items.len() implies (#[trigger] items[k]).weight
                != W::zero_spec() by {
                if k < rest.len() {
                    assert(items[k] == rest[k]);
                }
            }
            assert forall|q: int| holds_state(items, q) <==> leads_by(trs, a, q) by {
                if holds_state(items, q) {
                    let k = choose|k: int| 0 <= k < items.len() && (#[trigger] items[k]).state == q;
                    if k < rest.len() {
                        assert(rest[k] == items[k]);
                        assert(holds_state(rest, q));
                    }
                }
                if holds_state(rest, q) {
                    let k = choose|k: int| 0 <= k < rest.len() && (#[trigger] rest[k]).state == q;
                    assert(items[k] == rest[k]);
                }
                if t.nextstate == q {
                    assert(items[rest.len() as int] == e);
                }
            }
        } else {
            assert forall|q: int| holds_state(items, q) <==> leads_by(trs, a, q) by {}
        }
    }
}

/// A state is in two sequences of items, one behind the other, where it is
/// in one of them.
proof fn lemma_holds_state_concat<W: Semiring>(a: SubsetView<W>, b: SubsetView<W>, q: int)
    ensures
        holds_state(a + b, q) <==> holds_state(a, q) || holds_state(b, q),
{
    let c = a + b;
    if holds_state(c, q) {
        let k = choose|k: int| 0 <= k < c.len() && (#[trigger] c[k]).state == q;
        if k < a.len() {
            assert(a[k] == c[k]);
        } else {
            assert(b[k - a.len()] == c[k]);
        }
    }
    if holds_state(a, q) {
        let k = choose|k: int| 0 <= k < a.len() && (#[trigger] a[k]).state == q;
        assert(c[k] == a[k]);
    }
    if holds_state(b, q) {
        let k = choose|k: int| 0 <= k < b.len() && (#[trigger] b[k]).state == q;
        assert(c[a.len() + k] == b[k]);
    }
}

/// The items of a subset without the weight `0̄` have no such weight, and
/// their states are the targets of the transitions with the label that
/// leave its states.
proof fn lemma_subset_items<W: Semiring>(f: FstView<W>, subset: SubsetView<W>, a: Label)
    requires
        f.graph_wf(),
        keeps_weights_nonzero(f),
        is_subset_of(subset, f),
        all_nonzero(subset),
    ensures
        all_nonzero(subset_items(f, subset, a)),
        forall|q: int| holds_state(subset_items(f, subset, a), q) <==> leads_from(f, subset, a, q),
    decreases subset.len(),
{
    let items = subset_items(f, subset, a);
    if subset.len() == 0 {
        assert forall|q: int| holds_state(items, q) <==> leads_from(f, subset, a, q) by {}
    } else {
        let front = subset.drop_last();
        let e = subset.last();
        assert(e == subset[subset.len() - 1]);
        let trs = f.states[e.state as int].trs;
        let rest = subset_items(f, front, a);
        let more = label_items(trs, e.weight, a);
        assert(is_subset_of(front, f) && all_nonzero(front)) by {
            assert forall|k: int| 0 <= k < front.len() implies (#[trigger] front[k]).state
                < f.states.len() && front[k].weight != W::zero_spec() by {
                assert(front[k] == subset[k]);
            }
        }
        lemma_subset_items(f, front, a);
        assert(weights_nonzero(trs)) by {
            assert forall|i: int| 0 <= i < trs.len() implies (#[trigger] trs[i]).weight
                != W::zero_spec() by {
                assert(f.has_tr(e.state as int, i));
            }
        }
        lemma_label_items(trs, e.weight, a);
        assert forall|k: int| 0 <= k < items.len() implies (#[trigger] items[k]).weight
            != W::zero_spec() by {
            if k < rest.len() {
                assert(items[k] == rest[k]);
            } else {
                assert(items[k] == more[k - rest.len()]);
            }
        }
        assert forall|q: int| holds_state(items, q) <==> leads_from(f, subset, a, q) by {
            lemma_holds_state_concat(rest, more, q);
            if leads_from(f, subset, a, q) {
                let k = choose|k: int|
                    0 <= k < subset.len() && leads_by(
                        f.states[(#[trigger] subset[k]).state as int].trs,
                        a,
                        q,
                    );
                if k < front.len() {
                    assert(front[k] == subset[k]);
                    assert(leads_from(f, front, a, q));
                }
            }
            if leads_from(f, front, a, q) {
                let k = choose|k: int|
                    0 <= k < front.len() && leads_by(
                        f.states[(#[trigger] front[k]).state as int].trs,
                        a,
                        q,
                    );
                assert(subset[k] == front[k]);
            }
        }
    }
}

/// Merging an item with a weight other than `0̄` into a subset without the
/// weight `0̄` gives such a subset, which holds the states of the subset
/// and that of the item.
proof fn lemma_insert_merged_states<W: Semiring>(subset: SubsetView<W>, e: DeterminizeElement<W>)
    requires
        all_nonzero(subset),
        e.weight != W::zero_spec(),
        is_zero_sum_free::<W>(),
    ensures
        all_nonzero(insert_merged(subset, e)),
        forall|q: int|
            holds_state(insert_merged(subset, e), q) <==> holds_state(subset, q) || e.state == q,
    decreases subset.len(),
{
    let out = insert_merged(subset, e);
    if subset.len() == 0 {
        assert(out[0] == e);
        assert forall|q: int| holds_state(out, q) <==> holds_state(subset, q) || e.state
            == q by {}
    } else {
        let front = subset.drop_last();
        let last = subset.last();
        assert(last == subset[subset.len() - 1]);
        assert(all_nonzero(front)) by {
            assert forall|k: int| 0 <= k < front.len() implies (#[trigger] front[k]).weight
                != W::zero_spec() by {
                assert(front[k] == subset[k]);
            }
        }
        assert forall|q: int| holds_state(subset, q) <==> holds_state(front, q) || last.state
            == q by {
            if holds_state(subset, q) {
                let k = choose|k: int| 0 <= k < subset.len() && (#[trigger] subset[k]).state == q;
                if k < front.len() {
                    assert(front[k] == subset[k]);
                }
            }
            if holds_state(front, q) {
                let k = choose|k: int| 0 <= k < front.len() && (#[trigger] front[k]).state == q;
                assert(subset[k] == front[k]);
            }
        }
        if last.state == e.state {
            let merged = DeterminizeElement {
                state: e.state,
                weight: last.weight.plus_spec(e.weight),
            };
            lemma_push_states(front, merged);
            assert(out == front.push(merged));
            assert forall|q: int| holds_state(out, q) <==> holds_state(subset, q) || e.state
                == q by {
                assert(holds_state(front.push(merged), q) <==> holds_state(front, q)
                    || merged.state == q);
                assert(holds_state(subset, q) <==> holds_state(front, q) || last.state == q);
            }
        } else if last.state < e.state {
            lemma_push_states(subset, e);
            assert(out == subset.push(e));
            assert forall|q: int| holds_state(out, q) <==> holds_state(subset, q) || e.state
                == q by {
                assert(holds_state(subset.push(e), q) <==> holds_state(subset, q) || e.state == q);
            }
        } else {
            let inner = insert_merged(front, e);
            lemma_insert_merged_states(front, e);
            lemma_push_states(inner, last);
            assert(out == inner.push(last));
            assert forall|q: int| holds_state(out, q) <==> holds_state(subset, q) || e.state
                == q by {
                assert(holds_state(inner.push(last), q) <==> holds_state(inner, q) || last.state
                    == q);
                assert(holds_state(inner, q) <==> holds_state(front, q) || e.state == q);
                assert(holds_state(subset, q) <==> holds_state(front, q) || last.state == q);
            }
        }
    }
}

/// A subset with one more element holds the states it held and that of
/// the element, and no weight `0̄` where it held none and the element has
/// another.
proof fn lemma_push_states<W: Semiring>(subset: SubsetView<W>, e: DeterminizeElement<W>)
    ensures
        all_nonzero(subset) && e.weight != W::zero_spec() ==> all_nonzero(subset.push(e)),
        forall|q: int| holds_state(subset.push(e), q) <==> holds_state(subset, q) || e.state == q,
{
    let out = subset.push(e);
    if all_nonzero(subset) && e.weight != W::zero_spec() {
        assert forall|k: int| 0 <= k < out.len() implies (#[trigger] out[k]).weight
            != W::zero_spec() by {
            if k < subset.len() {
                assert(out[k] == subset[k]);
            }
        }
    }
    assert forall|q: int| holds_state(out, q) <==> holds_state(subset, q) || e.state == q by {
        if holds_state(out, q) {
            let k = choose|k: int| 0 <= k < out.len() && (#[trigger] out[k]).state == q;
            if k < subset.len() {
                assert(subset[k] == out[k]);
            }
        }
        if holds_state(subset, q) {
            let k = choose|k: int| 0 <= k < subset.len() && (#[trigger] subset[k]).state == q;
            assert(out[k] == subset[k]);
        }
        if e.state == q {
            assert(out[subset.len() as int] == e);
        }
    }
}

/// The canonical subset of items without the weight `0̄` has no such
/// weight and holds their states.
proof fn lemma_canonical_states<W: Semiring>(items: SubsetView<W>)
    requires
        all_nonzero(items),
        is_zero_sum_free::<W>(),
    ensures
        all_nonzero(canonical(items)),
        forall|q: int| holds_state(canonical(items), q) <==> holds_state(items, q),
    decreases items.len(),
{
    if items.len() == 0 {
        assert forall|q: int| holds_state(canonical(items), q) <==> holds_state(items, q) by {}
    } else {
        let front = items.drop_last();
        let e = items.last();
        assert(e == items[items.len() - 1]);
        assert(all_nonzero(front)) by {
            assert forall|k: int| 0 <= k < front.len() implies (#[trigger] front[k]).weight
                != W::zero_spec() by {
                assert(front[k] == items[k]);
            }
        }
        lemma_canonical_states(front);
        lemma_insert_merged_states(canonical(front), e);
        assert(front.push(e) =~= items);
        lemma_push_states(front, e);
        assert forall|q: int| holds_state(canonical(items), q) <==> holds_state(items, q) by {
            assert(holds_state(insert_merged(canonical(front), e), q) <==> holds_state(
                canonical(front),
                q,
            ) || e.state == q);
            assert(holds_state(canonical(front), q) <==> holds_state(front, q));
            assert(holds_state(front.push(e), q) <==> holds_state(front, q) || e.state == q);
        }
    }
}

/// The sum of the weights of items is not `0̄` where there is an item and
/// none has the weight `0̄`.
proof fn lemma_divisor_nonzero<W: Semiring>(items: SubsetView<W>)
    requires
        items.len() > 0,
        all_nonzero(items),
        is_zero_sum_free::<W>(),
    ensures
        divisor_of::<W, DefaultCommonDivisor>(items) != W::zero_spec(),
{
    assert(items.last() == items[items.len() - 1]);
}

/// Dividing a subset without the weight `0̄` and binning what is left gives
/// such a subset with the same states.
proof fn lemma_divided_states<W: WeaklyDivisibleSemiring + WeightQuantize>(
    c: SubsetView<W>,
    d: W,
    delta: u64,
)
    requires
        all_nonzero(c),
        is_divisible(c, d),
    ensures
        all_nonzero(divided(c, d, delta)),
        forall|q: int| holds_state(divided(c, d, delta), q) <==> holds_state(c, q),
{
    let out = divided(c, d, delta);
    assert forall|k: int| 0 <= k < out.len() implies (#[trigger] out[k]).weight
        != W::zero_spec() by {
        let z = c[k].weight.divide_spec(d, DivideType::DivideLeft)->0;
        W::lemma_divide_is_quotient(c[k].weight, d, DivideType::DivideLeft);
        W::lemma_times_zero(d);
        W::lemma_quantize_keeps_zero(z, delta);
    }
    assert forall|q: int| holds_state(out, q) <==> holds_state(c, q) by {
        if holds_state(out, q) {
            let k = choose|k: int| 0 <= k < out.len() && (#[trigger] out[k]).state == q;
            assert(c[k].state == q);
        }
        if holds_state(c, q) {
            let k = choose|k: int| 0 <= k < c.len() && (#[trigger] c[k]).state == q;
            assert(out[k].state == q);
        }
    }
}

/// What the transitions of a state carry into a state is not `0̄` just
/// where the state holds a weight other than `0̄` and one of them leads
/// there with the label.
proof fn lemma_carried_label_nonzero<W: Semiring>(trs: Seq<Tr<W>>, x: W, a: Label, q: int)
    requires
        weights_nonzero(trs),
        is_zero_sum_free::<W>(),
        has_no_zero_divisors::<W>(),
    ensures
        carried_label(trs, x, a, q) != W::zero_spec() <==> x != W::zero_spec() && leads_by(
            trs,
            a,
            q,
        ),
    decreases trs.len(),
{
    if trs.len() > 0 {
        let front = trs.drop_last();
        let t = trs.last();
        assert(t == trs[trs.len() - 1]);
        assert(weights_nonzero(front)) by {
            assert forall|i: int| 0 <= i < front.len() implies (#[trigger] front[i]).weight
                != W::zero_spec() by {
                assert(front[i] == trs[i]);
            }
        }
        lemma_carried_label_nonzero(front, x, a, q);
        W::lemma_plus_zero(W::zero_spec());
        W::lemma_times_zero(t.weight);
        if leads_by(trs, a, q) {
            let i = choose|i: int|
                0 <= i < trs.len() && (#[trigger] trs[i]).ilabel == a && trs[i].nextstate == q;
            if i < front.len() {
                assert(front[i] == trs[i]);
            }
        }
        if leads_by(front, a, q) {
            let i = choose|i: int|
                0 <= i < front.len() && (#[trigger] front[i]).ilabel == a && front[i].nextstate == q;
            assert(trs[i] == front[i]);
        }
    }
}

/// What the states carry into a state is not `0̄` just where one of them
/// holds a weight other than `0̄` and has a transition with the label that
/// leads there.
proof fn lemma_inflow_label_nonzero<W: Semiring>(
    f: FstView<W>,
    d: Seq<W>,
    a: Label,
    q: int,
    n: nat,
)
    requires
        n <= f.states.len(),
        n <= d.len(),
        keeps_weights_nonzero(f),
    ensures
        inflow_label(f, d, a, q, n) != W::zero_spec() <==> exists|u: int|
            0 <= u < n && #[trigger] d[u] != W::zero_spec() && leads_by(f.states[u].trs, a, q),
    decreases n,
{
    if n > 0 {
        let u0 = n - 1;
        let trs = f.states[u0].trs;
        lemma_inflow_label_nonzero(f, d, a, q, (n - 1) as nat);
        assert(weights_nonzero(trs)) by {
            assert forall|i: int| 0 <= i < trs.len() implies (#[trigger] trs[i]).weight
                != W::zero_spec() by {
                assert(f.has_tr(u0, i));
            }
        }
        lemma_carried_label_nonzero(trs, d[u0], a, q);
        W::lemma_plus_zero(W::zero_spec());
        if exists|u: int|
            0 <= u < n && #[trigger] d[u] != W::zero_spec() && leads_by(f.states[u].trs, a, q) {
            let u = choose|u: int|
                0 <= u < n && #[trigger] d[u] != W::zero_spec() && leads_by(f.states[u].trs, a, q);
            if u < n - 1 {
                assert(inflow_label(f, d, a, q, (n - 1) as nat) != W::zero_spec());
            }
        }
        if inflow_label(f, d, a, q, (n - 1) as nat) != W::zero_spec() {
            let u = choose|u: int|
                0 <= u < n - 1 && #[trigger] d[u] != W::zero_spec() && leads_by(
                    f.states[u].trs,
                    a,
                    q,
                );
            assert(0 <= u < n && d[u] != W::zero_spec());
        }
        if carried_label(trs, d[u0], a, q) != W::zero_spec() {
            assert(d[u0] != W::zero_spec() && leads_by(f.states[u0].trs, a, q));
        }
    }
}

/// Whether the determinized acceptor follows the acceptor along `x` as far
/// as states go: where it gets to a subset, by a way whose weight is not
/// `0̄`, the subset has no weight `0̄` and holds just the states that are
/// reached along `x`; and where it gets nowhere, no state is reached.
pub open spec fn follows<W: WeaklyDivisibleSemiring + WeightQuantize>(
    f: FstView<W>,
    g: FstView<W>,
    table: Seq<SubsetView<W>>,
    x: Seq<Label>,
) -> bool {
    match run(g, x) {
        Some((i, w)) => 0 <= i < table.len() && w != W::zero_spec() && all_nonzero(table[i])
            && forall|q: int|
            0 <= q < f.states.len() ==> (#[trigger] reach(f, x, q) != W::zero_spec()
                <==> holds_state(table[i], q)),
        None => forall|q: int| 0 <= q < f.states.len() ==> #[trigger] reach(f, x, q)
            == W::zero_spec(),
    }
}

/// The determinized acceptor follows the acceptor along every string,
/// whatever the width of the bins.
pub proof fn lemma_determinization_follows<W: WeaklyDivisibleSemiring + WeightQuantize>(
    f: FstView<W>,
    g: FstView<W>,
    table: Seq<SubsetView<W>>,
    delta: u64,
    x: Seq<Label>,
)
    requires
        f.graph_wf(),
        keeps_weights_nonzero(f),
        is_determinization::<W, DefaultCommonDivisor>(f, g, table, delta),
    ensures
        follows(f, g, table, x),
    decreases x.len(),
{
    let n = f.states.len();
    if x.len() == 0 {
        match f.start {
            Some(s) => {
                let t0 = start_subset::<W>(s);
                assert(table[0] == t0);
                assert(run(g, x) == Some((0int, W::one_spec())));
                assert(t0[0] == (DeterminizeElement { state: s, weight: W::one_spec() }));
                assert forall|q: int| 0 <= q < n implies (#[trigger] reach(f, x, q)
                    != W::zero_spec() <==> holds_state(t0, q)) by {
                    if q == s {
                        assert(t0[0].state == q);
                    }
                }
            },
            None => {},
        }
    } else {
        let y = x.drop_last();
        let a = x.last();
        lemma_determinization_follows(f, g, table, delta, y);
        let before = reach_all(f, y);
        assert forall|q: int| 0 <= q < n implies #[trigger] reach(f, x, q) == inflow_label(
            f,
            before,
            a,
            q,
            n,
        ) by {}
        match run(g, y) {
            Some((i, w)) => {
                let subset = table[i];
                let trs = g.states[i].trs;
                assert(is_expansion::<W, DefaultCommonDivisor>(f, subset, trs, table, delta));
                assert(is_subset_of(subset, f));
                lemma_tr_with_label(trs, a);
                lemma_subset_items(f, subset, a);
                let items = subset_items(f, subset, a);
                assert forall|q: int| 0 <= q < n implies (#[trigger] reach(f, x, q)
                    != W::zero_spec() <==> leads_from(f, subset, a, q)) by {
                    lemma_inflow_label_nonzero(f, before, a, q, n);
                    if reach(f, x, q) != W::zero_spec() {
                        let u = choose|u: int|
                            0 <= u < n && #[trigger] before[u] != W::zero_spec() && leads_by(
                                f.states[u].trs,
                                a,
                                q,
                            );
                        assert(reach(f, y, u) != W::zero_spec());
                        assert(holds_state(subset, u));
                        let k = choose|k: int|
                            0 <= k < subset.len() && (#[trigger] subset[k]).state == u;
                        assert(leads_by(f.states[subset[k].state as int].trs, a, q));
                    }
                    if leads_from(f, subset, a, q) {
                        let k = choose|k: int|
                            0 <= k < subset.len() && leads_by(
                                f.states[(#[trigger] subset[k]).state as int].trs,
                                a,
                                q,
                            );
                        let u = subset[k].state as int;
                        assert(holds_state(subset, u));
                        assert(reach(f, y, u) != W::zero_spec());
                        assert(before[u] != W::zero_spec());
                    }
                }
                match tr_with_label(trs, a) {
                    Some(t) => {
                        let k = choose|k: int| 0 <= k < trs.len() && trs[k] == t;
                        assert(is_group_tr::<W, DefaultCommonDivisor>(
                            f,
                            subset,
                            trs[k],
                            table,
                            delta,
                        ));
                        let c = canonical(items);
                        let j = t.nextstate as int;
                        assert(items.len() > 0) by {
                            let (m, e) = choose|m: int, e: int|
                                0 <= m < subset.len() && #[trigger] f.has_tr(
                                    subset[m].state as int,
                                    e,
                                ) && f.tr(subset[m].state as int, e).ilabel == a;
                            let target = f.tr(subset[m].state as int, e).nextstate as int;
                            assert(f.states[subset[m].state as int].trs[e].ilabel == a);
                            assert(leads_by(f.states[subset[m].state as int].trs, a, target));
                            assert(leads_from(f, subset, a, target));
                            assert(holds_state(items, target));
                        }
                        lemma_divisor_nonzero(items);
                        lemma_canonical_states(items);
                        lemma_divided_states(c, t.weight, delta);
                        assert(w.times_spec(t.weight) != W::zero_spec());
                    },
                    None => {
                        assert(!has_label(f, subset, a)) by {
                            if has_label(f, subset, a) {
                                let k = choose|k: int|
                                    0 <= k < trs.len() && (#[trigger] trs[k]).ilabel == a;
                                assert(false);
                            }
                        }
                        assert forall|q: int| 0 <= q < n implies #[trigger] reach(f, x, q)
                            == W::zero_spec() by {
                            if leads_from(f, subset, a, q) {
                                let k = choose|k: int|
                                    0 <= k < subset.len() && leads_by(
                                        f.states[(#[trigger] subset[k]).state as int].trs,
                                        a,
                                        q,
                                    );
                                let e = choose|e: int|
                                    0 <= e < f.states[subset[k].state as int].trs.len()
                                        && (#[trigger] f.states[subset[k].state as int].trs[e]).ilabel
                                        == a && f.states[subset[k].state as int].trs[e].nextstate
                                        == q;
                                assert(f.has_tr(subset[k].state as int, e));
                                assert(has_label(f, subset, a));
                            }
                        }
                    },
                }
            },
            None => {
                assert forall|q: int| 0 <= q < n implies #[trigger] reach(f, x, q)
                    == W::zero_spec() by {
                    lemma_inflow_label_nonzero(f, before, a, q, n);
                    if reach(f, x, q) != W::zero_spec() {
                        let u = choose|u: int|
                            0 <= u < n && #[trigger] before[u] != W::zero_spec() && leads_by(
                                f.states[u].trs,
                                a,
                                q,
                            );
                        assert(reach(f, y, u) == W::zero_spec());
                    }
                }
            },
        }
    }
}

/// What the states hold times their final weights sums to another weight
/// than `0̄` just where a final state holds another weight than `0̄`.
proof fn lemma_accepted_nonzero<W: Semiring>(f: FstView<W>, d: Seq<W>, n: nat)
    requires
        f.graph_wf(),
        keeps_weights_nonzero(f),
        n <= f.states.len(),
        n <= d.len(),
    ensures
        accepted_sum(f, d, n) != W::zero_spec() <==> exists|q: int|
            0 <= q < n && #[trigger] d[q] != W::zero_spec() && f.states[q].final_weight is Some,
    decreases n,
{
    if n > 0 {
        let u = n - 1;
        lemma_accepted_nonzero(f, d, (n - 1) as nat);
        W::lemma_plus_zero(W::zero_spec());
        W::lemma_times_zero(d[u]);
        W::lemma_times_zero(final_or_zero(f, u));
        assert(f.has_state(u));
        if accepted_sum(f, d, (n - 1) as nat) != W::zero_spec() {
            let q = choose|q: int|
                0 <= q < n - 1 && #[trigger] d[q] != W::zero_spec() && f.states[q].final_weight
                    is Some;
            assert(0 <= q < n && d[q] != W::zero_spec());
        }
        if exists|q: int|
            0 <= q < n && #[trigger] d[q] != W::zero_spec() && f.states[q].final_weight is Some {
            let q = choose|q: int|
                0 <= q < n && #[trigger] d[q] != W::zero_spec() && f.states[q].final_weight
                    is Some;
            if q < n - 1 {
                assert(accepted_sum(f, d, (n - 1) as nat) != W::zero_spec());
            }
        }
        if d[u].times_spec(final_or_zero(f, u)) != W::zero_spec() {
            assert(d[u] != W::zero_spec() && f.states[u].final_weight is Some);
        }
    }
}

/// A subset without the weight `0̄` is final with another weight than `0̄`
/// just where one of its states is final.
proof fn lemma_subset_final_nonzero<W: Semiring>(f: FstView<W>, subset: SubsetView<W>)
    requires
        f.graph_wf(),
        keeps_weights_nonzero(f),
        is_subset_of(subset, f),
        all_nonzero(subset),
    ensures
        subset_final(f, subset) != W::zero_spec() <==> exists|k: int|
            0 <= k < subset.len() && f.states[(#[trigger] subset[k]).state as int].final_weight
                is Some,
    decreases subset.len(),
{
    if subset.len() > 0 {
        let front = subset.drop_last();
        let e = subset.last();
        assert(e == subset[subset.len() - 1]);
        assert(is_subset_of(front, f) && all_nonzero(front)) by {
            assert forall|k: int| 0 <= k < front.len() implies (#[trigger] front[k]).state
                < f.states.len() && front[k].weight != W::zero_spec() by {
                assert(front[k] == subset[k]);
            }
        }
        lemma_subset_final_nonzero(f, front);
        assert(f.has_state(e.state as int));
        if subset_final(f, front) != W::zero_spec() {
            let k = choose|k: int|
                0 <= k < front.len() && f.states[(#[trigger] front[k]).state as int].final_weight
                    is Some;
            assert(subset[k] == front[k]);
        }
        if exists|k: int|
            0 <= k < subset.len() && f.states[(#[trigger] subset[k]).state as int].final_weight
                is Some {
            let k = choose|k: int|
                0 <= k < subset.len() && f.states[(#[trigger] subset[k]).state as int].final_weight
                    is Some;
            if k < front.len() {
                assert(front[k] == subset[k]);
                assert(subset_final(f, front) != W::zero_spec());
            }
        }
    }
}

/// Determinization keeps the strings that are accepted, whatever the width
/// of the bins: the determinized acceptor gives a string another weight
/// than `0̄` just where the acceptor does.
pub proof fn lemma_determinization_keeps_acceptance<W: WeaklyDivisibleSemiring + WeightQuantize>(
    f: FstView<W>,
    g: FstView<W>,
    table: Seq<SubsetView<W>>,
    delta: u64,
    x: Seq<Label>,
)
    requires
        f.graph_wf(),
        keeps_weights_nonzero(f),
        is_determinization::<W, DefaultCommonDivisor>(f, g, table, delta),
    ensures
        det_string_weight(g, x) != W::zero_spec() <==> string_weight(f, x) != W::zero_spec(),
{
    let n = f.states.len();
    let d = reach_all(f, x);
    lemma_determinization_follows(f, g, table, delta, x);
    lemma_accepted_nonzero(f, d, n);
    match run(g, x) {
        Some((i, w)) => {
            let subset = table[i];
            assert(is_subset_of(subset, f));
            lemma_subset_final_nonzero(f, subset);
            W::lemma_times_zero(w);
            assert(final_or_zero(g, i) == subset_final(f, subset));
            if subset_final(f, subset) != W::zero_spec() {
                let k = choose|k: int|
                    0 <= k < subset.len() && f.states[(#[trigger] subset[k]).state as int].final_weight
                        is Some;
                let q = subset[k].state as int;
                assert(holds_state(subset, q));
                assert(reach(f, x, q) != W::zero_spec());
                assert(d[q] != W::zero_spec());
            }
            if string_weight(f, x) != W::zero_spec() {
                let q = choose|q: int|
                    0 <= q < n && #[trigger] d[q] != W::zero_spec() && f.states[q].final_weight
                        is Some;
                assert(reach(f, x, q) != W::zero_spec());
                assert(holds_state(subset, q));
                let k = choose|k: int| 0 <= k < subset.len() && (#[trigger] subset[k]).state == q;
                assert(f.states[subset[k].state as int].final_weight is Some);
            }
        },
        None => {
            if string_weight(f, x) != W::zero_spec() {
                let q = choose|q: int|
                    0 <= q < n && #[trigger] d[q] != W::zero_spec() && f.states[q].final_weight
                        is Some;
                assert(reach(f, x, q) == W::zero_spec());
            }
        },
    }
}

} // verus!
