//! Why the shortest distances to the final states are potentials with which
//! weights can be pushed toward the start state.
//!
//! The distance of a state is the `⊕`-sum of what its transitions and its
//! final weight contribute, so that it divides each of these contributions
//! in a semiring in which a sum divides its summands.

use vstd::prelude::*;
use crate::algorithms::reverse::{incoming, reversed, to_finals, turned, turned_into};
use crate::algorithms::reverse_language::{
    lemma_incoming_targets, lemma_reversed_trs, lemma_to_finals_targets,
};
use crate::algorithms::reweight::{
    are_initial_potentials, is_reweightable_at, reweighted_final, reweighted_weight, ReweightType,
};
use crate::algorithms::shortest_distance::{
    carried_by, carried_into, inflow, lemma_inflow_has_term, solves_distance_equations,
    source_weight,
};
use crate::algorithms::weight_pushing::{
    are_push_potentials, lemma_push_to_initial_keeps_weights, needs_entry, pushed,
};
use crate::fst_view::FstView;
use crate::pair_weight::pair_weight;
use crate::semirings::semiring::{
    is_commutative, DivideType, Semiring, WeaklyDivisibleSemiring,
};
use crate::tr::{Label, Tr, EPS_LABEL};

verus! {

/// Transitions that do not lead to state `q` carry nothing into it.
pub proof fn lemma_carried_into_none<W: Semiring>(trs: Seq<Tr<W>>, x: W, q: int)
    requires
        forall|i: int| 0 <= i < trs.len() ==> (#[trigger] trs[i]).nextstate != q,
    ensures
        carried_into(trs, x, q) == W::zero_spec(),
    decreases trs.len(),
{
    if trs.len() > 0 {
        assert forall|i: int| 0 <= i < trs.drop_last().len() implies (#[trigger] trs.drop_last()[i]).nextstate
            != q by {
            assert(trs.drop_last()[i] == trs[i]);
        }
        lemma_carried_into_none(trs.drop_last(), x, q);
        assert(trs.last() == trs[trs.len() - 1]);
        W::lemma_plus_zero(W::zero_spec());
    }
}

/// Where no transition leads to state `q`, nothing is carried into it.
pub proof fn lemma_inflow_none<W: Semiring>(f: FstView<W>, d: Seq<W>, q: int, n: nat)
    requires
        n <= f.states.len(),
        forall|u: int, i: int|
            0 <= u < n && 0 <= i < f.states[u].trs.len() ==> (#[trigger] f.states[u].trs[i]).nextstate
                != q,
    ensures
        inflow(f, d, q, n) == W::zero_spec(),
    decreases n,
{
    if n > 0 {
        lemma_inflow_none(f, d, q, (n - 1) as nat);
        lemma_carried_into_none(f.states[n - 1].trs, d[n - 1], q);
        W::lemma_plus_zero(W::zero_spec());
    }
}

/// A transition from `s` to `t` is found, turned round, among the
/// transitions of `s` that lead to `t`.
proof fn lemma_turned_into_has<W: Semiring>(trs: Seq<Tr<W>>, s: int, t: int, i: int) -> (j: int)
    requires
        0 <= i < trs.len(),
        trs[i].nextstate == t,
    ensures
        0 <= j < turned_into(trs, s, t).len(),
        turned_into(trs, s, t)[j] == turned(trs[i], s),
    decreases trs.len(),
{
    let rest = turned_into(trs.drop_last(), s, t);
    if i == trs.len() - 1 {
        rest.len() as int
    } else {
        assert(trs.drop_last()[i] == trs[i]);
        let j = lemma_turned_into_has(trs.drop_last(), s, t, i);
        j
    }
}

/// A transition from `s` to `t` is found, turned round, among the
/// transitions that lead to `t`.
pub proof fn lemma_incoming_has<W: Semiring>(f: FstView<W>, t: int, n: nat, s: int, i: int) -> (j: int)
    requires
        0 <= s < n,
        n <= f.states.len(),
        0 <= i < f.states[s].trs.len(),
        f.states[s].trs[i].nextstate == t,
    ensures
        0 <= j < incoming(f, t, n).len(),
        incoming(f, t, n)[j] == turned(f.states[s].trs[i], s),
    decreases n,
{
    let before = incoming(f, t, (n - 1) as nat);
    if s == n - 1 {
        let j = lemma_turned_into_has(f.states[s].trs, s, t, i);
        before.len() + j
    } else {
        let j = lemma_incoming_has(f, t, (n - 1) as nat, s, i);
        j
    }
}

/// A final state is led to by one of the ε-transitions to the final states.
pub proof fn lemma_to_finals_has<W: Semiring>(f: FstView<W>, n: nat, s: int) -> (j: int)
    requires
        0 <= s < n,
        n <= f.states.len(),
        f.states[s].final_weight is Some,
    ensures
        0 <= j < to_finals(f, n).len(),
        to_finals(f, n)[j] == (Tr {
            ilabel: EPS_LABEL,
            olabel: EPS_LABEL,
            weight: f.states[s].final_weight->0,
            nextstate: (s + 1) as usize,
        }),
    decreases n,
{
    let rest = to_finals(f, (n - 1) as nat);
    if s == n - 1 {
        rest.len() as int
    } else {
        let j = lemma_to_finals_has(f, (n - 1) as nat, s);
        match f.states[n - 1].final_weight {
            Some(w) => {
                assert(to_finals(f, n)[j] == rest[j]);
            },
            None => {},
        }
        j
    }
}

/// The start state of the reversed transducer has the distance `1̄`: no
/// transition leads back to it.
pub proof fn lemma_reversed_start_distance<W: Semiring>(f: FstView<W>, d: Seq<W>)
    requires
        f.graph_wf(),
        f.states.len() < usize::MAX,
        solves_distance_equations(reversed(f), 0, d),
    ensures
        d[0] == W::one_spec(),
{
    let r = reversed(f);
    let n = f.states.len();
    assert forall|u: int, i: int|
        0 <= u < n + 1 && 0 <= i < r.states[u].trs.len() implies (#[trigger] r.states[u].trs[i]).nextstate
        != 0 by {
        lemma_reversed_trs(f, u);
        if u == 0 {
            lemma_to_finals_targets(f, n);
        } else {
            lemma_incoming_targets(f, u - 1, n);
        }
    }
    lemma_inflow_none(r, d, 0, (n + 1) as nat);
    W::lemma_plus_zero(W::one_spec());
}

/// The shortest distances to the final states divide what they are to
/// divide when weights are pushed toward the start state, in a semiring
/// with commutative `⊗`, where none of them is `0̄`.
pub proof fn lemma_distances_are_initial_potentials<W: WeaklyDivisibleSemiring>(
    f: FstView<W>,
    d: Seq<W>,
)
    requires
        f.graph_wf(),
        f.states.len() < usize::MAX - 1,
        solves_distance_equations(reversed(f), 0, d),
        is_commutative::<W>(),
        forall|s: int| 1 <= s < d.len() ==> #[trigger] d[s] != W::zero_spec(),
    ensures
        are_initial_potentials(f, d.subrange(1, d.len() as int)),
{
    let r = reversed(f);
    let n = f.states.len();
    let v = d.subrange(1, d.len() as int);
    let ty = ReweightType::ReweightToInitial;
    lemma_reversed_start_distance(f, d);
    assert forall|s: int| 0 <= s < n implies #[trigger] is_reweightable_at(f, v, ty, s) by {
        assert(v[s] == d[s + 1]);
        assert(d[s + 1] == source_weight::<W>(0, s + 1).plus_spec(
            inflow(r, d, s + 1, r.states.len()),
        ));
        W::lemma_plus_zero(inflow(r, d, s + 1, r.states.len()));
        assert forall|i: int| 0 <= i < f.states[s].trs.len() implies reweighted_weight(
            (#[trigger] f.states[s].trs[i]).weight,
            v[s],
            v[f.states[s].trs[i].nextstate as int],
            ty,
        ) is Some by {
            let tr = f.states[s].trs[i];
            assert(f.has_tr(s, i));
            assert(tr == f.tr(s, i));
            let t = tr.nextstate as int;
            assert(v[t] == d[t + 1]);
            lemma_reversed_trs(f, t + 1);
            let j = lemma_incoming_has(f, t, n, s, i);
            let rest = lemma_inflow_has_term(r, d, s + 1, (n + 1) as nat, t + 1, j);
            assert(r.states[t + 1].trs[j] == turned(tr, s));
            assert(carried_by(turned(tr, s), d[t + 1], s + 1) == d[t + 1].times_spec(tr.weight));
            assert(d[t + 1].times_spec(tr.weight) == tr.weight.times_spec(d[t + 1]));
            W::lemma_sum_divides(tr.weight.times_spec(v[t]), rest, DivideType::DivideLeft);
        }
        match f.states[s].final_weight {
            Some(w) => {
                lemma_reversed_trs(f, 0);
                let j = lemma_to_finals_has(f, n, s);
                let rest = lemma_inflow_has_term(r, d, s + 1, (n + 1) as nat, 0, j);
                W::lemma_times_one(w);
                W::lemma_sum_divides(w, rest, DivideType::DivideLeft);
                assert(reweighted_final(w, v[s], ty) is Some);
            },
            None => {},
        }
    }
}

/// Pushing the weights toward the start state keeps the weight of every
/// pair of strings, in a semiring with commutative `⊗`, where each state has
/// a distance other than `0̄` to the final states. Where a new start state
/// was added the paths have one transition more.
pub proof fn lemma_push_keeps_weights<W: WeaklyDivisibleSemiring>(
    f: FstView<W>,
    v: Seq<W>,
    x: Seq<Label>,
    y: Seq<Label>,
    k: nat,
)
    requires
        f.graph_wf(),
        f.states.len() < usize::MAX - 1,
        are_push_potentials(f, v, ReweightType::ReweightToInitial),
        is_commutative::<W>(),
        forall|s: int| 0 <= s < v.len() ==> #[trigger] v[s] != W::zero_spec(),
    ensures
        pair_weight(
            pushed(f, v, ReweightType::ReweightToInitial),
            x,
            y,
            if needs_entry(f, v) {
                k + 1
            } else {
                k
            },
        ) == pair_weight(f, x, y, k),
{
    let d = choose|d: Seq<W>| #[trigger]
        crate::algorithms::shortest_distance::is_single_source_distance(reversed(f), 0, d) && v
            == d.subrange(1, d.len() as int);
    assert(d.len() == f.states.len() + 1);
    assert forall|s: int| 1 <= s < d.len() implies #[trigger] d[s] != W::zero_spec() by {
        assert(v[s - 1] == d[s]);
    }
    lemma_distances_are_initial_potentials(f, d);
    lemma_push_to_initial_keeps_weights(f, v, x, y, k);
}

} // verus!
