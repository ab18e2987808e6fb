//! What trimming does to distances: the states that stay keep their
//! distances from the start state, and the sum over the final states of
//! distance times final weight stays what it was.

use vstd::prelude::*;
use crate::algorithms::connect::unconnected;
use crate::algorithms::pushing_language::lemma_carried_into_none;
use crate::algorithms::shortest_distance::{
    carried_by, carried_into, inflow, is_single_source_distance, lemma_carried_into_zero,
    lemma_distance_on_acyclic, solves_distance_equations, source_weight,
};
use crate::fst_view::{FstView, Step};
use crate::fst_view_delete::{
    kept_below, kept_state, kept_states, kept_trs, lemma_del_states_graph_wf,
    lemma_del_states_keeps_acyclic, lemma_kept_below_bound, lemma_kept_below_monotone,
    lemma_kept_states_index, lemma_kept_states_len, lemma_kept_states_origin, moved_tr,
};
use crate::pair_weight::final_weight_or_zero;
use crate::semirings::semiring::Semiring;
use crate::tr::Tr;

verus! {

/// The `⊕`-sum over the first `n` states of the distance of the state
/// times its final weight: what all the successful paths weigh together,
/// where `d` holds the distances from the start state.
pub open spec fn total_at_finals<W: Semiring>(f: FstView<W>, d: Seq<W>, n: nat) -> W
    decreases n,
{
    if n == 0 {
        W::zero_spec()
    } else {
        total_at_finals(f, d, (n - 1) as nat).plus_spec(
            d[n - 1].times_spec(final_weight_or_zero(f, n - 1)),
        )
    }
}

/// The entries of `d` at the states that survive, in order.
pub open spec fn kept_values<W: Semiring>(d: Seq<W>, dead: Set<int>) -> Seq<W>
    decreases d.len(),
{
    if d.len() == 0 {
        Seq::empty()
    } else {
        let rest = kept_values(d.drop_last(), dead);
        if dead.contains(d.len() - 1) {
            rest
        } else {
            rest.push(d.last())
        }
    }
}

/// As many entries survive as `kept_below` counts.
proof fn lemma_kept_values_len<W: Semiring>(d: Seq<W>, dead: Set<int>)
    ensures
        kept_values(d, dead).len() == kept_below(dead, d.len() as int),
    decreases d.len(),
{
    if d.len() > 0 {
        lemma_kept_values_len(d.drop_last(), dead);
    }
}

/// The entry of a surviving state is found at its new index.
proof fn lemma_kept_values_index<W: Semiring>(d: Seq<W>, dead: Set<int>, s: int)
    requires
        0 <= s < d.len(),
        !dead.contains(s),
    ensures
        kept_below(dead, s) < kept_values(d, dead).len(),
        kept_values(d, dead)[kept_below(dead, s) as int] == d[s],
    decreases d.len(),
{
    lemma_kept_values_len(d, dead);
    lemma_kept_values_len(d.drop_last(), dead);
    if s < d.len() - 1 {
        lemma_kept_values_index(d.drop_last(), dead, s);
    }
}

/// Two states that survive move to the same index only where they are the
/// same.
proof fn lemma_kept_below_same(dead: Set<int>, a: int, b: int)
    requires
        0 <= a,
        0 <= b,
        !dead.contains(a),
        !dead.contains(b),
    ensures
        kept_below(dead, a) == kept_below(dead, b) <==> a == b,
{
    if a < b {
        lemma_kept_below_monotone(dead, a, b);
    } else if b < a {
        lemma_kept_below_monotone(dead, b, a);
    }
}

/// What the transitions that are kept carry into a state that survives is
/// what all the transitions carried into it.
proof fn lemma_carried_into_kept<W: Semiring>(trs: Seq<Tr<W>>, dead: Set<int>, x: W, q: int)
    requires
        0 <= q,
        !dead.contains(q),
    ensures
        carried_into(kept_trs(trs, dead), x, kept_below(dead, q) as int) == carried_into(trs, x, q),
    decreases trs.len(),
{
    if trs.len() > 0 {
        let t = trs.last();
        let rest = kept_trs(trs.drop_last(), dead);
        lemma_carried_into_kept(trs.drop_last(), dead, x, q);
        if dead.contains(t.nextstate as int) {
            W::lemma_plus_zero(carried_into(trs.drop_last(), x, q));
        } else {
            let moved = moved_tr(t, dead);
            assert(rest.push(moved).drop_last() =~= rest);
            assert(rest.push(moved).last() == moved);
            lemma_kept_below_bound(dead, t.nextstate as int);
            lemma_kept_below_same(dead, t.nextstate as int, q);
            assert(carried_by(moved, x, kept_below(dead, q) as int) == carried_by(t, x, q));
        }
    }
}

/// What the states that survive carry into one of them is what all the
/// states carried into it, where a state that is removed and leads to it
/// holds `0̄`.
proof fn lemma_inflow_kept<W: Semiring>(f: FstView<W>, dead: Set<int>, d: Seq<W>, q: int, m: nat)
    requires
        m <= f.states.len(),
        d.len() == f.states.len(),
        0 <= q < f.states.len(),
        !dead.contains(q),
        forall|u: int, i: int|
            #[trigger] f.has_tr(u, i) && dead.contains(u) && f.tr(u, i).nextstate == q ==> d[u]
                == W::zero_spec(),
    ensures
        inflow(
            f.del_states(dead),
            kept_values(d, dead),
            kept_below(dead, q) as int,
            kept_below(dead, m as int),
        ) == inflow(f, d, q, m),
    decreases m,
{
    if m > 0 {
        let u = m - 1;
        let g = f.del_states(dead);
        let trs = f.states[u].trs;
        lemma_inflow_kept(f, dead, d, q, (m - 1) as nat);
        if dead.contains(u) {
            if exists|i: int| 0 <= i < trs.len() && (#[trigger] trs[i]).nextstate == q {
                let i = choose|i: int| 0 <= i < trs.len() && (#[trigger] trs[i]).nextstate == q;
                assert(f.has_tr(u, i));
                lemma_carried_into_zero(trs, q);
            } else {
                lemma_carried_into_none(trs, d[u], q);
            }
            W::lemma_plus_zero(inflow(f, d, q, (m - 1) as nat));
        } else {
            lemma_kept_states_index(f.states, dead, u);
            lemma_kept_values_index(d, dead, u);
            lemma_carried_into_kept(trs, dead, d[u], q);
            assert(g.states[kept_below(dead, u) as int].trs == kept_trs(trs, dead));
        }
    }
}

/// The sum over the final states that survive is the sum over all the
/// final states, where a final state that is removed holds `0̄`.
proof fn lemma_total_kept<W: Semiring>(f: FstView<W>, dead: Set<int>, d: Seq<W>, m: nat)
    requires
        m <= f.states.len(),
        d.len() == f.states.len(),
        forall|s: int|
            0 <= s < f.states.len() && dead.contains(s) && (#[trigger] f.states[s]).final_weight
                is Some ==> d[s] == W::zero_spec(),
    ensures
        total_at_finals(f.del_states(dead), kept_values(d, dead), kept_below(dead, m as int))
            == total_at_finals(f, d, m),
    decreases m,
{
    if m > 0 {
        let u = m - 1;
        let g = f.del_states(dead);
        lemma_total_kept(f, dead, d, (m - 1) as nat);
        if dead.contains(u) {
            if f.states[u].final_weight is Some {
                W::lemma_times_zero(final_weight_or_zero(f, u));
            } else {
                W::lemma_times_zero(d[u]);
            }
            W::lemma_plus_zero(total_at_finals(f, d, (m - 1) as nat));
        } else {
            lemma_kept_states_index(f.states, dead, u);
            lemma_kept_values_index(d, dead, u);
            assert(g.states[kept_below(dead, u) as int].final_weight == f.states[u].final_weight);
        }
    }
}

/// The sum is `0̄` where each final state holds `0̄`.
proof fn lemma_total_zero<W: Semiring>(f: FstView<W>, d: Seq<W>, m: nat)
    requires
        m <= f.states.len(),
        m <= d.len(),
        forall|s: int|
            0 <= s < m && (#[trigger] f.states[s]).final_weight is Some ==> d[s] == W::zero_spec(),
    ensures
        total_at_finals(f, d, m) == W::zero_spec(),
    decreases m,
{
    if m > 0 {
        let u = m - 1;
        lemma_total_zero(f, d, (m - 1) as nat);
        if f.states[u].final_weight is Some {
            W::lemma_times_zero(final_weight_or_zero(f, u));
        } else {
            W::lemma_times_zero(d[u]);
        }
        W::lemma_plus_zero(W::zero_spec());
    }
}

/// The states that stay when a transducer without cycles is trimmed keep
/// their distances from the start state.
pub proof fn lemma_connect_keeps_distances<W: Semiring>(f: FstView<W>, d: Seq<W>, e: Seq<W>)
    requires
        f.graph_wf(),
        f.states.len() <= usize::MAX,
        f.is_acyclic(),
        f.start matches Some(s) && is_single_source_distance(f, s, d),
        f.del_states(unconnected(f)).start matches Some(t) && is_single_source_distance(
            f.del_states(unconnected(f)),
            t,
            e,
        ),
    ensures
        e == kept_values(d, unconnected(f)),
        forall|q: int|
            0 <= q < f.states.len() && !unconnected(f).contains(q) ==> e[kept_below(
                unconnected(f),
                q,
            ) as int] == #[trigger] d[q],
{
    let dead = unconnected(f);
    let g = f.del_states(dead);
    let s = f.start->0 as int;
    let t = g.start->0 as int;
    let c = kept_values(d, dead);
    let n = f.states.len();
    lemma_del_states_graph_wf(f, dead);
    lemma_del_states_keeps_acyclic(f, dead);
    lemma_kept_states_len(f.states, dead);
    lemma_kept_values_len(d, dead);
    lemma_kept_below_bound(dead, s);
    assert forall|u: int, i: int|
        #[trigger] f.has_tr(u, i) && dead.contains(u) && !dead.contains(
            f.tr(u, i).nextstate as int,
        ) implies d[u] == W::zero_spec() by {
        let v = f.tr(u, i).nextstate as int;
        if d[u] != W::zero_spec() {
            assert(f.reachable(s, u));
            let z = choose|z: int| f.reachable(v, z) && f.is_final(z);
            let p = choose|p: Seq<Step>| f.is_path(v, p, z);
            let step = seq![(u, i)];
            assert(step.drop_first() =~= Seq::<Step>::empty());
            assert(f.is_path(v, step.drop_first(), v));
            assert(f.is_path(u, step, v));
            f.lemma_path_concat(u, step, v, p, z);
            assert(f.reachable(u, z));
            assert(f.coaccessible(u));
        }
    }
    assert(solves_distance_equations(g, t, c)) by {
        assert forall|x: int| 0 <= x < c.len() implies #[trigger] c[x] == source_weight::<W>(
            t,
            x,
        ).plus_spec(inflow(g, c, x, g.states.len())) by {
            let q = lemma_kept_states_origin(f.states, dead, x);
            lemma_kept_values_index(d, dead, q);
            lemma_kept_below_same(dead, q, s);
            lemma_inflow_kept(f, dead, d, q, n);
        }
    }
    lemma_distance_on_acyclic(g, t, c, g.states.len());
    lemma_distance_on_acyclic(g, t, e, g.states.len());
    assert(e =~= c);
    assert forall|q: int| 0 <= q < f.states.len() && !dead.contains(q) implies e[kept_below(
        dead,
        q,
    ) as int] == #[trigger] d[q] by {
        lemma_kept_values_index(d, dead, q);
    }
}

/// Trimming a transducer without cycles keeps what all its successful paths
/// weigh together: the sum over the final states of distance times final
/// weight is the same before and after.
pub proof fn lemma_connect_keeps_total<W: Semiring>(f: FstView<W>, d: Seq<W>, e: Seq<W>)
    requires
        f.graph_wf(),
        f.states.len() <= usize::MAX,
        f.is_acyclic(),
        match f.start {
            Some(s) => is_single_source_distance(f, s, d),
            None => d == Seq::new(f.states.len(), |q: int| W::zero_spec()),
        },
        match f.del_states(unconnected(f)).start {
            Some(t) => is_single_source_distance(f.del_states(unconnected(f)), t, e),
            None => e == Seq::new(
                f.del_states(unconnected(f)).states.len(),
                |q: int| W::zero_spec(),
            ),
        },
    ensures
        total_at_finals(f.del_states(unconnected(f)), e, f.del_states(unconnected(f)).states.len())
            == total_at_finals(f, d, f.states.len()),
{
    let dead = unconnected(f);
    let g = f.del_states(dead);
    let n = f.states.len();
    lemma_kept_states_len(f.states, dead);
    if g.start is None {
        lemma_total_zero(g, e, g.states.len());
        assert forall|z: int|
            0 <= z < n && (#[trigger] f.states[z]).final_weight is Some implies d[z]
            == W::zero_spec() by {
            if f.start is Some && d[z] != W::zero_spec() {
                let s = f.start->0 as int;
                assert(f.reachable(s, z));
                assert(f.is_final(z));
                assert(f.coaccessible(s));
                assert(f.is_path(s, Seq::<Step>::empty(), s));
                assert(f.reachable(s, s));
                assert(f.accessible(s));
                assert(!dead.contains(s));
            }
        }
        lemma_total_zero(f, d, n);
    } else {
        let s = f.start->0 as int;
        lemma_connect_keeps_distances(f, d, e);
        assert forall|z: int|
            0 <= z < n && dead.contains(z) && (#[trigger] f.states[z]).final_weight
                is Some implies d[z] == W::zero_spec() by {
            if d[z] != W::zero_spec() {
                assert(f.reachable(s, z));
                assert(f.is_path(z, Seq::<Step>::empty(), z));
                assert(f.reachable(z, z) && f.is_final(z));
                assert(f.coaccessible(z));
            }
        }
        lemma_total_kept(f, dead, d, n);
    }
}

} // verus!
