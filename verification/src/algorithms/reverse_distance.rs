//! What reversing twice does to distances: each state keeps its distance
//! from the start state two places further on, and the new final state has
//! as its distance the sum over the final states of distance times final
//! weight, which therefore stays what it was.

use vstd::prelude::*;
use crate::algorithms::connect_distance::total_at_finals;
use crate::algorithms::pushing_language::{lemma_carried_into_none, lemma_inflow_none};
use crate::algorithms::reverse::{lemma_reversed_is_acyclic, reversed};
use crate::algorithms::reverse_language::{
    grouped_by_target, lemma_first_step, lemma_incoming_of_reversed, lemma_incoming_targets,
    lemma_no_way_back, lemma_reversed_trs, lemma_to_finals_targets, moved_by_two, to_new_final,
};
use crate::algorithms::shortest_distance::{
    carried_by, carried_into, inflow, is_single_source_distance, lemma_distance_on_acyclic,
    lemma_inflow_zero, solves_distance_equations, source_weight,
};
use crate::fst_view::FstView;
use crate::pair_weight::final_weight_or_zero;
use crate::semirings::semiring::Semiring;
use crate::tr::Tr;

verus! {

/// What the start state contributes to state `q`.
pub open spec fn start_weight<W: Semiring>(f: FstView<W>, q: int) -> W {
    match f.start {
        Some(s) => source_weight::<W>(s as int, q),
        None => W::zero_spec(),
    }
}

/// The distances in the transducer reversed twice, made of the distances
/// `d` in the transducer: `1̄` at the new start state, the sum over the
/// final states at the new final state, and then `d`.
pub open spec fn distances_twice<W: Semiring>(f: FstView<W>, d: Seq<W>) -> Seq<W> {
    seq![W::one_spec(), total_at_finals(f, d, f.states.len())] + d
}

/// What two sequences of transitions carry, one behind the other, is the
/// sum of what each carries.
proof fn lemma_carried_into_concat<W: Semiring>(a: Seq<Tr<W>>, b: Seq<Tr<W>>, x: W, q: int)
    ensures
        carried_into(a + b, x, q) == carried_into(a, x, q).plus_spec(carried_into(b, x, q)),
    decreases b.len(),
{
    if b.len() == 0 {
        assert(a + b =~= a);
        W::lemma_plus_zero(carried_into(a, x, q));
    } else {
        lemma_carried_into_concat(a, b.drop_last(), x, q);
        assert((a + b).drop_last() =~= a + b.drop_last());
        assert((a + b).last() == b.last());
        W::lemma_plus_associative(
            carried_into(a, x, q),
            carried_into(b.drop_last(), x, q),
            carried_by(b.last(), x, q),
        );
    }
}

/// The transitions to state `t`, moved by two, carry into state `q + 2`
/// what the transitions carried into `q` where `t` is `q`, and nothing
/// else; into state 1 they carry nothing.
proof fn lemma_carried_into_moved<W: Semiring>(trs: Seq<Tr<W>>, t: int, x: W, q: int)
    requires
        0 <= t < usize::MAX - 1,
        0 <= q < usize::MAX - 1,
    ensures
        carried_into(moved_by_two(trs, t), x, q + 2) == if t == q {
            carried_into(trs, x, q)
        } else {
            W::zero_spec()
        },
        carried_into(moved_by_two(trs, t), x, 1) == W::zero_spec(),
    decreases trs.len(),
{
    if trs.len() > 0 {
        let e = trs.last();
        let rest = moved_by_two(trs.drop_last(), t);
        lemma_carried_into_moved(trs.drop_last(), t, x, q);
        W::lemma_plus_zero(carried_into(trs.drop_last(), x, q));
        W::lemma_plus_zero(W::zero_spec());
        if e.nextstate == t {
            let moved = e.with_nextstate((t + 2) as usize);
            assert(rest.push(moved).drop_last() =~= rest);
            assert(rest.push(moved).last() == moved);
        }
    }
}

/// The transitions grouped by the state they lead to carry into state
/// `q + 2` what the transitions carried into `q`; into state 1 they carry
/// nothing.
proof fn lemma_carried_into_grouped<W: Semiring>(trs: Seq<Tr<W>>, m: nat, x: W, q: int)
    requires
        m < usize::MAX - 1,
        0 <= q < usize::MAX - 1,
    ensures
        carried_into(grouped_by_target(trs, m), x, q + 2) == if q < m {
            carried_into(trs, x, q)
        } else {
            W::zero_spec()
        },
        carried_into(grouped_by_target(trs, m), x, 1) == W::zero_spec(),
    decreases m,
{
    if m > 0 {
        lemma_carried_into_grouped(trs, (m - 1) as nat, x, q);
        lemma_carried_into_moved(trs, m - 1, x, q);
        lemma_carried_into_concat(
            grouped_by_target(trs, (m - 1) as nat),
            moved_by_two(trs, m - 1),
            x,
            q + 2,
        );
        lemma_carried_into_concat(
            grouped_by_target(trs, (m - 1) as nat),
            moved_by_two(trs, m - 1),
            x,
            1,
        );
        W::lemma_plus_zero(carried_into(trs, x, q));
        W::lemma_plus_zero(W::zero_spec());
    }
}

/// What state `s + 2` of the transducer reversed twice carries: into the
/// new final state what `s` holds times its final weight, and into state
/// `q + 2` what `s` carried into `q`.
proof fn lemma_carried_twice<W: Semiring>(f: FstView<W>, s: int, x: W, q: int)
    requires
        f.graph_wf(),
        f.states.len() < usize::MAX - 1,
        0 <= s < f.states.len(),
        0 <= q < f.states.len(),
    ensures
        carried_into(reversed(reversed(f)).states[s + 2].trs, x, 1) == x.times_spec(
            final_weight_or_zero(f, s),
        ),
        carried_into(reversed(reversed(f)).states[s + 2].trs, x, q + 2) == carried_into(
            f.states[s].trs,
            x,
            q,
        ),
{
    let r = reversed(f);
    let n = f.states.len();
    let end = to_new_final(f, s);
    let rest = grouped_by_target(f.states[s].trs, n);
    lemma_reversed_trs(r, s + 2);
    lemma_incoming_of_reversed(f, s, n + 1);
    lemma_carried_into_grouped(f.states[s].trs, n, x, q);
    lemma_carried_into_concat(end, rest, x, 1);
    lemma_carried_into_concat(end, rest, x, q + 2);
    W::lemma_plus_zero(carried_into(f.states[s].trs, x, q));
    W::lemma_plus_zero(x.times_spec(final_weight_or_zero(f, s)));
    W::lemma_plus_zero(W::zero_spec());
    W::lemma_times_zero(x);
    if f.states[s].final_weight is Some {
        assert(end.drop_last() =~= Seq::<Tr<W>>::empty());
        assert(carried_into(end.drop_last(), x, 1) == W::zero_spec());
        assert(carried_into(end.drop_last(), x, q + 2) == W::zero_spec());
    }
}

/// What the first two states of the transducer reversed twice carry: into
/// state `q + 2` what the start state contributes to `q`, and nothing into
/// the new final state.
proof fn lemma_inflow_twice_start<W: Semiring>(f: FstView<W>, d: Seq<W>, q: int)
    requires
        f.graph_wf(),
        f.states.len() < usize::MAX - 1,
        W::one_spec() != W::zero_spec(),
        0 <= q < f.states.len(),
    ensures
        inflow(reversed(reversed(f)), distances_twice(f, d), q + 2, 2) == start_weight(f, q),
        inflow(reversed(reversed(f)), distances_twice(f, d), 1, 2) == W::zero_spec(),
{
    let r = reversed(f);
    let rr = reversed(r);
    let c = distances_twice(f, d);
    let n = f.states.len();
    lemma_reversed_trs(r, 0);
    lemma_reversed_trs(r, 1);
    lemma_first_step(f);
    lemma_no_way_back(f, n + 1);
    let first = rr.states[0].trs;
    assert(rr.states[1].trs =~= Seq::<Tr<W>>::empty());
    assert(inflow(rr, c, q + 2, 0) == W::zero_spec());
    assert(inflow(rr, c, 1, 0) == W::zero_spec());
    assert(inflow(rr, c, q + 2, 1) == W::zero_spec().plus_spec(carried_into(first, c[0], q + 2)));
    assert(inflow(rr, c, 1, 1) == W::zero_spec().plus_spec(carried_into(first, c[0], 1)));
    W::lemma_plus_zero(W::zero_spec());
    W::lemma_plus_zero(start_weight(f, q));
    W::lemma_plus_zero(carried_into(first, c[0], q + 2));
    W::lemma_times_one(W::one_spec());
    if f.start is Some {
        assert(first.drop_last() =~= Seq::<Tr<W>>::empty());
        assert(carried_into(first.drop_last(), c[0], q + 2) == W::zero_spec());
        assert(carried_into(first.drop_last(), c[0], 1) == W::zero_spec());
    }
}

/// What the first `m + 2` states of the transducer reversed twice carry:
/// into state `q + 2` what the start state contributes to `q` and what the
/// first `m` states carried into it, and into the new final state the sum
/// over the final states among the first `m` states.
proof fn lemma_inflow_twice<W: Semiring>(f: FstView<W>, d: Seq<W>, q: int, m: nat)
    requires
        f.graph_wf(),
        f.states.len() < usize::MAX - 1,
        W::one_spec() != W::zero_spec(),
        d.len() == f.states.len(),
        0 <= q < f.states.len(),
        m <= f.states.len(),
    ensures
        inflow(reversed(reversed(f)), distances_twice(f, d), q + 2, m + 2) == start_weight(
            f,
            q,
        ).plus_spec(inflow(f, d, q, m)),
        inflow(reversed(reversed(f)), distances_twice(f, d), 1, m + 2) == total_at_finals(f, d, m),
    decreases m,
{
    let rr = reversed(reversed(f));
    let c = distances_twice(f, d);
    if m == 0 {
        lemma_inflow_twice_start(f, d, q);
        W::lemma_plus_zero(start_weight(f, q));
    } else {
        lemma_inflow_twice(f, d, q, (m - 1) as nat);
        lemma_carried_twice(f, m - 1, d[m - 1], q);
        assert(c[m as int + 1] == d[m - 1]);
        W::lemma_plus_associative(
            start_weight(f, q),
            inflow(f, d, q, (m - 1) as nat),
            carried_into(f.states[m - 1].trs, d[m - 1], q),
        );
    }
}

/// The sum over the final states of the transducer reversed twice is what
/// the new final state holds.
proof fn lemma_total_twice<W: Semiring>(f: FstView<W>, c: Seq<W>, m: nat)
    requires
        f.graph_wf(),
        f.states.len() < usize::MAX - 1,
        W::one_spec() != W::zero_spec(),
        c.len() == f.states.len() + 2,
        m <= f.states.len(),
    ensures
        total_at_finals(reversed(reversed(f)), c, m + 2) == c[1],
    decreases m,
{
    let r = reversed(f);
    let rr = reversed(r);
    W::lemma_plus_zero(c[1]);
    W::lemma_plus_zero(W::zero_spec());
    if m == 0 {
        lemma_reversed_trs(r, 0);
        lemma_reversed_trs(r, 1);
        W::lemma_times_zero(c[0]);
        W::lemma_times_one(c[1]);
        assert(total_at_finals(rr, c, 0) == W::zero_spec());
        assert(total_at_finals(rr, c, 1) == W::zero_spec().plus_spec(
            c[0].times_spec(final_weight_or_zero(rr, 0)),
        ));
    } else {
        lemma_total_twice(f, c, (m - 1) as nat);
        lemma_reversed_trs(r, m as int + 1);
        W::lemma_times_zero(c[m as int + 1]);
    }
}

/// Reversing a transducer without cycles twice keeps the distances from the
/// start state, two places further on, and what all its successful paths
/// weigh together: the sum over the final states of distance times final
/// weight is the same in both.
pub proof fn lemma_reverse_twice_keeps_total<W: Semiring>(f: FstView<W>, d: Seq<W>, e: Seq<W>)
    requires
        f.graph_wf(),
        reversed(f).graph_wf(),
        reversed(reversed(f)).graph_wf(),
        f.states.len() < usize::MAX - 1,
        f.is_acyclic(),
        match f.start {
            Some(s) => is_single_source_distance(f, s, d),
            None => d == Seq::new(f.states.len(), |q: int| W::zero_spec()),
        },
        is_single_source_distance(reversed(reversed(f)), 0, e),
    ensures
        W::one_spec() != W::zero_spec() ==> e == distances_twice(f, d),
        total_at_finals(reversed(reversed(f)), e, f.states.len() + 2) == total_at_finals(
            f,
            d,
            f.states.len(),
        ),
{
    let r = reversed(f);
    let rr = reversed(r);
    let n = f.states.len();
    let c = distances_twice(f, d);
    if W::one_spec() == W::zero_spec() {
        let a = total_at_finals(rr, e, n + 2);
        let b = total_at_finals(f, d, n);
        W::lemma_times_one(a);
        W::lemma_times_zero(a);
        W::lemma_times_one(b);
        W::lemma_times_zero(b);
    } else {
        lemma_reversed_is_acyclic(f);
        lemma_reversed_is_acyclic(r);
        assert(solves_distance_equations(rr, 0, c)) by {
            assert forall|x: int| 0 <= x < c.len() implies #[trigger] c[x] == source_weight::<W>(
                0,
                x,
            ).plus_spec(inflow(rr, c, x, rr.states.len())) by {
                if x == 0 {
                    assert forall|u: int, i: int|
                        0 <= u < n + 2 && 0 <= i < rr.states[u].trs.len() implies (#[trigger] rr.states[u].trs[i]).nextstate
                        != 0 by {
                        lemma_reversed_trs(r, u);
                        if u == 0 {
                            lemma_to_finals_targets(r, (n + 1) as nat);
                        } else {
                            lemma_incoming_targets(r, u - 1, (n + 1) as nat);
                        }
                    }
                    lemma_inflow_none(rr, c, 0, (n + 2) as nat);
                    W::lemma_plus_zero(W::one_spec());
                } else if x == 1 {
                    if n > 0 {
                        lemma_inflow_twice(f, d, 0, n);
                    } else {
                        lemma_reversed_trs(r, 0);
                        lemma_reversed_trs(r, 1);
                        lemma_first_step(f);
                        lemma_no_way_back(f, 1);
                        assert(rr.states[0].trs =~= Seq::<Tr<W>>::empty());
                        assert(rr.states[1].trs =~= Seq::<Tr<W>>::empty());
                        assert(inflow(rr, c, 1, 0) == W::zero_spec());
                        assert(inflow(rr, c, 1, 1) == W::zero_spec().plus_spec(
                            carried_into(rr.states[0].trs, c[0], 1),
                        ));
                    }
                    W::lemma_plus_zero(total_at_finals(f, d, n));
                    W::lemma_plus_zero(W::zero_spec());
                } else {
                    let q = x - 2;
                    lemma_inflow_twice(f, d, q, n);
                    W::lemma_plus_zero(start_weight(f, q).plus_spec(inflow(f, d, q, n)));
                    if f.start is None {
                        lemma_inflow_zero(f, d, q, n);
                        W::lemma_plus_zero(W::zero_spec());
                    }
                }
            }
        }
        lemma_distance_on_acyclic(rr, 0, c, (n + 2) as nat);
        lemma_distance_on_acyclic(rr, 0, e, (n + 2) as nat);
        assert(e =~= c);
        lemma_total_twice(f, c, n);
    }
}

} // verus!
