//! Why reversing twice keeps the weight of every pair of strings.
//!
//! The law at the end of this file says that the transducer reversed twice
//! gives each pair of strings what the transducer itself gives it; its paths
//! are those of the transducer between an ε-transition from a new start
//! state and an ε-transition to a new final state.

use vstd::prelude::*;
use crate::algorithms::reverse::{incoming, reversed, to_finals, turned, turned_into};
use crate::fst_view::FstView;
use crate::pair_weight::{
    consume, ending_weight, final_weight_or_zero, lemma_trivial_semiring,
    lemma_weight_through_concat, lemma_weight_through_push, lemma_weight_through_same,
    lemma_weight_through_zero, pair_weight, step_weight, weight_from, weight_through,
};
use crate::semirings::semiring::Semiring;
use crate::tr::{Label, Tr, EPS_LABEL};

verus! {

// ----- the shape of the transducer that was reversed twice -----

/// The transitions among `trs` that lead to state `t`, each leading to state
/// `t + 2` instead.
pub open spec fn moved_by_two<W: Semiring>(trs: Seq<Tr<W>>, t: int) -> Seq<Tr<W>>
    decreases trs.len(),
{
    if trs.len() == 0 {
        Seq::empty()
    } else {
        let rest = moved_by_two(trs.drop_last(), t);
        if trs.last().nextstate == t {
            rest.push(trs.last().with_nextstate((t + 2) as usize))
        } else {
            rest
        }
    }
}

/// The transitions among `trs`, moved by two, that lead to one of the first
/// `n` states, grouped by the state they lead to.
pub open spec fn grouped_by_target<W: Semiring>(trs: Seq<Tr<W>>, n: nat) -> Seq<Tr<W>>
    decreases n,
{
    if n == 0 {
        Seq::empty()
    } else {
        grouped_by_target(trs, (n - 1) as nat) + moved_by_two(trs, n - 1)
    }
}

/// The ε-transition to the new final state that ends the paths which ended
/// in state `s`.
pub open spec fn to_new_final<W: Semiring>(f: FstView<W>, s: int) -> Seq<Tr<W>> {
    match f.states[s].final_weight {
        Some(w) => seq![Tr { ilabel: EPS_LABEL, olabel: EPS_LABEL, weight: w, nextstate: 1usize }],
        None => Seq::empty(),
    }
}

/// Turning round distributes over sequences one behind the other.
proof fn lemma_turned_into_concat<W: Semiring>(a: Seq<Tr<W>>, b: Seq<Tr<W>>, s: int, t: int)
    ensures
        turned_into(a + b, s, t) == turned_into(a, s, t) + turned_into(b, s, t),
    decreases b.len(),
{
    if b.len() == 0 {
        assert(a + b =~= a);
        assert(turned_into(a, s, t) + turned_into(b, s, t) =~= turned_into(a, s, t));
    } else {
        lemma_turned_into_concat(a, b.drop_last(), s, t);
        assert((a + b).drop_last() =~= a + b.drop_last());
        assert((a + b).last() == b.last());
        if b.last().nextstate == t {
            assert((turned_into(a, s, t) + turned_into(b.drop_last(), s, t)).push(
                turned(b.last(), s),
            ) =~= turned_into(a, s, t) + turned_into(b.drop_last(), s, t).push(
                turned(b.last(), s),
            ));
        }
    }
}

/// Of the transitions of state `p` that were turned round into state `t`,
/// those that lead to state `s + 1` when turned round again are all of them
/// where `p` is `s`, and none else.
proof fn lemma_turned_twice<W: Semiring>(trs: Seq<Tr<W>>, p: int, t: int, s: int)
    requires
        0 <= p < usize::MAX,
        0 <= s,
        0 <= t < usize::MAX - 1,
    ensures
        turned_into(turned_into(trs, p, t), t + 1, s + 1) == if p == s {
            moved_by_two(trs, t)
        } else {
            Seq::<Tr<W>>::empty()
        },
    decreases trs.len(),
{
    if trs.len() > 0 {
        lemma_turned_twice(trs.drop_last(), p, t, s);
        if trs.last().nextstate == t {
            let inner = turned_into(trs.drop_last(), p, t);
            let e = turned(trs.last(), p);
            assert(inner.push(e).drop_last() =~= inner);
            assert(inner.push(e).last() == e);
            assert(e.nextstate == p + 1);
            if p == s {
                assert(turned(e, t + 1) == trs.last().with_nextstate((t + 2) as usize));
            }
        }
    }
}

/// Of the transitions into state `t` of the first `n` states, turned round,
/// those that lead to state `s + 1` when turned round again are the
/// transitions from `s` to `t`, moved by two.
proof fn lemma_incoming_turned<W: Semiring>(f: FstView<W>, t: int, n: nat, s: int)
    requires
        n <= f.states.len(),
        f.states.len() < usize::MAX,
        0 <= s,
        0 <= t < f.states.len(),
    ensures
        turned_into(incoming(f, t, n), t + 1, s + 1) == if s < n {
            moved_by_two(f.states[s].trs, t)
        } else {
            Seq::<Tr<W>>::empty()
        },
    decreases n,
{
    if n > 0 {
        lemma_incoming_turned(f, t, (n - 1) as nat, s);
        let a = incoming(f, t, (n - 1) as nat);
        let b = turned_into(f.states[n - 1].trs, n - 1, t);
        lemma_turned_into_concat(a, b, t + 1, s + 1);
        lemma_turned_twice(f.states[n - 1].trs, n - 1, t, s);
        if s < n - 1 {
            assert(moved_by_two(f.states[s].trs, t) + Seq::<Tr<W>>::empty() =~= moved_by_two(
                f.states[s].trs,
                t,
            ));
        } else if s == n - 1 {
            assert(Seq::<Tr<W>>::empty() + moved_by_two(f.states[s].trs, t) =~= moved_by_two(
                f.states[s].trs,
                t,
            ));
        } else {
            assert(Seq::<Tr<W>>::empty() + Seq::<Tr<W>>::empty() =~= Seq::<Tr<W>>::empty());
        }
    }
}

/// Of the ε-transitions to the final states among the first `n` states,
/// the one that leads to state `s + 1` is, turned round, the ε-transition to
/// the new final state.
proof fn lemma_to_finals_turned<W: Semiring>(f: FstView<W>, n: nat, s: int)
    requires
        n <= f.states.len(),
        f.states.len() < usize::MAX,
        0 <= s,
    ensures
        turned_into(to_finals(f, n), 0, s + 1) == if s < n {
            to_new_final(f, s)
        } else {
            Seq::<Tr<W>>::empty()
        },
    decreases n,
{
    if n > 0 {
        lemma_to_finals_turned(f, (n - 1) as nat, s);
        match f.states[n - 1].final_weight {
            Some(w) => {
                let rest = to_finals(f, (n - 1) as nat);
                let e = Tr { ilabel: EPS_LABEL, olabel: EPS_LABEL, weight: w, nextstate: n as usize };
                assert(rest.push(e).drop_last() =~= rest);
                assert(rest.push(e).last() == e);
                if s == n - 1 {
                    assert(turned_into(rest, 0, s + 1) =~= Seq::<Tr<W>>::empty());
                    assert(Seq::<Tr<W>>::empty().push(turned(e, 0)) =~= to_new_final(f, s));
                }
            },
            None => {
                if s == n - 1 {
                    assert(to_new_final(f, s) =~= Seq::<Tr<W>>::empty());
                }
            },
        }
    }
}

/// The transitions of the transducer reversed once: those of state 0 lead
/// to the final states, and those of state `t + 1` are the transitions into
/// `t`, turned round.
pub proof fn lemma_reversed_trs<W: Semiring>(f: FstView<W>, u: int)
    requires
        0 <= u <= f.states.len(),
    ensures
        reversed(f).states.len() == f.states.len() + 1,
        reversed(f).states[u].trs == if u == 0 {
            to_finals(f, f.states.len())
        } else {
            incoming(f, u - 1, f.states.len())
        },
        reversed(f).states[u].final_weight == if u >= 1 && f.start == Some((u - 1) as usize) {
            FstView::<W>::kept_final(W::one_spec())
        } else {
            None
        },
{
    if u >= 1 {
        assert(incoming(f, u - 1, f.states.len()) + Seq::<Tr<W>>::empty() =~= incoming(
            f,
            u - 1,
            f.states.len(),
        ));
    }
}

/// The transitions of state `s + 2` of the transducer reversed twice, as far
/// as they come from the first `m` states of the transducer reversed once:
/// the ε-transition to the new final state, and the transitions of `s` that
/// lead to the first `m - 1` states, grouped by the state they lead to.
pub proof fn lemma_incoming_of_reversed<W: Semiring>(f: FstView<W>, s: int, m: nat)
    requires
        f.graph_wf(),
        f.states.len() < usize::MAX - 1,
        0 <= s < f.states.len(),
        1 <= m <= f.states.len() + 1,
    ensures
        incoming(reversed(f), s + 1, m) == to_new_final(f, s) + grouped_by_target(
            f.states[s].trs,
            (m - 1) as nat,
        ),
    decreases m,
{
    let r = reversed(f);
    let n = f.states.len();
    if m == 1 {
        lemma_reversed_trs(f, 0);
        lemma_to_finals_turned(f, n, s);
        assert(incoming(r, s + 1, 0) =~= Seq::<Tr<W>>::empty());
        assert(Seq::<Tr<W>>::empty() + to_new_final(f, s) =~= to_new_final(f, s));
        assert(to_new_final(f, s) + Seq::<Tr<W>>::empty() =~= to_new_final(f, s));
    } else {
        lemma_incoming_of_reversed(f, s, (m - 1) as nat);
        let t = m - 2;
        lemma_reversed_trs(f, m - 1);
        lemma_incoming_turned(f, t, n, s);
        let a = to_new_final(f, s);
        let b = grouped_by_target(f.states[s].trs, (m - 2) as nat);
        let c = moved_by_two(f.states[s].trs, t);
        assert((a + b) + c =~= a + (b + c));
    }
}

/// What the transitions of a state contribute when they are grouped by the
/// state they lead to is what they contribute in their order.
proof fn lemma_grouped_weight<W: Semiring>(
    g: FstView<W>,
    trs: Seq<Tr<W>>,
    n: nat,
    x: Seq<Label>,
    y: Seq<Label>,
    k: nat,
)
    requires
        forall|i: int| 0 <= i < trs.len() ==> (#[trigger] trs[i]).nextstate < n,
        n < usize::MAX - 1,
    ensures
        weight_through(g, grouped_by_target(trs, n), x, y, k) == weight_through(
            g,
            shifted(trs),
            x,
            y,
            k,
        ),
    decreases trs.len(),
{
    if trs.len() == 0 {
        lemma_grouped_empty::<W>(n);
        assert(trs =~= Seq::<Tr<W>>::empty());
        assert(shifted(trs) =~= Seq::<Tr<W>>::empty());
    } else {
        let rest = trs.drop_last();
        let e = trs.last();
        assert(e == trs[trs.len() - 1]);
        assert(rest.push(e) =~= trs);
        assert forall|i: int| 0 <= i < rest.len() implies (#[trigger] rest[i]).nextstate < n by {
            assert(rest[i] == trs[i]);
        }
        lemma_grouped_weight(g, rest, n, x, y, k);
        lemma_grouped_push(g, rest, e, n, x, y, k);
        assert(shifted(trs) =~= shifted(rest).push(e.with_nextstate((e.nextstate + 2) as usize)));
        lemma_weight_through_push(
            g,
            shifted(rest),
            e.with_nextstate((e.nextstate + 2) as usize),
            x,
            y,
            k,
        );
    }
}

/// The transitions, each leading to the state two places further on.
pub open spec fn shifted<W: Semiring>(trs: Seq<Tr<W>>) -> Seq<Tr<W>> {
    Seq::new(trs.len(), |i: int| trs[i].with_nextstate((trs[i].nextstate + 2) as usize))
}

proof fn lemma_grouped_empty<W: Semiring>(n: nat)
    ensures
        grouped_by_target(Seq::<Tr<W>>::empty(), n) == Seq::<Tr<W>>::empty(),
    decreases n,
{
    if n > 0 {
        lemma_grouped_empty::<W>((n - 1) as nat);
        assert(Seq::<Tr<W>>::empty() + Seq::<Tr<W>>::empty() =~= Seq::<Tr<W>>::empty());
    }
}

/// One more transition adds what it contributes to what the grouped
/// transitions contribute, whichever group it joins.
proof fn lemma_grouped_push<W: Semiring>(
    g: FstView<W>,
    trs: Seq<Tr<W>>,
    e: Tr<W>,
    n: nat,
    x: Seq<Label>,
    y: Seq<Label>,
    k: nat,
)
    requires
        n < usize::MAX - 1,
    ensures
        weight_through(g, grouped_by_target(trs.push(e), n), x, y, k) == weight_through(
            g,
            grouped_by_target(trs, n),
            x,
            y,
            k,
        ).plus_spec(
            if e.nextstate < n {
                step_weight(g, e.with_nextstate((e.nextstate + 2) as usize), x, y, k)
            } else {
                W::zero_spec()
            },
        ),
    decreases n,
{
    let full = trs.push(e);
    if n == 0 {
        W::lemma_plus_zero(W::zero_spec());
    } else {
        lemma_grouped_push(g, trs, e, (n - 1) as nat, x, y, k);
        let a0 = grouped_by_target(trs, (n - 1) as nat);
        let a1 = grouped_by_target(full, (n - 1) as nat);
        let b0 = moved_by_two(trs, n - 1);
        let b1 = moved_by_two(full, n - 1);
        lemma_weight_through_concat(g, a0, b0, x, y, k);
        lemma_weight_through_concat(g, a1, b1, x, y, k);
        assert(full.drop_last() =~= trs);
        let wa0 = weight_through(g, a0, x, y, k);
        let wb0 = weight_through(g, b0, x, y, k);
        let se = step_weight(g, e.with_nextstate((e.nextstate + 2) as usize), x, y, k);
        if e.nextstate == n - 1 {
            // the transition joins the last group
            lemma_weight_through_push(g, b0, e.with_nextstate((n + 1) as usize), x, y, k);
            W::lemma_plus_zero(wa0);
            W::lemma_plus_associative(wa0, wb0, se);
        } else if e.nextstate < n - 1 {
            // the transition joined an earlier group
            assert(b1 == b0);
            W::lemma_plus_associative(wa0, se, wb0);
            W::lemma_plus_commutative(se, wb0);
            W::lemma_plus_associative(wa0, wb0, se);
        } else {
            assert(b1 == b0);
            W::lemma_plus_zero(wa0);
            W::lemma_plus_zero(wa0.plus_spec(wb0));
        }
    }
}

/// The new final state ends every path at once: it is final with weight
/// `1̄` and has no transition.
proof fn lemma_new_final_state<W: Semiring>(f: FstView<W>, x: Seq<Label>, y: Seq<Label>, k: nat)
    requires
        f.graph_wf(),
        f.states.len() < usize::MAX - 1,
        W::one_spec() != W::zero_spec(),
    ensures
        weight_from(reversed(reversed(f)), 1, x, y, k) == if x.len() == 0 && y.len() == 0 {
            W::one_spec()
        } else {
            W::zero_spec()
        },
{
    let r = reversed(f);
    let rr = reversed(r);
    lemma_reversed_trs(r, 1);
    lemma_no_way_back(f, r.states.len());
    W::lemma_plus_zero(ending_weight(rr, 1, x, y));
}

/// No transition of the transducer reversed once leads to its start state.
pub proof fn lemma_no_way_back<W: Semiring>(f: FstView<W>, m: nat)
    requires
        f.graph_wf(),
        f.states.len() < usize::MAX - 1,
        m <= f.states.len() + 1,
    ensures
        incoming(reversed(f), 0, m) == Seq::<Tr<W>>::empty(),
    decreases m,
{
    if m > 0 {
        lemma_no_way_back(f, (m - 1) as nat);
        let r = reversed(f);
        lemma_reversed_trs(f, m - 1);
        lemma_none_turned(r.states[m - 1].trs, m - 1);
        assert(Seq::<Tr<W>>::empty() + Seq::<Tr<W>>::empty() =~= Seq::<Tr<W>>::empty());
        if m == 1 {
            lemma_to_finals_targets(f, f.states.len());
        } else {
            lemma_incoming_targets(f, m - 2, f.states.len());
        }
    }
}

/// Transitions that do not lead to state 0 are not turned round into it.
proof fn lemma_none_turned<W: Semiring>(trs: Seq<Tr<W>>, s: int)
    ensures
        (forall|i: int| 0 <= i < trs.len() ==> (#[trigger] trs[i]).nextstate != 0) ==> turned_into(
            trs,
            s,
            0,
        ) == Seq::<Tr<W>>::empty(),
    decreases trs.len(),
{
    if trs.len() > 0 {
        lemma_none_turned(trs.drop_last(), s);
        if forall|i: int| 0 <= i < trs.len() ==> (#[trigger] trs[i]).nextstate != 0 {
            assert forall|i: int| 0 <= i < trs.drop_last().len() implies (#[trigger] trs.drop_last()[i]).nextstate
                != 0 by {
                assert(trs.drop_last()[i] == trs[i]);
            }
            assert(trs.last() == trs[trs.len() - 1]);
        }
    }
}

/// None of the ε-transitions to the final states leads to state 0.
pub proof fn lemma_to_finals_targets<W: Semiring>(f: FstView<W>, n: nat)
    requires
        n <= f.states.len(),
        f.states.len() < usize::MAX,
    ensures
        forall|i: int| 0 <= i < to_finals(f, n).len() ==> (#[trigger] to_finals(f, n)[i]).nextstate
            != 0,
    decreases n,
{
    if n > 0 {
        lemma_to_finals_targets(f, (n - 1) as nat);
        let rest = to_finals(f, (n - 1) as nat);
        assert forall|i: int| 0 <= i < to_finals(f, n).len() implies (#[trigger] to_finals(
            f,
            n,
        )[i]).nextstate != 0 by {
            if i < rest.len() {
                assert(to_finals(f, n)[i] == rest[i]);
            }
        }
    }
}

/// No transition that was turned round leads to state 0.
proof fn lemma_turned_targets<W: Semiring>(trs: Seq<Tr<W>>, s: int, t: int)
    requires
        0 <= s < usize::MAX - 1,
    ensures
        forall|i: int|
            0 <= i < turned_into(trs, s, t).len() ==> (#[trigger] turned_into(
                trs,
                s,
                t,
            )[i]).nextstate != 0,
    decreases trs.len(),
{
    if trs.len() > 0 {
        lemma_turned_targets(trs.drop_last(), s, t);
        let rest = turned_into(trs.drop_last(), s, t);
        assert forall|i: int| 0 <= i < turned_into(trs, s, t).len() implies (#[trigger] turned_into(
            trs,
            s,
            t,
        )[i]).nextstate != 0 by {
            if i < rest.len() {
                assert(turned_into(trs, s, t)[i] == rest[i]);
            }
        }
    }
}

/// No transition that was turned round leads to state 0.
pub proof fn lemma_incoming_targets<W: Semiring>(f: FstView<W>, t: int, n: nat)
    requires
        n <= f.states.len(),
        f.states.len() < usize::MAX,
    ensures
        forall|i: int|
            0 <= i < incoming(f, t, n).len() ==> (#[trigger] incoming(f, t, n)[i]).nextstate != 0,
    decreases n,
{
    if n > 0 {
        lemma_incoming_targets(f, t, (n - 1) as nat);
        lemma_turned_targets(f.states[n - 1].trs, n - 1, t);
        let a = incoming(f, t, (n - 1) as nat);
        let b = turned_into(f.states[n - 1].trs, n - 1, t);
        assert forall|i: int| 0 <= i < incoming(f, t, n).len() implies (#[trigger] incoming(
            f,
            t,
            n,
        )[i]).nextstate != 0 by {
            if i < a.len() {
                assert(incoming(f, t, n)[i] == a[i]);
            } else {
                assert(incoming(f, t, n)[i] == b[i - a.len()]);
            }
        }
    }
}

/// From the place of state `s` the transducer reversed twice gives a pair of
/// strings, within one transition more, what the given transducer gives it from
/// `s`.
pub proof fn lemma_reverse_twice_from<W: Semiring>(
    f: FstView<W>,
    s: int,
    x: Seq<Label>,
    y: Seq<Label>,
    k: nat,
)
    requires
        f.graph_wf(),
        f.states.len() < usize::MAX - 1,
        W::one_spec() != W::zero_spec(),
        0 <= s < f.states.len(),
    ensures
        weight_from(reversed(reversed(f)), s + 2, x, y, k + 1) == weight_from(f, s, x, y, k),
    decreases k,
{
    let r = reversed(f);
    let rr = reversed(r);
    let n = f.states.len();
    let trs = f.states[s].trs;
    lemma_reversed_trs(r, s + 2);
    lemma_reversed_trs(f, 0);
    lemma_incoming_of_reversed(f, s, n + 1);
    assert(rr.states[s + 2].final_weight is None);
    assert(rr.states[s + 2].trs == to_new_final(f, s) + grouped_by_target(trs, n));
    lemma_weight_through_concat(rr, to_new_final(f, s), grouped_by_target(trs, n), x, y, k);
    assert forall|i: int| 0 <= i < trs.len() implies (#[trigger] trs[i]).nextstate < n by {
        assert(f.has_tr(s, i));
    }
    lemma_grouped_weight(rr, trs, n, x, y, k);
    // the ε-transition to the new final state stands for the final weight
    lemma_new_final_state(f, x, y, k);
    assert(weight_through(rr, to_new_final(f, s), x, y, k) == ending_weight(f, s, x, y)) by {
        match f.states[s].final_weight {
            Some(w) => {
                let e = Tr {
                    ilabel: EPS_LABEL,
                    olabel: EPS_LABEL,
                    weight: w,
                    nextstate: 1usize,
                };
                assert(to_new_final(f, s) =~= seq![e]);
                assert(seq![e].drop_last() =~= Seq::<Tr<W>>::empty());
                assert(seq![e].last() == e);
                assert(weight_through(rr, Seq::<Tr<W>>::empty(), x, y, k) == W::zero_spec());
                assert(consume(EPS_LABEL, x) == Some(x) && consume(EPS_LABEL, y) == Some(y));
                assert(step_weight(rr, e, x, y, k) == w.times_spec(weight_from(rr, 1, x, y, k)));
                assert(weight_through(rr, seq![e], x, y, k) == W::zero_spec().plus_spec(
                    step_weight(rr, e, x, y, k),
                ));
                W::lemma_plus_zero(step_weight(rr, e, x, y, k));
                W::lemma_times_one(w);
                W::lemma_times_zero(w);
            },
            None => {},
        }
    }
    // the other transitions stand for the transitions of the state
    if k == 0 {
        assert forall|i: int| 0 <= i < shifted(trs).len() implies step_weight(
            rr,
            #[trigger] shifted(trs)[i],
            x,
            y,
            0,
        ) == W::zero_spec() by {
            let t = trs[i].nextstate as int;
            lemma_reversed_trs(r, t + 2);
            W::lemma_times_zero(trs[i].weight);
        }
        lemma_weight_through_zero(rr, shifted(trs), x, y, 0);
        W::lemma_plus_zero(ending_weight(f, s, x, y));
        W::lemma_plus_zero(ending_weight(rr, s + 2, x, y));
    } else {
        assert forall|i: int| 0 <= i < shifted(trs).len() implies step_weight(
            rr,
            #[trigger] shifted(trs)[i],
            x,
            y,
            k,
        ) == step_weight(f, trs[i], x, y, (k - 1) as nat) by {
            let t = trs[i].nextstate as int;
            match (consume(trs[i].ilabel, x), consume(trs[i].olabel, y)) {
                (Some(x2), Some(y2)) => {
                    lemma_reverse_twice_from(f, t, x2, y2, (k - 1) as nat);
                },
                _ => {},
            }
        }
        lemma_weight_through_same(rr, shifted(trs), f, trs, x, y, k, (k - 1) as nat);
        W::lemma_plus_zero(
            ending_weight(f, s, x, y).plus_spec(weight_through(f, trs, x, y, (k - 1) as nat)),
        );
    }
}

/// Reversing twice keeps the weight of every pair of strings: what the
/// given transducer gives a pair on its successful paths of `k` transitions at most,
/// the transducer reversed twice gives it on its successful paths of `k + 2`
/// transitions at most, for every `k`.
pub proof fn lemma_reverse_twice_keeps_weights<W: Semiring>(
    f: FstView<W>,
    x: Seq<Label>,
    y: Seq<Label>,
    k: nat,
)
    requires
        f.graph_wf(),
        f.states.len() < usize::MAX - 1,
    ensures
        pair_weight(reversed(reversed(f)), x, y, k + 2) == pair_weight(f, x, y, k),
{
    let r = reversed(f);
    let rr = reversed(r);
    if W::one_spec() == W::zero_spec() {
        lemma_trivial_semiring(pair_weight(rr, x, y, k + 2));
        lemma_trivial_semiring(pair_weight(f, x, y, k));
    } else {
        lemma_reversed_trs(r, 0);
        assert(rr.start == Some(0usize));
        assert(rr.states[0].final_weight is None);
        let first = to_finals(r, r.states.len());
        lemma_first_step(f);
        match f.start {
            Some(s0) => {
                let e = Tr {
                    ilabel: EPS_LABEL,
                    olabel: EPS_LABEL,
                    weight: W::one_spec(),
                    nextstate: (s0 + 2) as usize,
                };
                assert(first =~= seq![e]);
                assert(seq![e].drop_last() =~= Seq::<Tr<W>>::empty());
                assert(seq![e].last() == e);
                assert(f.has_state(s0 as int));
                lemma_reverse_twice_from(f, s0 as int, x, y, k);
                assert(weight_through(rr, Seq::<Tr<W>>::empty(), x, y, (k + 1) as nat)
                    == W::zero_spec());
                assert(consume(EPS_LABEL, x) == Some(x) && consume(EPS_LABEL, y) == Some(y));
                assert(e.nextstate as int == s0 + 2);
                assert(step_weight(rr, e, x, y, (k + 1) as nat) == W::one_spec().times_spec(
                    weight_from(rr, s0 + 2, x, y, (k + 1) as nat),
                ));
                assert(weight_through(rr, seq![e], x, y, (k + 1) as nat)
                    == W::zero_spec().plus_spec(step_weight(rr, e, x, y, (k + 1) as nat)));
                W::lemma_times_one(weight_from(rr, s0 + 2, x, y, (k + 1) as nat));
                W::lemma_plus_zero(step_weight(rr, e, x, y, (k + 1) as nat));
                W::lemma_plus_zero(weight_through(rr, first, x, y, (k + 1) as nat));
                assert(weight_from(rr, 0, x, y, (k + 2) as nat) == ending_weight(
                    rr,
                    0,
                    x,
                    y,
                ).plus_spec(weight_through(rr, rr.states[0].trs, x, y, (k + 1) as nat)));
            },
            None => {
                assert(first =~= Seq::<Tr<W>>::empty());
                assert(weight_through(rr, Seq::<Tr<W>>::empty(), x, y, (k + 1) as nat)
                    == W::zero_spec());
                assert(weight_from(rr, 0, x, y, (k + 2) as nat) == ending_weight(
                    rr,
                    0,
                    x,
                    y,
                ).plus_spec(weight_through(rr, rr.states[0].trs, x, y, (k + 1) as nat)));
                W::lemma_plus_zero(W::zero_spec());
            },
        }
    }
}

/// The one transition of the new start state leads to the place of the
/// start state of the given transducer.
pub proof fn lemma_first_step<W: Semiring>(f: FstView<W>)
    requires
        f.graph_wf(),
        f.states.len() < usize::MAX - 1,
        W::one_spec() != W::zero_spec(),
    ensures
        to_finals(reversed(f), reversed(f).states.len()) == match f.start {
            Some(s0) => seq![
                Tr {
                    ilabel: EPS_LABEL,
                    olabel: EPS_LABEL,
                    weight: W::one_spec(),
                    nextstate: (s0 + 2) as usize,
                },
            ],
            None => Seq::<Tr<W>>::empty(),
        },
{
    lemma_first_steps_upto(f, reversed(f).states.len());
}

proof fn lemma_first_steps_upto<W: Semiring>(f: FstView<W>, m: nat)
    requires
        f.graph_wf(),
        f.states.len() < usize::MAX - 1,
        W::one_spec() != W::zero_spec(),
        m <= f.states.len() + 1,
    ensures
        to_finals(reversed(f), m) == match f.start {
            Some(s0) => if s0 + 1 < m {
                seq![
                    Tr {
                        ilabel: EPS_LABEL,
                        olabel: EPS_LABEL,
                        weight: W::one_spec(),
                        nextstate: (s0 + 2) as usize,
                    },
                ]
            } else {
                Seq::<Tr<W>>::empty()
            },
            None => Seq::<Tr<W>>::empty(),
        },
    decreases m,
{
    if m > 0 {
        lemma_first_steps_upto(f, (m - 1) as nat);
        lemma_reversed_trs(f, m - 1);
        let rest = to_finals(reversed(f), (m - 1) as nat);
        match f.start {
            Some(s0) => {
                if s0 + 1 == m - 1 {
                    assert(rest =~= Seq::<Tr<W>>::empty());
                    assert(Seq::<Tr<W>>::empty().push(
                        Tr {
                            ilabel: EPS_LABEL,
                            olabel: EPS_LABEL,
                            weight: W::one_spec(),
                            nextstate: m as usize,
                        },
                    ) =~= seq![
                        Tr {
                            ilabel: EPS_LABEL,
                            olabel: EPS_LABEL,
                            weight: W::one_spec(),
                            nextstate: (s0 + 2) as usize,
                        },
                    ]);
                }
            },
            None => {},
        }
    }
}

} // verus!
