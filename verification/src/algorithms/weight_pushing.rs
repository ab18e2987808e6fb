//! Weight pushing: moving the weight of each path toward its start or its
//! end, as far as it goes.
//!
//! Pushing toward the start state reweights with the shortest distance from
//! each state to the final states; pushing toward the final states, with the
//! shortest distance from the start state to each state. What is then
//! missing in front of every path stands on an ε-transition from a new start
//! state.

use vstd::prelude::*;
use crate::algorithms::language_laws::lemma_same_states_same_weight;
use crate::algorithms::rational::eps_tr;
use crate::algorithms::reverse::{lemma_reversed_is_acyclic, reverse, reversed};
use crate::algorithms::reweight::{
    are_initial_potentials, can_reweight, is_reweightable, lemma_reweight_puts_potential_on,
    lemma_reweight_takes_potential_off, reweight, reweighted, ReweightType,
};
use crate::algorithms::shortest_distance::{is_single_source_distance, shortest_distance};
use crate::error::FstError;
use crate::fst_properties::FstProperties;
use crate::fst_traits::MutableFst;
use crate::fst_view::{FstView, StateView};
use crate::pair_weight::{ending_weight, pair_weight, weight_from, weight_through};
use crate::semirings::semiring::{DivideType, Semiring, WeaklyDivisibleSemiring};
use crate::tr::{Label, Tr, EPS_LABEL};

verus! {

/// Whether `v` holds the potentials with which weights are pushed: the
/// shortest distance from each state to the final states, or from the start
/// state to each state. The distances to the final states are those from the
/// start state of the reversed transducer, whose state `s + 1` is state `s`.
pub open spec fn are_push_potentials<W: Semiring>(
    f: FstView<W>,
    v: Seq<W>,
    reweight_type: ReweightType,
) -> bool {
    match reweight_type {
        ReweightType::ReweightToInitial => exists|d: Seq<W>| #[trigger]
            is_single_source_distance(reversed(f), 0, d) && v == d.subrange(1, d.len() as int),
        ReweightType::ReweightToFinal => match f.start {
            Some(start) => is_single_source_distance(f, start, v),
            None => v == Seq::new(f.states.len(), |q: int| W::zero_spec()),
        },
    }
}

/// Whether the start state has a potential that must be made up for: one
/// that is neither `0̄` nor `1̄`.
pub open spec fn needs_entry<W: Semiring>(f: FstView<W>, v: Seq<W>) -> bool {
    f.start matches Some(start) && v[start as int] != W::zero_spec() && v[start as int]
        != W::one_spec()
}

/// The weight that makes up for the potential `v` of the start state, where
/// the division that it takes is defined.
pub open spec fn entry_weight<W: WeaklyDivisibleSemiring>(
    v: W,
    reweight_type: ReweightType,
) -> Option<W> {
    match reweight_type {
        ReweightType::ReweightToInitial => Some(v),
        ReweightType::ReweightToFinal => W::one_spec().divide_spec(v, DivideType::DivideRight),
    }
}

/// Whether weights can be pushed with these potentials: the transducer can
/// be reweighted with them, what makes up for the potential of the start
/// state is defined, and there is room for one more state.
pub open spec fn is_pushable<W: WeaklyDivisibleSemiring>(
    f: FstView<W>,
    v: Seq<W>,
    reweight_type: ReweightType,
) -> bool {
    &&& f.states.len() < usize::MAX
    &&& is_reweightable(f, v, reweight_type)
    &&& needs_entry(f, v) ==> entry_weight(v[f.start->0 as int], reweight_type) is Some
}

/// The transducer with its weights pushed: the reweighted transducer, and
/// where the start state has a potential to make up for, a new start state
/// that leads to it by an ε-transition with the weight that does so.
pub open spec fn pushed<W: WeaklyDivisibleSemiring>(
    f: FstView<W>,
    v: Seq<W>,
    reweight_type: ReweightType,
) -> FstView<W> {
    let g = reweighted(f, v, reweight_type);
    if needs_entry(f, v) {
        g.with_states(
            g.states.push(
                StateView {
                    final_weight: None,
                    trs: seq![
                        eps_tr(entry_weight(v[f.start->0 as int], reweight_type)->0, f.start->0),
                    ],
                },
            ),
        ).with_start(Some(f.states.len() as usize))
    } else {
        g
    }
}

/// The potentials with which weights are pushed, or nothing for a
/// transducer with as many states as a machine word can count.
fn push_potentials<W: WeaklyDivisibleSemiring, F: MutableFst<W>>(
    fst: &F,
    reweight_type: ReweightType,
) -> (r: Option<Vec<W>>)
    requires
        fst@.wf(),
        W::descends() || fst@.is_acyclic(),
    ensures
        match r {
            Some(v) => are_push_potentials(fst@, v@, reweight_type) && v@.len()
                == fst@.states.len() && fst@.states.len() < usize::MAX,
            None => fst@.states.len() == usize::MAX,
        },
{
    let n = fst.num_states();
    if n == usize::MAX {
        return None;
    }
    match reweight_type {
        ReweightType::ReweightToInitial => {
            let rev: F = match reverse(fst) {
                Ok(rev) => rev,
                Err(_) => {
                    return None;
                },
            };
            proof {
                if fst@.is_acyclic() {
                    lemma_reversed_is_acyclic(fst@);
                }
            }
            let d = match shortest_distance(&rev) {
                Ok(d) => d,
                Err(_) => {
                    proof {
                        assert(false);
                    }
                    return None;
                },
            };
            assert(d@.len() == n + 1);
            let mut v: Vec<W> = Vec::new();
            let mut s: usize = 0;
            while s < n
                invariant
                    s <= n,
                    d@.len() == n + 1,
                    v@ =~= d@.subrange(1, s + 1),
                decreases n - s,
            {
                v.push(d[s + 1]);
                s += 1;
            }
            assert(is_single_source_distance(reversed(fst@), 0, d@));
            Some(v)
        },
        ReweightType::ReweightToFinal => {
            match shortest_distance(fst) {
                Ok(d) => {
                    assert(d@.len() == n) by {
                        if fst@.start is Some {
                        }
                    }
                    Some(d)
                },
                Err(_) => {
                    proof {
                        assert(false);
                    }
                    None
                },
            }
        },
    }
}

/// Pushes the weights toward the start state or toward the final states, in
/// place. The transducer must have no cycle unless the semiring descends.
/// It is refused and not changed where it has as many states as a machine
/// word can count, or where one of the divisions that the potentials ask
/// for is not defined.
pub fn push_weights<W: WeaklyDivisibleSemiring, F: MutableFst<W>>(
    fst: &mut F,
    reweight_type: ReweightType,
) -> (r: Result<(), FstError>)
    requires
        old(fst)@.wf(),
        W::descends() || old(fst)@.is_acyclic(),
    ensures
        final(fst)@.wf(),
        match r {
            Ok(_) => exists|v: Seq<W>| #[trigger]
                are_push_potentials(old(fst)@, v, reweight_type) && is_pushable(
                    old(fst)@,
                    v,
                    reweight_type,
                ) && final(fst)@ == pushed(old(fst)@, v, reweight_type),
            Err(e) => e == FstError::InvalidInput && final(fst)@ == old(fst)@ && (old(
                fst,
            )@.states.len() == usize::MAX || exists|v: Seq<W>| #[trigger]
                are_push_potentials(old(fst)@, v, reweight_type) && !is_pushable(
                    old(fst)@,
                    v,
                    reweight_type,
                )),
        },
{
    let ghost f = fst@;
    let v = match push_potentials(&*fst, reweight_type) {
        Some(v) => v,
        None => {
            return Err(FstError::InvalidInput);
        },
    };
    if !can_reweight(&*fst, v.as_slice(), reweight_type) {
        assert(!is_pushable(f, v@, reweight_type));
        return Err(FstError::InvalidInput);
    }
    let entry_weight = match fst.start() {
        Some(start) => {
            let d_s = v[start];
            if d_s.is_zero() || d_s.is_one() {
                None
            } else {
                let w = match reweight_type {
                    ReweightType::ReweightToInitial => Some(d_s),
                    ReweightType::ReweightToFinal => W::one().divide(
                        &d_s,
                        DivideType::DivideRight,
                    ),
                };
                match w {
                    Some(w) => Some((w, start)),
                    None => {
                        assert(!is_pushable(f, v@, reweight_type));
                        return Err(FstError::InvalidInput);
                    },
                }
            }
        },
        None => None,
    };
    assert(is_pushable(f, v@, reweight_type));
    match reweight(fst, v.as_slice(), reweight_type) {
        Ok(_) => {},
        Err(e) => {
            proof {
                assert(false);
            }
            return Err(e);
        },
    }
    match entry_weight {
        Some((w, start)) => {
            let ghost g = fst@;
            let entry = fst.add_state();
            fst.add_tr_unchecked(entry, Tr::new(EPS_LABEL, EPS_LABEL, w, start));
            fst.set_start_unchecked(entry);
            proof {
                fst@.lemma_with_properties_wf(Set::empty());
            }
            fst.set_properties(FstProperties::empty());
            proof {
                let target = pushed(f, v@, reweight_type);
                assert(fst@.states.len() == target.states.len());
                assert forall|t: int| 0 <= t < target.states.len() implies fst@.states[t]
                    == target.states[t] by {
                    if t == entry {
                        assert(fst@.states[t].trs =~= target.states[t].trs);
                    } else {
                        assert(fst@.states[t] == g.states[t]);
                    }
                }
                assert(fst@.states =~= target.states);
                assert(fst@ =~= target);
            }
        },
        None => {
            assert(!needs_entry(f, v@));
        },
    }
    Ok(())
}

/// Pushing toward the start state keeps the weight of every pair of
/// strings, where no potential is `0̄` and each of them divides what it is to
/// divide. Where a new start state was added the paths have one transition
/// more.
pub proof fn lemma_push_to_initial_keeps_weights<W: WeaklyDivisibleSemiring>(
    f: FstView<W>,
    v: Seq<W>,
    x: Seq<Label>,
    y: Seq<Label>,
    k: nat,
)
    requires
        f.graph_wf(),
        f.states.len() < usize::MAX,
        are_initial_potentials(f, v),
    ensures
        pair_weight(
            pushed(f, v, ReweightType::ReweightToInitial),
            x,
            y,
            if needs_entry(f, v) {
                k + 1
            } else {
                k
            },
        ) == pair_weight(f, x, y, k),
{
    let ty = ReweightType::ReweightToInitial;
    let g = reweighted(f, v, ty);
    let p = pushed(f, v, ty);
    match f.start {
        Some(start) => {
            let s = start as int;
            lemma_reweight_takes_potential_off(f, v, s, x, y, k);
            if needs_entry(f, v) {
                let n = f.states.len() as int;
                let e = eps_tr(v[s], start);
                let one = seq![e];
                assert(p.states[n].trs == one);
                assert(one.drop_last() =~= Seq::<Tr<W>>::empty());
                assert(one.last() == e);
                assert(weight_through(p, one.drop_last(), x, y, k) == W::zero_spec());
                assert(ending_weight(p, n, x, y) == W::zero_spec());
                assert forall|t: int, i: int|
                    0 <= t < n && 0 <= i < p.states[t].trs.len() implies (#[trigger] p.states[t].trs[i]).nextstate
                    < n by {
                    assert(p.states[t] == g.states[t]);
                    assert(f.has_tr(t, i));
                }
                lemma_same_states_same_weight(p, g, n, s, x, y, k);
                W::lemma_plus_zero(v[s].times_spec(weight_from(p, s, x, y, k)));
            } else {
                W::lemma_times_one(weight_from(g, s, x, y, k));
            }
        },
        None => {},
    }
}

/// Pushing toward the final states keeps the weight of every pair of
/// strings, where no potential is `0̄` and each division that the potentials
/// ask for is defined. Where a new start state was added the paths have one
/// transition more.
pub proof fn lemma_push_to_final_keeps_weights<W: WeaklyDivisibleSemiring>(
    f: FstView<W>,
    v: Seq<W>,
    x: Seq<Label>,
    y: Seq<Label>,
    k: nat,
)
    requires
        f.graph_wf(),
        is_pushable(f, v, ReweightType::ReweightToFinal),
        forall|s: int| 0 <= s < v.len() ==> #[trigger] v[s] != W::zero_spec(),
    ensures
        pair_weight(
            pushed(f, v, ReweightType::ReweightToFinal),
            x,
            y,
            if needs_entry(f, v) {
                k + 1
            } else {
                k
            },
        ) == pair_weight(f, x, y, k),
{
    let ty = ReweightType::ReweightToFinal;
    let g = reweighted(f, v, ty);
    let p = pushed(f, v, ty);
    match f.start {
        Some(start) => {
            let s = start as int;
            lemma_reweight_puts_potential_on(f, v, s, x, y, k);
            if needs_entry(f, v) {
                let n = f.states.len() as int;
                let w = entry_weight(v[s], ty)->0;
                let e = eps_tr(w, start);
                let one = seq![e];
                W::lemma_divide_is_quotient(W::one_spec(), v[s], DivideType::DivideRight);
                assert(w.times_spec(v[s]) == W::one_spec());
                assert(p.states[n].trs == one);
                assert(one.drop_last() =~= Seq::<Tr<W>>::empty());
                assert(one.last() == e);
                assert(weight_through(p, one.drop_last(), x, y, k) == W::zero_spec());
                assert(ending_weight(p, n, x, y) == W::zero_spec());
                assert forall|t: int, i: int|
                    0 <= t < n && 0 <= i < p.states[t].trs.len() implies (#[trigger] p.states[t].trs[i]).nextstate
                    < n by {
                    assert(p.states[t] == g.states[t]);
                    assert(f.has_tr(t, i));
                }
                lemma_same_states_same_weight(p, g, n, s, x, y, k);
                W::lemma_plus_zero(w.times_spec(weight_from(p, s, x, y, k)));
                W::lemma_times_associative(w, v[s], weight_from(f, s, x, y, k));
                W::lemma_times_one(weight_from(f, s, x, y, k));
            } else {
                W::lemma_times_one(weight_from(f, s, x, y, k));
            }
        },
        None => {},
    }
}

} // verus!
