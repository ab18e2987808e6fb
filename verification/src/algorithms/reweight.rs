//! Reweighting: moving weight along the paths of a transducer.
//!
//! Each state has a potential. Reweighting toward the start state replaces
//! the weight `w` of a transition from `s` to `t` by `V[s]⁻¹ ⊗ w ⊗ V[t]` and
//! the final weight `ρ` of `s` by `V[s]⁻¹ ⊗ ρ`, so that each path from `s`
//! loses the factor `V[s]` in front. Reweighting toward the final states
//! replaces `w` by `V[s] ⊗ w ⊗ V[t]⁻¹` and `ρ` by `V[s] ⊗ ρ`.

use vstd::prelude::*;
use crate::error::FstError;
use crate::fst_properties::FstProperties;
use crate::fst_traits::MutableFst;
use crate::fst_view::{FstView, StateView};
use crate::pair_weight::{
    consume, ending_weight, final_weight_or_zero, step_weight, weight_from, weight_through,
};
use crate::semirings::semiring::{DivideType, Semiring, WeaklyDivisibleSemiring};
use crate::tr::{Label, Tr};

verus! {

/// The side toward which the weight is moved.
#[derive(Clone, Copy, Debug, PartialEq, Eq, Structural)]
pub enum ReweightType {
    /// Toward the start state.
    ReweightToInitial,
    /// Toward the final states.
    ReweightToFinal,
}

/// The new weight of a transition with weight `w` from a state with
/// potential `d_s` to a state with potential `d_ns`, where the division
/// that it takes is defined. A potential `0̄` at either end leaves the weight
/// as it is.
pub open spec fn reweighted_weight<W: WeaklyDivisibleSemiring>(
    w: W,
    d_s: W,
    d_ns: W,
    reweight_type: ReweightType,
) -> Option<W> {
    if d_s == W::zero_spec() || d_ns == W::zero_spec() {
        Some(w)
    } else {
        match reweight_type {
            ReweightType::ReweightToInitial => w.times_spec(d_ns).divide_spec(
                d_s,
                DivideType::DivideLeft,
            ),
            ReweightType::ReweightToFinal => d_s.times_spec(w).divide_spec(
                d_ns,
                DivideType::DivideRight,
            ),
        }
    }
}

/// The new final weight of a state with final weight `w` and potential
/// `d_s`, where the division that it takes is defined. A potential `0̄`
/// leaves the weight as it is.
pub open spec fn reweighted_final<W: WeaklyDivisibleSemiring>(
    w: W,
    d_s: W,
    reweight_type: ReweightType,
) -> Option<W> {
    if d_s == W::zero_spec() {
        Some(w)
    } else {
        match reweight_type {
            ReweightType::ReweightToInitial => w.divide_spec(d_s, DivideType::DivideLeft),
            ReweightType::ReweightToFinal => Some(d_s.times_spec(w)),
        }
    }
}

/// Whether state `s` can be reweighted: each division that its transitions
/// and its final weight take is defined.
pub open spec fn is_reweightable_at<W: WeaklyDivisibleSemiring>(
    f: FstView<W>,
    potentials: Seq<W>,
    reweight_type: ReweightType,
    s: int,
) -> bool {
    &&& forall|i: int|
        0 <= i < f.states[s].trs.len() ==> reweighted_weight(
            (#[trigger] f.states[s].trs[i]).weight,
            potentials[s],
            potentials[f.states[s].trs[i].nextstate as int],
            reweight_type,
        ) is Some
    &&& f.states[s].final_weight matches Some(w) ==> reweighted_final(
        w,
        potentials[s],
        reweight_type,
    ) is Some
}

/// Whether the transducer can be reweighted: there is one potential for
/// each state, and each division is defined.
pub open spec fn is_reweightable<W: WeaklyDivisibleSemiring>(
    f: FstView<W>,
    potentials: Seq<W>,
    reweight_type: ReweightType,
) -> bool {
    &&& potentials.len() == f.states.len()
    &&& forall|s: int|
        0 <= s < f.states.len() ==> #[trigger] is_reweightable_at(f, potentials, reweight_type, s)
}

/// The transitions with their new weights.
pub open spec fn reweighted_trs<W: WeaklyDivisibleSemiring>(
    trs: Seq<Tr<W>>,
    potentials: Seq<W>,
    d_s: W,
    reweight_type: ReweightType,
) -> Seq<Tr<W>> {
    Seq::new(
        trs.len(),
        |i: int|
            trs[i].with_weight(
                reweighted_weight(
                    trs[i].weight,
                    d_s,
                    potentials[trs[i].nextstate as int],
                    reweight_type,
                )->0,
            ),
    )
}

/// State `s` with its new weights.
pub open spec fn reweighted_state<W: WeaklyDivisibleSemiring>(
    f: FstView<W>,
    potentials: Seq<W>,
    reweight_type: ReweightType,
    s: int,
) -> StateView<W> {
    StateView {
        final_weight: match f.states[s].final_weight {
            Some(w) => FstView::<W>::kept_final(
                reweighted_final(w, potentials[s], reweight_type)->0,
            ),
            None => None,
        },
        trs: reweighted_trs(f.states[s].trs, potentials, potentials[s], reweight_type),
    }
}

/// The transducer with the new weights in its first `n` states, and no
/// property bit.
pub open spec fn reweighted_upto<W: WeaklyDivisibleSemiring>(
    f: FstView<W>,
    potentials: Seq<W>,
    reweight_type: ReweightType,
    n: int,
) -> FstView<W> {
    f.with_states(
        Seq::new(
            f.states.len(),
            |s: int|
                if s < n {
                    reweighted_state(f, potentials, reweight_type, s)
                } else {
                    f.states[s]
                },
        ),
    ).with_properties(Set::empty())
}

/// The reweighted transducer. Nothing is known of it.
pub open spec fn reweighted<W: WeaklyDivisibleSemiring>(
    f: FstView<W>,
    potentials: Seq<W>,
    reweight_type: ReweightType,
) -> FstView<W> {
    reweighted_upto(f, potentials, reweight_type, f.states.len() as int)
}

/// The new weight of a transition, where the division is defined.
fn reweight_weight<W: WeaklyDivisibleSemiring>(
    w: &W,
    d_s: &W,
    d_ns: &W,
    reweight_type: ReweightType,
) -> (r: Option<W>)
    ensures
        r == reweighted_weight(*w, *d_s, *d_ns, reweight_type),
{
    if d_s.is_zero() || d_ns.is_zero() {
        Some(*w)
    } else {
        match reweight_type {
            ReweightType::ReweightToInitial => w.times(d_ns).divide(d_s, DivideType::DivideLeft),
            ReweightType::ReweightToFinal => d_s.times(w).divide(d_ns, DivideType::DivideRight),
        }
    }
}

/// The new final weight of a state, where the division is defined.
fn reweight_final<W: WeaklyDivisibleSemiring>(w: &W, d_s: &W, reweight_type: ReweightType) -> (r:
    Option<W>)
    ensures
        r == reweighted_final(*w, *d_s, reweight_type),
{
    if d_s.is_zero() {
        Some(*w)
    } else {
        match reweight_type {
            ReweightType::ReweightToInitial => w.divide(d_s, DivideType::DivideLeft),
            ReweightType::ReweightToFinal => Some(d_s.times(w)),
        }
    }
}

/// Whether the transducer can be reweighted with these potentials.
pub fn can_reweight<W: WeaklyDivisibleSemiring, F: MutableFst<W>>(
    fst: &F,
    potentials: &[W],
    reweight_type: ReweightType,
) -> (ok: bool)
    requires
        fst@.graph_wf(),
    ensures
        ok == is_reweightable(fst@, potentials@, reweight_type),
{
    let ghost f = fst@;
    let n = fst.num_states();
    if potentials.len() != n {
        return false;
    }
    let mut s: usize = 0;
    while s < n
        invariant
            s <= n,
            f == fst@,
            f.graph_wf(),
            n == f.states.len(),
            potentials@.len() == n,
            forall|t: int|
                0 <= t < s ==> #[trigger] is_reweightable_at(f, potentials@, reweight_type, t),
        decreases n - s,
    {
        let d_s = potentials[s];
        match fst.final_weight_unchecked(s) {
            Some(w) => {
                if reweight_final(&w, &d_s, reweight_type).is_none() {
                    assert(!is_reweightable_at(f, potentials@, reweight_type, s as int));
                    return false;
                }
            },
            None => {},
        }
        let trs = fst.get_trs_unchecked(s);
        let mut i: usize = 0;
        assert forall|j: int| 0 <= j < trs@.len() implies (#[trigger] trs@[j]).nextstate < n by {
            assert(f.has_tr(s as int, j));
        }
        while i < trs.len()
            invariant
                i <= trs.len(),
                s < n,
                f == fst@,
                f.graph_wf(),
                n == f.states.len(),
                potentials@.len() == n,
                d_s == potentials@[s as int],
                trs@ == f.states[s as int].trs,
                forall|j: int|
                    0 <= j < trs@.len() ==> (#[trigger] trs@[j]).nextstate < n,
                forall|j: int|
                    0 <= j < i ==> reweighted_weight(
                        (#[trigger] trs@[j]).weight,
                        d_s,
                        potentials@[trs@[j].nextstate as int],
                        reweight_type,
                    ) is Some,
            decreases trs.len() - i,
        {
            assert(f.has_tr(s as int, i as int));
            let tr = trs[i];
            if reweight_weight(&tr.weight, &d_s, &potentials[tr.nextstate], reweight_type).is_none() {
                proof {
                    let here = f.states[s as int].trs[i as int];
                    assert(here == tr);
                    assert(reweighted_weight(
                        here.weight,
                        potentials@[s as int],
                        potentials@[here.nextstate as int],
                        reweight_type,
                    ) is None);
                    assert(!is_reweightable_at(f, potentials@, reweight_type, s as int));
                }
                return false;
            }
            i += 1;
        }
        s += 1;
    }
    true
}

/// Gives each transition and each final state its new weight, in place.
/// Where there is not one potential for each state, or a division is not
/// defined, the transducer is refused and not changed. Every property bit
/// is cleared.
pub fn reweight<W: WeaklyDivisibleSemiring, F: MutableFst<W>>(
    fst: &mut F,
    potentials: &[W],
    reweight_type: ReweightType,
) -> (r: Result<(), FstError>)
    requires
        old(fst)@.wf(),
    ensures
        final(fst)@.wf(),
        match r {
            Ok(_) => is_reweightable(old(fst)@, potentials@, reweight_type) && final(fst)@
                == reweighted(old(fst)@, potentials@, reweight_type),
            Err(e) => e == FstError::InvalidInput && !is_reweightable(
                old(fst)@,
                potentials@,
                reweight_type,
            ) && final(fst)@ == old(fst)@,
        },
{
    let ghost f = fst@;
    if !can_reweight(&*fst, potentials, reweight_type) {
        return Err(FstError::InvalidInput);
    }
    let n = fst.num_states();
    proof {
        f.lemma_with_properties_wf(Set::empty());
    }
    fst.set_properties(FstProperties::empty());
    proof {
        assert(fst@.states =~= reweighted_upto(f, potentials@, reweight_type, 0).states);
    }
    let mut s: usize = 0;
    while s < n
        invariant
            s <= n,
            n == f.states.len(),
            f.wf(),
            is_reweightable(f, potentials@, reweight_type),
            fst@.wf(),
            fst@ == reweighted_upto(f, potentials@, reweight_type, s as int),
        decreases n - s,
    {
        let ghost before = fst@;
        let d_s = potentials[s];
        assert(is_reweightable_at(f, potentials@, reweight_type, s as int));
        assert(before.states[s as int] == f.states[s as int]);
        let trs = fst.pop_trs_unchecked(s);
        let mut out: Vec<Tr<W>> = Vec::new();
        let mut i: usize = 0;
        while i < trs.len()
            invariant
                i <= trs.len(),
                s < n,
                n == f.states.len(),
                f.wf(),
                potentials@.len() == n,
                d_s == potentials@[s as int],
                trs@ == f.states[s as int].trs,
                is_reweightable_at(f, potentials@, reweight_type, s as int),
                out@ =~= reweighted_trs(trs@.take(i as int), potentials@, d_s, reweight_type),
            decreases trs.len() - i,
        {
            assert(f.has_tr(s as int, i as int));
            let tr = trs[i];
            let w = reweight_weight(&tr.weight, &d_s, &potentials[tr.nextstate], reweight_type);
            match w {
                Some(w) => {
                    out.push(Tr::new(tr.ilabel, tr.olabel, w, tr.nextstate));
                },
                None => {
                    assert(false);
                },
            }
            i += 1;
        }
        proof {
            assert(trs@.take(trs@.len() as int) =~= trs@);
            assert forall|j: int| 0 <= j < out@.len() implies (#[trigger] out@[j]).nextstate
                < fst@.states.len() by {
                assert(f.has_tr(s as int, j));
            }
        }
        fst.set_trs_unchecked(s, out);
        match fst.final_weight_unchecked(s) {
            Some(w) => {
                match reweight_final(&w, &d_s, reweight_type) {
                    Some(v) => {
                        fst.set_final_unchecked(s, v);
                    },
                    None => {
                        assert(false);
                    },
                }
                proof {
                    fst@.lemma_with_properties_wf(Set::empty());
                }
                fst.set_properties(FstProperties::empty());
            },
            None => {},
        }
        proof {
            let g = reweighted_upto(f, potentials@, reweight_type, s + 1);
            assert forall|t: int| 0 <= t < n implies fst@.states[t] == g.states[t] by {
                assert(before.states[t] == reweighted_upto(
                    f,
                    potentials@,
                    reweight_type,
                    s as int,
                ).states[t]);
            }
            assert(fst@.states =~= g.states);
            assert(fst@ =~= g);
        }
        s += 1;
    }
    Ok(())
}

// ----- what reweighting toward the start state does to the weights of the
// pairs of strings -----

/// Whether the potentials take each state of the transducer toward the
/// start state: there is one for each state, none is `0̄`, and each of them
/// divides what it is to divide.
pub open spec fn are_initial_potentials<W: WeaklyDivisibleSemiring>(
    f: FstView<W>,
    potentials: Seq<W>,
) -> bool {
    &&& is_reweightable(f, potentials, ReweightType::ReweightToInitial)
    &&& forall|s: int| 0 <= s < potentials.len() ==> #[trigger] potentials[s] != W::zero_spec()
}

/// From each state, the reweighted transducer gives a pair of strings a
/// weight that, multiplied by the potential of the state, is the weight that
/// the transducer gave it.
pub proof fn lemma_reweight_takes_potential_off<W: WeaklyDivisibleSemiring>(
    f: FstView<W>,
    potentials: Seq<W>,
    s: int,
    x: Seq<Label>,
    y: Seq<Label>,
    k: nat,
)
    requires
        f.graph_wf(),
        f.has_state(s),
        are_initial_potentials(f, potentials),
    ensures
        potentials[s].times_spec(
            weight_from(
                reweighted(f, potentials, ReweightType::ReweightToInitial),
                s,
                x,
                y,
                k,
            ),
        ) == weight_from(f, s, x, y, k),
    decreases k, 0nat, 0nat,
{
    let ty = ReweightType::ReweightToInitial;
    let g = reweighted(f, potentials, ty);
    let v = potentials[s];
    assert(is_reweightable_at(f, potentials, ty, s));
    assert(g.states[s] == reweighted_state(f, potentials, ty, s));
    // the end of the path
    assert(v.times_spec(ending_weight(g, s, x, y)) == ending_weight(f, s, x, y)) by {
        W::lemma_times_zero(v);
        match f.states[s].final_weight {
            Some(w) => {
                W::lemma_divide_is_quotient(w, v, DivideType::DivideLeft);
            },
            None => {},
        }
    }
    if k > 0 {
        let j = (k - 1) as nat;
        lemma_reweight_takes_potential_off_through(
            f,
            potentials,
            s,
            f.states[s].trs.len() as int,
            x,
            y,
            j,
        );
        assert(f.states[s].trs.take(f.states[s].trs.len() as int) =~= f.states[s].trs);
        assert(g.states[s].trs.take(f.states[s].trs.len() as int) =~= g.states[s].trs);
        W::lemma_distributive(
            v,
            ending_weight(g, s, x, y),
            weight_through(g, g.states[s].trs, x, y, j),
        );
    }
}

/// The same of the first `n` transitions that leave a state.
proof fn lemma_reweight_takes_potential_off_through<W: WeaklyDivisibleSemiring>(
    f: FstView<W>,
    potentials: Seq<W>,
    s: int,
    n: int,
    x: Seq<Label>,
    y: Seq<Label>,
    k: nat,
)
    requires
        f.graph_wf(),
        f.has_state(s),
        are_initial_potentials(f, potentials),
        0 <= n <= f.states[s].trs.len(),
    ensures
        potentials[s].times_spec(
            weight_through(
                reweighted(f, potentials, ReweightType::ReweightToInitial),
                reweighted(f, potentials, ReweightType::ReweightToInitial).states[s].trs.take(n),
                x,
                y,
                k,
            ),
        ) == weight_through(f, f.states[s].trs.take(n), x, y, k),
    decreases k, 1nat, n,
{
    let ty = ReweightType::ReweightToInitial;
    let g = reweighted(f, potentials, ty);
    let v = potentials[s];
    let old_trs = f.states[s].trs.take(n);
    let new_trs = g.states[s].trs.take(n);
    assert(is_reweightable_at(f, potentials, ty, s));
    assert(g.states[s] == reweighted_state(f, potentials, ty, s));
    if n == 0 {
        W::lemma_times_zero(v);
    } else {
        lemma_reweight_takes_potential_off_through(f, potentials, s, n - 1, x, y, k);
        assert(old_trs.drop_last() =~= f.states[s].trs.take(n - 1));
        assert(new_trs.drop_last() =~= g.states[s].trs.take(n - 1));
        let tr = old_trs.last();
        let new_tr = new_trs.last();
        assert(f.has_tr(s, n - 1));
        assert(tr == f.tr(s, n - 1));
        assert(tr == f.states[s].trs[n - 1]);
        let t = tr.nextstate as int;
        let q = reweighted_weight(tr.weight, v, potentials[t], ty)->0;
        assert(new_tr == tr.with_weight(q));
        W::lemma_divide_is_quotient(tr.weight.times_spec(potentials[t]), v, DivideType::DivideLeft);
        assert(v.times_spec(q) == tr.weight.times_spec(potentials[t]));
        assert(v.times_spec(step_weight(g, new_tr, x, y, k)) == step_weight(f, tr, x, y, k)) by {
            match (consume(tr.ilabel, x), consume(tr.olabel, y)) {
                (Some(x2), Some(y2)) => {
                    let rest = weight_from(g, t, x2, y2, k);
                    lemma_reweight_takes_potential_off(f, potentials, t, x2, y2, k);
                    W::lemma_times_associative(v, q, rest);
                    W::lemma_times_associative(tr.weight, potentials[t], rest);
                },
                _ => {
                    W::lemma_times_zero(v);
                },
            }
        }
        W::lemma_distributive(
            v,
            weight_through(g, new_trs.drop_last(), x, y, k),
            step_weight(g, new_tr, x, y, k),
        );
    }
}

/// Whether the potentials take each state of the transducer toward the
/// final states: there is one for each state, none is `0̄`, and each
/// division that they ask for is defined.
pub open spec fn are_final_potentials<W: WeaklyDivisibleSemiring>(
    f: FstView<W>,
    potentials: Seq<W>,
) -> bool {
    &&& is_reweightable(f, potentials, ReweightType::ReweightToFinal)
    &&& forall|s: int| 0 <= s < potentials.len() ==> #[trigger] potentials[s] != W::zero_spec()
}

/// From each state, the transducer reweighted toward the final states gives
/// a pair of strings the weight that the transducer gave it, multiplied by
/// the potential of the state.
pub proof fn lemma_reweight_puts_potential_on<W: WeaklyDivisibleSemiring>(
    f: FstView<W>,
    potentials: Seq<W>,
    s: int,
    x: Seq<Label>,
    y: Seq<Label>,
    k: nat,
)
    requires
        f.graph_wf(),
        f.has_state(s),
        are_final_potentials(f, potentials),
    ensures
        weight_from(reweighted(f, potentials, ReweightType::ReweightToFinal), s, x, y, k)
            == potentials[s].times_spec(weight_from(f, s, x, y, k)),
    decreases k, 0nat, 0nat,
{
    let ty = ReweightType::ReweightToFinal;
    let g = reweighted(f, potentials, ty);
    let v = potentials[s];
    assert(is_reweightable_at(f, potentials, ty, s));
    assert(g.states[s] == reweighted_state(f, potentials, ty, s));
    assert(ending_weight(g, s, x, y) == v.times_spec(ending_weight(f, s, x, y))) by {
        W::lemma_times_zero(v);
    }
    if k > 0 {
        let j = (k - 1) as nat;
        lemma_reweight_puts_potential_on_through(
            f,
            potentials,
            s,
            f.states[s].trs.len() as int,
            x,
            y,
            j,
        );
        assert(f.states[s].trs.take(f.states[s].trs.len() as int) =~= f.states[s].trs);
        assert(g.states[s].trs.take(f.states[s].trs.len() as int) =~= g.states[s].trs);
        W::lemma_distributive(
            v,
            ending_weight(f, s, x, y),
            weight_through(f, f.states[s].trs, x, y, j),
        );
    }
}

/// The same of the first `n` transitions that leave a state.
proof fn lemma_reweight_puts_potential_on_through<W: WeaklyDivisibleSemiring>(
    f: FstView<W>,
    potentials: Seq<W>,
    s: int,
    n: int,
    x: Seq<Label>,
    y: Seq<Label>,
    k: nat,
)
    requires
        f.graph_wf(),
        f.has_state(s),
        are_final_potentials(f, potentials),
        0 <= n <= f.states[s].trs.len(),
    ensures
        weight_through(
            reweighted(f, potentials, ReweightType::ReweightToFinal),
            reweighted(f, potentials, ReweightType::ReweightToFinal).states[s].trs.take(n),
            x,
            y,
            k,
        ) == potentials[s].times_spec(weight_through(f, f.states[s].trs.take(n), x, y, k)),
    decreases k, 1nat, n,
{
    let ty = ReweightType::ReweightToFinal;
    let g = reweighted(f, potentials, ty);
    let v = potentials[s];
    let old_trs = f.states[s].trs.take(n);
    let new_trs = g.states[s].trs.take(n);
    assert(is_reweightable_at(f, potentials, ty, s));
    assert(g.states[s] == reweighted_state(f, potentials, ty, s));
    if n == 0 {
        W::lemma_times_zero(v);
    } else {
        lemma_reweight_puts_potential_on_through(f, potentials, s, n - 1, x, y, k);
        assert(old_trs.drop_last() =~= f.states[s].trs.take(n - 1));
        assert(new_trs.drop_last() =~= g.states[s].trs.take(n - 1));
        let tr = old_trs.last();
        let new_tr = new_trs.last();
        assert(f.has_tr(s, n - 1));
        assert(tr == f.tr(s, n - 1));
        assert(tr == f.states[s].trs[n - 1]);
        let t = tr.nextstate as int;
        let q = reweighted_weight(tr.weight, v, potentials[t], ty)->0;
        assert(new_tr == tr.with_weight(q));
        W::lemma_divide_is_quotient(v.times_spec(tr.weight), potentials[t], DivideType::DivideRight);
        assert(q.times_spec(potentials[t]) == v.times_spec(tr.weight));
        assert(step_weight(g, new_tr, x, y, k) == v.times_spec(step_weight(f, tr, x, y, k))) by {
            match (consume(tr.ilabel, x), consume(tr.olabel, y)) {
                (Some(x2), Some(y2)) => {
                    let rest = weight_from(f, t, x2, y2, k);
                    lemma_reweight_puts_potential_on(f, potentials, t, x2, y2, k);
                    W::lemma_times_associative(q, potentials[t], rest);
                    W::lemma_times_associative(v, tr.weight, rest);
                },
                _ => {
                    W::lemma_times_zero(v);
                },
            }
        }
        W::lemma_distributive(
            v,
            weight_through(f, old_trs.drop_last(), x, y, k),
            step_weight(f, tr, x, y, k),
        );
    }
}

} // verus!
