//! The rational operations: closure, concatenation and union.

use vstd::prelude::*;
use crate::error::FstError;
use crate::fst_properties::FstProperties;
use crate::fst_traits::{Fst, MutableFst};
use crate::fst_view::{FstView, StateView};
use crate::semirings::semiring::Semiring;
use crate::tr::{StateId, Tr, EPS_LABEL};

verus! {

/// Which strings a closure accepts besides those of the given transducer.
#[derive(Clone, Copy, Debug, PartialEq, Eq, Structural)]
pub enum ClosureType {
    /// The empty string and every sequence of accepted strings.
    ClosureStar,
    /// Every sequence of one accepted string at least.
    ClosurePlus,
}

/// The ε-transition with weight `w` to state `t`.
pub open spec fn eps_tr<W: Semiring>(w: W, t: StateId) -> Tr<W> {
    Tr { ilabel: EPS_LABEL, olabel: EPS_LABEL, weight: w, nextstate: t }
}

/// The state with an ε-transition back to state `start` that carries its
/// final weight, where it is final.
pub open spec fn looped_state<W: Semiring>(state: StateView<W>, start: StateId) -> StateView<W> {
    match state.final_weight {
        Some(w) => state.with_trs(state.trs.push(eps_tr(w, start))),
        None => state,
    }
}

/// The transducer with its first `n` states leading back to the start
/// state where they are final, and no property bit.
pub open spec fn looped_upto<W: Semiring>(f: FstView<W>, start: StateId, n: int) -> FstView<W> {
    f.with_states(
        Seq::new(
            f.states.len(),
            |s: int|
                if s < n {
                    looped_state(f.states[s], start)
                } else {
                    f.states[s]
                },
        ),
    ).with_properties(Set::empty())
}

/// The closure that accepts every sequence of one accepted string at least:
/// from each final state an ε-transition leads back to the start state
/// with the final weight. A transducer without start state stays as it is,
/// but for its property bits.
pub open spec fn closure_plus<W: Semiring>(f: FstView<W>) -> FstView<W> {
    match f.start {
        Some(start) => looped_upto(f, start, f.states.len() as int),
        None => f.with_properties(Set::empty()),
    }
}

/// The closure that accepts the empty string too: a new start state that is
/// final with weight `1̄` leads to the old start state by an ε-transition.
pub open spec fn closure_star<W: Semiring>(f: FstView<W>) -> FstView<W> {
    let plus = closure_plus(f);
    let entry = StateView {
        final_weight: FstView::<W>::kept_final(W::one_spec()),
        trs: match f.start {
            Some(start) => seq![eps_tr(W::one_spec(), start)],
            None => Seq::empty(),
        },
    };
    plus.with_states(plus.states.push(entry)).with_start(Some(f.states.len() as usize))
}

/// The closure of the kind that is asked for.
pub open spec fn closure_of<W: Semiring>(f: FstView<W>, closure_type: ClosureType) -> FstView<W> {
    match closure_type {
        ClosureType::ClosurePlus => closure_plus(f),
        ClosureType::ClosureStar => closure_star(f),
    }
}

/// Computes the closure in place: the transducer then maps a sequence of
/// strings that it mapped to the sequence of their images, with the product
/// of their weights, and with `ClosureStar` the empty string to itself with
/// weight `1̄`. A transducer with as many states as a machine word can count
/// has no room for the new start state of `ClosureStar` and is refused.
pub fn closure<W: Semiring, F: MutableFst<W>>(fst: &mut F, closure_type: ClosureType) -> (r: Result<
    (),
    FstError,
>)
    requires
        old(fst)@.wf(),
    ensures
        final(fst)@.wf(),
        match r {
            Ok(_) => final(fst)@ == closure_of(old(fst)@, closure_type),
            Err(e) => e == FstError::InvalidInput && closure_type == ClosureType::ClosureStar
                && old(fst)@.states.len() == usize::MAX && final(fst)@ == old(fst)@,
        },
{
    fst.closure(closure_type)
}

/// The transition leading to the state `shift` places further on.
pub open spec fn shifted_tr<W: Semiring>(tr: Tr<W>, shift: nat) -> Tr<W> {
    tr.with_nextstate((tr.nextstate + shift) as usize)
}

/// The state with its transitions leading `shift` places further on.
pub open spec fn shifted_state<W: Semiring>(state: StateView<W>, shift: nat) -> StateView<W> {
    StateView {
        final_weight: state.final_weight,
        trs: Seq::new(state.trs.len(), |i: int| shifted_tr(state.trs[i], shift)),
    }
}

/// The states, each with its transitions leading `shift` places further on.
pub open spec fn shifted_states<W: Semiring>(states: Seq<StateView<W>>, shift: nat) -> Seq<
    StateView<W>,
> {
    Seq::new(states.len(), |s: int| shifted_state(states[s], shift))
}

/// Appends the states of `other` to those of `fst`, their transitions
/// leading to their new places, and clears the property bits.
fn append_states<W: Semiring, F1: MutableFst<W>, F2: Fst<W>>(fst: &mut F1, other: &F2)
    requires
        old(fst)@.wf(),
        other@.wf(),
        old(fst)@.states.len() + other@.states.len() <= usize::MAX,
    ensures
        final(fst)@.wf(),
        final(fst)@ == old(fst)@.with_states(
            old(fst)@.states + shifted_states(other@.states, old(fst)@.states.len()),
        ).with_properties(Set::empty()),
{
    let ghost f = fst@;
    let ghost g = other@;
    let n1 = fst.num_states();
    let n2 = other.num_states();
    proof {
        f.lemma_with_properties_wf(Set::empty());
    }
    fst.set_properties(FstProperties::empty());
    fst.add_states(n2);
    let mut s: usize = 0;
    while s < n2
        invariant
            s <= n2,
            n1 == f.states.len(),
            n2 == g.states.len(),
            n1 + n2 <= usize::MAX,
            g == other@,
            g.wf(),
            fst@.wf(),
            fst@.start == f.start,
            fst@.isymt == f.isymt,
            fst@.osymt == f.osymt,
            fst@.properties == Set::<u64>::empty(),
            fst@.states.len() == n1 + n2,
            forall|t: int| 0 <= t < n1 ==> #[trigger] fst@.states[t] == f.states[t],
            forall|t: int| 0 <= t < s ==> #[trigger] fst@.states[n1 + t] == shifted_state(
                g.states[t],
                n1 as nat,
            ),
            forall|t: int| s <= t < n2 ==> #[trigger] fst@.states[n1 + t] == StateView::<W>::empty(),
        decreases n2 - s,
    {
        let trs = other.get_trs_unchecked(s);
        let mut moved: Vec<Tr<W>> = Vec::new();
        let mut i: usize = 0;
        while i < trs.len()
            invariant
                i <= trs.len(),
                s < n2,
                n1 + n2 <= usize::MAX,
                n2 == g.states.len(),
                g.wf(),
                trs@ == g.states[s as int].trs,
                moved.len() == i,
                forall|j: int| 0 <= j < i ==> #[trigger] moved@[j] == shifted_tr(trs@[j], n1 as nat),
            decreases trs.len() - i,
        {
            let tr = trs[i];
            assert(g.has_tr(s as int, i as int));
            moved.push(Tr::new(tr.ilabel, tr.olabel, tr.weight, tr.nextstate + n1));
            i += 1;
        }
        let ghost before = fst@;
        proof {
            assert forall|j: int| 0 <= j < moved@.len() implies (#[trigger] moved@[j]).nextstate
                < fst@.states.len() by {
                assert(g.has_tr(s as int, j));
            }
            assert(g.has_state(s as int));
        }
        fst.set_trs_unchecked(n1 + s, moved);
        match other.final_weight_unchecked(s) {
            Some(w) => {
                fst.set_final_unchecked(n1 + s, w);
                fst.set_properties(FstProperties::empty());
            },
            None => {},
        }
        proof {
            assert(before.states[n1 + s] == StateView::<W>::empty());
            assert forall|t: int| 0 <= t < n1 implies #[trigger] fst@.states[t] == f.states[t] by {
                assert(before.states[t] == f.states[t]);
            }
            assert forall|t: int| 0 <= t < s + 1 implies #[trigger] fst@.states[n1 + t]
                == shifted_state(g.states[t], n1 as nat) by {
                if t < s {
                    assert(before.states[n1 + t] == shifted_state(g.states[t], n1 as nat));
                } else {
                    assert(fst@.states[n1 + t].trs =~= shifted_state(
                        g.states[t],
                        n1 as nat,
                    ).trs);
                }
            }
            assert forall|t: int| s + 1 <= t < n2 implies #[trigger] fst@.states[n1 + t]
                == StateView::<W>::empty() by {
                assert(before.states[n1 + t] == StateView::<W>::empty());
            }
        }
        s += 1;
    }
    proof {
        let target = f.states + shifted_states(g.states, n1 as nat);
        assert forall|t: int| 0 <= t < n1 + n2 implies fst@.states[t] == target[t] by {
            if t >= n1 {
                assert(fst@.states[n1 + (t - n1)] == shifted_state(g.states[t - n1], n1 as nat));
            }
        }
        assert(fst@.states =~= target);
        assert(fst@ =~= f.with_states(target).with_properties(Set::empty()));
    }
}

/// The state that leads on to state `next` by an ε-transition that carries
/// its final weight, where it was final, and is final no longer.
pub open spec fn linked_state<W: Semiring>(state: StateView<W>, next: Option<StateId>) -> StateView<
    W,
> {
    match state.final_weight {
        Some(w) => StateView {
            final_weight: None,
            trs: match next {
                Some(t) => state.trs.push(eps_tr(w, t)),
                None => state.trs,
            },
        },
        None => state,
    }
}

/// The place of the start state of the second transducer behind the `n`
/// states of the first.
pub open spec fn moved_start(start: Option<StateId>, n: nat) -> Option<StateId> {
    match start {
        Some(s) => Some((s + n) as usize),
        None => None,
    }
}

/// The states of the concatenation when the first `k` states of the first
/// transducer are linked to the second.
pub open spec fn concat_states<W: Semiring>(f: FstView<W>, g: FstView<W>, k: int) -> Seq<
    StateView<W>,
> {
    Seq::new(
        f.states.len() + g.states.len(),
        |s: int|
            if s < f.states.len() {
                if s < k {
                    linked_state(f.states[s], moved_start(g.start, f.states.len()))
                } else {
                    f.states[s]
                }
            } else {
                shifted_state(g.states[s - f.states.len()], f.states.len())
            },
    )
}

/// The concatenation of two transducers: the states of the second stand
/// behind those of the first, and each state that was final in the first
/// leads on to the start state of the second by an ε-transition that
/// carries its final weight. The symbol tables are those of the first. No
/// property bit is set.
pub open spec fn concatenated<W: Semiring>(f: FstView<W>, g: FstView<W>) -> FstView<W> {
    f.with_states(concat_states(f, g, f.states.len() as int)).with_properties(Set::empty())
}

/// Concatenates `fst2` to `fst1` in place: `fst1` then maps a string `x1 x2`
/// to `y1 y2` with weight `a ⊗ b` where `fst1` mapped `x1` to `y1` with
/// weight `a` and `fst2` maps `x2` to `y2` with weight `b`. Two transducers
/// with more states than a machine word can count are refused.
pub fn concat<W: Semiring, F1: MutableFst<W>, F2: Fst<W>>(fst1: &mut F1, fst2: &F2) -> (r: Result<
    (),
    FstError,
>)
    requires
        old(fst1)@.wf(),
        fst2@.wf(),
    ensures
        final(fst1)@.wf(),
        match r {
            Ok(_) => final(fst1)@ == concatenated(old(fst1)@, fst2@),
            Err(e) => e == FstError::InvalidInput && old(fst1)@.states.len()
                + fst2@.states.len() > usize::MAX && final(fst1)@ == old(fst1)@,
        },
{
    let ghost f = fst1@;
    let ghost g = fst2@;
    let n1 = fst1.num_states();
    let n2 = fst2.num_states();
    if n2 > usize::MAX - n1 {
        return Err(FstError::InvalidInput);
    }
    append_states(fst1, fst2);
    let next = match fst2.start() {
        Some(s) => Some(s + n1),
        None => None,
    };
    let mut s: usize = 0;
    proof {
        assert(fst1@.states =~= concat_states(f, g, 0));
    }
    while s < n1
        invariant
            s <= n1,
            n1 == f.states.len(),
            n2 == g.states.len(),
            n1 + n2 <= usize::MAX,
            f.wf(),
            g.wf(),
            next == moved_start(g.start, n1 as nat),
            fst1@.wf(),
            fst1@.start == f.start,
            fst1@.isymt == f.isymt,
            fst1@.osymt == f.osymt,
            fst1@.properties == Set::<u64>::empty(),
            fst1@.states == concat_states(f, g, s as int),
        decreases n1 - s,
    {
        let ghost before = fst1@;
        match fst1.take_final_weight_unchecked(s) {
            Some(w) => {
                match next {
                    Some(t) => {
                        fst1.add_tr_unchecked(s, Tr::new(EPS_LABEL, EPS_LABEL, w, t));
                    },
                    None => {},
                }
                proof {
                    fst1@.lemma_with_properties_wf(Set::empty());
                }
                fst1.set_properties(FstProperties::empty());
            },
            None => {
                proof {
                    fst1@.lemma_with_properties_wf(Set::empty());
                }
                fst1.set_properties(FstProperties::empty());
            },
        }
        proof {
            let target = concat_states(f, g, s + 1);
            assert forall|t: int| 0 <= t < n1 + n2 implies fst1@.states[t] == target[t] by {
                assert(before.states[t] == concat_states(f, g, s as int)[t]);
                if t == s {
                    assert(fst1@.states[t].trs =~= target[t].trs);
                }
            }
            assert(fst1@.states =~= target);
        }
        s += 1;
    }
    proof {
        assert(fst1@ =~= concatenated(f, g));
    }
    Ok(())
}

/// The ε-transitions with weight `1̄` from the new start state of a union to
/// the start states of its two parts, as far as they have one.
pub open spec fn union_entries<W: Semiring>(
    start1: Option<StateId>,
    start2: Option<StateId>,
) -> Seq<Tr<W>> {
    (match start1 {
        Some(s) => seq![eps_tr(W::one_spec(), s)],
        None => Seq::<Tr<W>>::empty(),
    }) + (match start2 {
        Some(s) => seq![eps_tr(W::one_spec(), s)],
        None => Seq::<Tr<W>>::empty(),
    })
}

/// The union of two transducers: the states of the second stand behind
/// those of the first, and behind them a new start state that leads to the
/// start states of both by ε-transitions with weight `1̄`. The symbol tables
/// are those of the first. No property bit is set.
pub open spec fn united<W: Semiring>(f: FstView<W>, g: FstView<W>) -> FstView<W> {
    let n1 = f.states.len();
    let n2 = g.states.len();
    f.with_states(
        (f.states + shifted_states(g.states, n1)).push(
            StateView {
                final_weight: None,
                trs: union_entries::<W>(f.start, moved_start(g.start, n1)),
            },
        ),
    ).with_start(Some((n1 + n2) as usize)).with_properties(Set::empty())
}

/// Unites `fst2` with `fst1` in place: `fst1` then maps a string to another
/// with the `⊕`-sum of the weights with which the two transducers did. Two
/// transducers with as many states together as a machine word can count are
/// refused: there is no room for the new start state.
pub fn union<W: Semiring, F1: MutableFst<W>, F2: Fst<W>>(fst1: &mut F1, fst2: &F2) -> (r: Result<
    (),
    FstError,
>)
    requires
        old(fst1)@.wf(),
        fst2@.wf(),
    ensures
        final(fst1)@.wf(),
        match r {
            Ok(_) => final(fst1)@ == united(old(fst1)@, fst2@),
            Err(e) => e == FstError::InvalidInput && old(fst1)@.states.len()
                + fst2@.states.len() >= usize::MAX && final(fst1)@ == old(fst1)@,
        },
{
    let ghost f = fst1@;
    let ghost g = fst2@;
    let n1 = fst1.num_states();
    let n2 = fst2.num_states();
    if n2 >= usize::MAX - n1 {
        return Err(FstError::InvalidInput);
    }
    let start1 = fst1.start();
    append_states(fst1, fst2);
    let ghost both = fst1@;
    let entry = fst1.add_state();
    match start1 {
        Some(s) => {
            fst1.add_tr_unchecked(entry, Tr::new(EPS_LABEL, EPS_LABEL, W::one(), s));
        },
        None => {},
    }
    match fst2.start() {
        Some(s) => {
            fst1.add_tr_unchecked(entry, Tr::new(EPS_LABEL, EPS_LABEL, W::one(), s + n1));
        },
        None => {},
    }
    fst1.set_start_unchecked(entry);
    proof {
        fst1@.lemma_with_properties_wf(Set::empty());
    }
    fst1.set_properties(FstProperties::empty());
    proof {
        let target = united(f, g);
        assert(fst1@.states.len() == target.states.len());
        assert forall|t: int| 0 <= t < target.states.len() implies fst1@.states[t]
            == target.states[t] by {
            if t == entry {
                assert(fst1@.states[t].trs =~= target.states[t].trs);
            } else {
                assert(fst1@.states[t] == both.states[t]);
            }
        }
        assert(fst1@.states =~= target.states);
        assert(fst1@ =~= target);
    }
    Ok(())
}

} // verus!
