//! Reversal: the transducer of the reversed strings.

use vstd::prelude::*;
use crate::error::FstError;
use crate::fst_properties::FstProperties;
use crate::fst_traits::{Fst, MutableFst};
use crate::fst_view::{FstView, StateView};
use crate::semirings::semiring::Semiring;
use crate::symbol_table::share_symbol_table;
use crate::tr::{Tr, EPS_LABEL};

verus! {

/// The transition of the reversed transducer that leads back to state `s`.
pub open spec fn turned<W: Semiring>(tr: Tr<W>, s: int) -> Tr<W> {
    Tr { ilabel: tr.ilabel, olabel: tr.olabel, weight: tr.weight, nextstate: (s + 1) as usize }
}

/// The transitions among `trs`, which leave state `s`, that lead to state
/// `t`, each turned round.
pub open spec fn turned_into<W: Semiring>(trs: Seq<Tr<W>>, s: int, t: int) -> Seq<Tr<W>>
    decreases trs.len(),
{
    if trs.len() == 0 {
        Seq::empty()
    } else {
        let rest = turned_into(trs.drop_last(), s, t);
        if trs.last().nextstate == t {
            rest.push(turned(trs.last(), s))
        } else {
            rest
        }
    }
}

/// The transitions of the first `n` states that lead to state `t`, each
/// turned round, in the order of their states.
pub open spec fn incoming<W: Semiring>(f: FstView<W>, t: int, n: nat) -> Seq<Tr<W>>
    decreases n,
{
    if n == 0 {
        Seq::empty()
    } else {
        incoming(f, t, (n - 1) as nat) + turned_into(f.states[n - 1].trs, n - 1, t)
    }
}

/// For each final state among the first `n` states an ε-transition that
/// leads to it with its final weight.
pub open spec fn to_finals<W: Semiring>(f: FstView<W>, n: nat) -> Seq<Tr<W>>
    decreases n,
{
    if n == 0 {
        Seq::empty()
    } else {
        let rest = to_finals(f, (n - 1) as nat);
        match f.states[n - 1].final_weight {
            Some(w) => rest.push(
                Tr { ilabel: EPS_LABEL, olabel: EPS_LABEL, weight: w, nextstate: n as usize },
            ),
            None => rest,
        }
    }
}

/// The state of the reversed transducer with index `u`, when the first `n`
/// states of the given transducer were turned round, and of state `n` its first `m`
/// transitions: state 0 leads to the final states of the given transducer, and state
/// `s + 1` has the transitions that lead to state `s`, turned round.
pub open spec fn reversed_state<W: Semiring>(f: FstView<W>, u: int, n: nat, m: nat) -> StateView<W> {
    if u == 0 {
        StateView { final_weight: None, trs: to_finals(f, n) }
    } else {
        StateView {
            final_weight: if f.start == Some((u - 1) as usize) && u - 1 < n {
                FstView::<W>::kept_final(W::one_spec())
            } else {
                None
            },
            trs: incoming(f, u - 1, n) + if n < f.states.len() {
                turned_into(f.states[n as int].trs.take(m as int), n as int, u - 1)
            } else {
                Seq::empty()
            },
        }
    }
}

/// The reversed transducer: a new start state that leads to the states
/// that were final, by ε-transitions that carry the final weights; every
/// transition turned round; and the state that was the start state final
/// with weight `1̄`. State `s` of the given transducer is state `s + 1`. No property
/// bit is set.
pub open spec fn reversed<W: Semiring>(f: FstView<W>) -> FstView<W> {
    FstView {
        start: Some(0usize),
        states: Seq::new(
            f.states.len() + 1,
            |u: int| reversed_state(f, u, f.states.len(), 0),
        ),
        properties: Set::empty(),
        isymt: f.isymt,
        osymt: f.osymt,
    }
}

/// Turning round one more transition.
proof fn lemma_turned_into_push<W: Semiring>(trs: Seq<Tr<W>>, tr: Tr<W>, s: int, t: int)
    ensures
        turned_into(trs.push(tr), s, t) == if tr.nextstate == t {
            turned_into(trs, s, t).push(turned(tr, s))
        } else {
            turned_into(trs, s, t)
        },
{
    assert(trs.push(tr).drop_last() =~= trs);
}

/// Each of the transitions among `trs` that were turned round comes from
/// one of `trs` that leads to state `t`.
proof fn lemma_turned_into_origin<W: Semiring>(trs: Seq<Tr<W>>, s: int, t: int, j: int) -> (i: int)
    requires
        0 <= j < turned_into(trs, s, t).len(),
    ensures
        0 <= i < trs.len(),
        trs[i].nextstate == t,
        turned_into(trs, s, t)[j] == turned(trs[i], s),
    decreases trs.len(),
{
    let rest = turned_into(trs.drop_last(), s, t);
    if trs.last().nextstate == t && j == rest.len() {
        trs.len() - 1
    } else {
        let i = lemma_turned_into_origin(trs.drop_last(), s, t, j);
        assert(trs.drop_last()[i] == trs[i]);
        i
    }
}

/// Each of the transitions into state `t` that were turned round comes
/// from a transition of one of the first `n` states that leads to `t`.
proof fn lemma_incoming_origin<W: Semiring>(f: FstView<W>, t: int, n: nat, j: int) -> (r: (int, int))
    requires
        n <= f.states.len(),
        0 <= j < incoming(f, t, n).len(),
    ensures
        0 <= r.0 < n,
        f.has_tr(r.0, r.1),
        f.tr(r.0, r.1).nextstate == t,
        incoming(f, t, n)[j] == turned(f.tr(r.0, r.1), r.0),
    decreases n,
{
    let before = incoming(f, t, (n - 1) as nat);
    if j < before.len() {
        lemma_incoming_origin(f, t, (n - 1) as nat, j)
    } else {
        let i = lemma_turned_into_origin(f.states[n - 1].trs, n - 1, t, j - before.len());
        (n - 1, i)
    }
}

/// Each of the ε-transitions to the final states leads to the place of one
/// of the first `n` states.
proof fn lemma_to_finals_origin<W: Semiring>(f: FstView<W>, n: nat, j: int) -> (s: int)
    requires
        n <= f.states.len(),
        f.states.len() <= usize::MAX,
        0 <= j < to_finals(f, n).len(),
    ensures
        0 <= s < n,
        to_finals(f, n)[j].nextstate == s + 1,
    decreases n,
{
    let rest = to_finals(f, (n - 1) as nat);
    if f.states[n - 1].final_weight is Some && j == rest.len() {
        n - 1
    } else {
        lemma_to_finals_origin(f, (n - 1) as nat, j)
    }
}

/// The reversed transducer has no cycle where the transducer has none.
pub proof fn lemma_reversed_is_acyclic<W: Semiring>(f: FstView<W>)
    requires
        f.graph_wf(),
        f.is_acyclic(),
        f.states.len() < usize::MAX,
    ensures
        reversed(f).is_acyclic(),
{
    let n = f.states.len();
    let r = reversed(f);
    let rank = choose|rank: Seq<nat>| f.is_topological_rank(rank);
    let turned_rank = Seq::new(
        n + 1,
        |u: int|
            if u == 0 {
                0nat
            } else {
                (n - rank[u - 1]) as nat
            },
    );
    assert forall|u: int, j: int| #[trigger] r.has_tr(u, j) implies turned_rank[u]
        < turned_rank[r.tr(u, j).nextstate as int] by {
        if u == 0 {
            assert(r.states[0].trs == to_finals(f, n));
            let s = lemma_to_finals_origin(f, n, j);
            assert(rank[s] < n);
        } else {
            assert(r.states[u].trs =~= incoming(f, u - 1, n));
            let (s, i) = lemma_incoming_origin(f, u - 1, n, j);
            assert(rank[s] < rank[u - 1]);
            assert(rank[u - 1] < n);
        }
    }
    assert(r.is_topological_rank(turned_rank));
}

/// Reverses the transducer: the result maps the reversal of a string `x` to
/// the reversal of a string `y` with the weight with which the given transducer maps
/// `x` to `y`, in a semiring with commutative `⊗`. A transducer with as many
/// states as a machine word can count is refused.
pub fn reverse<W: Semiring, F1: Fst<W>, F2: MutableFst<W>>(ifst: &F1) -> (r: Result<F2, FstError>)
    requires
        ifst@.wf(),
    ensures
        match r {
            Ok(ofst) => ofst@ == reversed(ifst@) && ofst@.wf() && ifst@.states.len() < usize::MAX,
            Err(e) => e == FstError::InvalidInput && ifst@.states.len() == usize::MAX,
        },
{
    let ghost f = ifst@;
    let n = ifst.num_states();
    if n == usize::MAX {
        return Err(FstError::InvalidInput);
    }
    let mut ofst = F2::new();
    ofst.add_states(n + 1);
    ofst.set_start_unchecked(0);
    ofst.set_properties(FstProperties::empty());
    let istart = ifst.start();
    let mut s: usize = 0;
    proof {
        assert forall|u: int| 0 <= u < n + 1 implies #[trigger] ofst@.states[u] == reversed_state(
            f,
            u,
            0,
            0,
        ) by {
            assert(f.states[0].trs.take(0) =~= Seq::<Tr<W>>::empty());
            assert(reversed_state(f, u, 0, 0).trs =~= Seq::<Tr<W>>::empty());
        }
    }
    while s < n
        invariant
            s <= n,
            n < usize::MAX,
            f == ifst@,
            f.wf(),
            n == f.states.len(),
            istart == f.start,
            ofst@.wf(),
            ofst@.start == Some(0usize),
            ofst@.isymt is None,
            ofst@.osymt is None,
            ofst@.properties == Set::<u64>::empty(),
            ofst@.states.len() == n + 1,
            forall|u: int|
                0 <= u < n + 1 ==> #[trigger] ofst@.states[u] == reversed_state(f, u, s as nat, 0),
        decreases n - s,
    {
        let ghost before = ofst@;
        if istart == Some(s) {
            ofst.set_final_unchecked(s + 1, W::one());
            ofst.set_properties(FstProperties::empty());
        }
        match ifst.final_weight_unchecked(s) {
            Some(w) => {
                ofst.add_tr_unchecked(0, Tr::new(EPS_LABEL, EPS_LABEL, w, s + 1));
                ofst.set_properties(FstProperties::empty());
            },
            None => {},
        }
        let trs = ifst.get_trs_unchecked(s);
        let mut i: usize = 0;
        proof {
            assert(f.has_state(s as int));
            assert forall|u: int| 0 <= u < n + 1 implies (#[trigger] ofst@.states[u]).final_weight
                == reversed_state(f, u, (s + 1) as nat, 0).final_weight
                && ofst@.states[u].trs == reversed_state(f, u, s as nat, 0).trs + if u == 0 {
                to_finals(f, (s + 1) as nat).skip(to_finals(f, s as nat).len() as int)
            } else {
                Seq::<Tr<W>>::empty()
            } by {
                assert(before.states[u] == reversed_state(f, u, s as nat, 0));
                assert(f.states[s as int].trs.take(0) =~= Seq::<Tr<W>>::empty());
                if u == 0 {
                    assert(ofst@.states[u].trs =~= to_finals(f, (s + 1) as nat));
                    assert(to_finals(f, s as nat) + to_finals(f, (s + 1) as nat).skip(
                        to_finals(f, s as nat).len() as int,
                    ) =~= to_finals(f, (s + 1) as nat));
                } else {
                    assert(ofst@.states[u].trs =~= before.states[u].trs);
                    assert(before.states[u].trs + Seq::<Tr<W>>::empty() =~= before.states[u].trs);
                }
            }
        }
        while i < trs.len()
            invariant
                i <= trs.len(),
                s < n,
                n < usize::MAX,
                f == ifst@,
                f.wf(),
                n == f.states.len(),
                trs@ == f.states[s as int].trs,
                ofst@.wf(),
                ofst@.start == Some(0usize),
                ofst@.isymt is None,
                ofst@.osymt is None,
                ofst@.properties == Set::<u64>::empty(),
                ofst@.states.len() == n + 1,
                ofst@.states[0].final_weight is None,
                ofst@.states[0].trs == to_finals(f, (s + 1) as nat),
                forall|u: int|
                    1 <= u < n + 1 ==> (#[trigger] ofst@.states[u]).final_weight == reversed_state(
                        f,
                        u,
                        (s + 1) as nat,
                        0,
                    ).final_weight && ofst@.states[u].trs == incoming(f, u - 1, s as nat)
                        + turned_into(trs@.take(i as int), s as int, u - 1),
            decreases trs.len() - i,
        {
            let tr = trs[i];
            let ghost inner = ofst@;
            assert(f.has_tr(s as int, i as int));
            ofst.add_tr_unchecked(tr.nextstate + 1, Tr::new(tr.ilabel, tr.olabel, tr.weight, s + 1));
            ofst.set_properties(FstProperties::empty());
            proof {
                assert(trs@.take(i as int + 1) =~= trs@.take(i as int).push(tr));
                assert forall|u: int| 1 <= u < n + 1 implies (#[trigger] ofst@.states[u]).final_weight
                    == reversed_state(f, u, (s + 1) as nat, 0).final_weight
                    && ofst@.states[u].trs == incoming(f, u - 1, s as nat) + turned_into(
                    trs@.take(i as int + 1),
                    s as int,
                    u - 1,
                ) by {
                    lemma_turned_into_push(trs@.take(i as int), tr, s as int, u - 1);
                    let a = incoming(f, u - 1, s as nat);
                    let b = turned_into(trs@.take(i as int), s as int, u - 1);
                    assert(inner.states[u].trs == a + b);
                    if tr.nextstate == u - 1 {
                        assert(ofst@.states[u].trs =~= inner.states[u].trs.push(
                            turned(tr, s as int),
                        ));
                        assert((a + b).push(turned(tr, s as int)) =~= a + b.push(
                            turned(tr, s as int),
                        ));
                    } else {
                        assert(ofst@.states[u] == inner.states[u]);
                    }
                }
                assert(ofst@.states[0] == inner.states[0]);
            }
            i += 1;
        }
        proof {
            assert(trs@.take(trs@.len() as int) =~= trs@);
            assert forall|u: int| 0 <= u < n + 1 implies #[trigger] ofst@.states[u]
                == reversed_state(f, u, (s + 1) as nat, 0) by {
                if u >= 1 {
                    let target = reversed_state(f, u, (s + 1) as nat, 0);
                    if s + 1 < n {
                        assert(f.states[s + 1].trs.take(0) =~= Seq::<Tr<W>>::empty());
                    }
                    assert(target.trs =~= incoming(f, u - 1, (s + 1) as nat));
                    assert(ofst@.states[u].trs == incoming(f, u - 1, s as nat) + turned_into(
                        trs@,
                        s as int,
                        u - 1,
                    ));
                }
            }
        }
        s += 1;
    }
    match ifst.input_symbols() {
        Some(symt) => {
            ofst.set_input_symbols(share_symbol_table(symt));
        },
        None => {},
    }
    match ifst.output_symbols() {
        Some(symt) => {
            ofst.set_output_symbols(share_symbol_table(symt));
        },
        None => {},
    }
    proof {
        assert(ofst@.states =~= reversed(f).states);
        assert(ofst@ =~= reversed(f));
    }
    Ok(ofst)
}

} // verus!
