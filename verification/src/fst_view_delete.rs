//! The model of a transducer from which states are removed.
//!
//! The states that stay keep their order and move up into the gaps; a
//! transition into a removed state goes with it.

use vstd::prelude::*;
use crate::fst_properties::{
    ACCEPTOR_BIT, ACYCLIC_BIT, NO_EPSILONS_BIT, NO_I_EPSILONS_BIT, NO_O_EPSILONS_BIT,
    TOP_SORTED_BIT, UNWEIGHTED_BIT,
};
use crate::fst_view::{final_meets, tr_meets, FstView, StateView};
use crate::semirings::semiring::Semiring;
use crate::tr::{StateId, Tr};

verus! {

/// The states that a list of states names.
pub open spec fn listed(states: Seq<StateId>) -> Set<int> {
    Set::new(|s: int| exists|i: int| 0 <= i < states.len() && states[i] == s)
}

/// The number of states below `s` that are not in `dead`: the index that a
/// surviving state `s` moves to.
pub open spec fn kept_below(dead: Set<int>, s: int) -> nat
    decreases s,
{
    if s <= 0 {
        0
    } else {
        kept_below(dead, s - 1) + if dead.contains(s - 1) {
            0nat
        } else {
            1nat
        }
    }
}

/// The transitions among `trs` whose target survives, in order, each leading
/// to the new index of its target.
pub open spec fn kept_trs<W: Semiring>(trs: Seq<Tr<W>>, dead: Set<int>) -> Seq<Tr<W>>
    decreases trs.len(),
{
    if trs.len() == 0 {
        Seq::empty()
    } else {
        let rest = kept_trs(trs.drop_last(), dead);
        let t = trs.last();
        if dead.contains(t.nextstate as int) {
            rest
        } else {
            rest.push(moved_tr(t, dead))
        }
    }
}

/// The transition leading to the new index of its target.
pub open spec fn moved_tr<W: Semiring>(t: Tr<W>, dead: Set<int>) -> Tr<W> {
    t.with_nextstate(kept_below(dead, t.nextstate as int) as usize)
}

/// A surviving state: its final weight and the transitions it keeps.
pub open spec fn kept_state<W: Semiring>(state: StateView<W>, dead: Set<int>) -> StateView<W> {
    StateView { final_weight: state.final_weight, trs: kept_trs(state.trs, dead) }
}

/// The states among `states` that survive, in order.
pub open spec fn kept_states<W: Semiring>(states: Seq<StateView<W>>, dead: Set<int>) -> Seq<
    StateView<W>,
>
    decreases states.len(),
{
    if states.len() == 0 {
        Seq::empty()
    } else {
        let rest = kept_states(states.drop_last(), dead);
        if dead.contains(states.len() - 1) {
            rest
        } else {
            rest.push(kept_state(states.last(), dead))
        }
    }
}

/// The bits that stay true when states are removed: those that ask
/// something of the labels or the weight of each transition, and those that
/// say that the transducer has no cycle and that it is sorted.
pub open spec fn del_states_kept_properties() -> Set<u64> {
    set![
        ACCEPTOR_BIT,
        NO_EPSILONS_BIT,
        NO_I_EPSILONS_BIT,
        NO_O_EPSILONS_BIT,
        UNWEIGHTED_BIT,
        ACYCLIC_BIT,
        TOP_SORTED_BIT,
    ]
}

/// The start state after the states in `dead` were removed.
pub open spec fn kept_start(start: Option<StateId>, dead: Set<int>) -> Option<StateId> {
    match start {
        Some(s) => if dead.contains(s as int) {
            None
        } else {
            Some(kept_below(dead, s as int) as usize)
        },
        None => None,
    }
}

impl<W: Semiring> FstView<W> {
    /// After the states in `dead` were removed.
    pub open spec fn del_states(self, dead: Set<int>) -> Self {
        FstView {
            start: kept_start(self.start, dead),
            states: kept_states(self.states, dead),
            properties: self.properties.intersect(del_states_kept_properties()),
            isymt: self.isymt,
            osymt: self.osymt,
        }
    }
}

/// No more states survive below `s` than there are.
pub proof fn lemma_kept_below_bound(dead: Set<int>, s: int)
    ensures
        kept_below(dead, s) <= if s < 0 {
            0
        } else {
            s
        },
    decreases s,
{
    if s > 0 {
        lemma_kept_below_bound(dead, s - 1);
    }
}

/// A surviving state moves to an index below that of every later state.
pub proof fn lemma_kept_below_monotone(dead: Set<int>, s: int, t: int)
    requires
        0 <= s < t,
        !dead.contains(s),
    ensures
        kept_below(dead, s) < kept_below(dead, t),
    decreases t,
{
    if s < t - 1 {
        lemma_kept_below_monotone(dead, s, t - 1);
    }
}

/// As many states survive as `kept_below` counts.
pub proof fn lemma_kept_states_len<W: Semiring>(states: Seq<StateView<W>>, dead: Set<int>)
    ensures
        kept_states(states, dead).len() == kept_below(dead, states.len() as int),
    decreases states.len(),
{
    if states.len() > 0 {
        lemma_kept_states_len(states.drop_last(), dead);
    }
}

/// A surviving state is found at its new index.
pub proof fn lemma_kept_states_index<W: Semiring>(
    states: Seq<StateView<W>>,
    dead: Set<int>,
    s: int,
)
    requires
        0 <= s < states.len(),
        !dead.contains(s),
    ensures
        kept_below(dead, s) < kept_states(states, dead).len(),
        kept_states(states, dead)[kept_below(dead, s) as int] == kept_state(states[s], dead),
    decreases states.len(),
{
    lemma_kept_states_len(states, dead);
    lemma_kept_states_len(states.drop_last(), dead);
    if s < states.len() - 1 {
        lemma_kept_states_index(states.drop_last(), dead, s);
    }
}

/// Each state of the result is a surviving state.
pub proof fn lemma_kept_states_origin<W: Semiring>(
    states: Seq<StateView<W>>,
    dead: Set<int>,
    t: int,
) -> (s: int)
    requires
        0 <= t < kept_states(states, dead).len(),
    ensures
        0 <= s < states.len(),
        !dead.contains(s),
        kept_below(dead, s) == t,
        kept_states(states, dead)[t] == kept_state(states[s], dead),
    decreases states.len(),
{
    lemma_kept_states_len(states, dead);
    lemma_kept_states_len(states.drop_last(), dead);
    let last = states.len() - 1;
    if !dead.contains(last) && t == kept_below(dead, last) {
        last
    } else {
        lemma_kept_states_origin(states.drop_last(), dead, t)
    }
}

/// The index among the kept transitions at which transition `i` of `trs`
/// is found if it is kept.
pub open spec fn kept_tr_index<W: Semiring>(trs: Seq<Tr<W>>, dead: Set<int>, i: int) -> int {
    kept_trs(trs.take(i), dead).len() as int
}

/// Each transition of the result is a transition of the given transducer whose
/// target survives.
pub proof fn lemma_kept_trs_origin<W: Semiring>(trs: Seq<Tr<W>>, dead: Set<int>, i: int) -> (j:
    int)
    requires
        0 <= i < kept_trs(trs, dead).len(),
    ensures
        0 <= j < trs.len(),
        !dead.contains(trs[j].nextstate as int),
        kept_trs(trs, dead)[i] == moved_tr(trs[j], dead),
        kept_tr_index(trs, dead, j) == i,
    decreases trs.len(),
{
    let rest = kept_trs(trs.drop_last(), dead);
    if !dead.contains(trs.last().nextstate as int) && i == rest.len() {
        assert(trs.take(trs.len() - 1) =~= trs.drop_last());
        trs.len() - 1
    } else {
        let j = lemma_kept_trs_origin(trs.drop_last(), dead, i);
        assert(trs.drop_last().take(j) =~= trs.take(j));
        j
    }
}

/// A transition whose target survives is found among the kept ones at its
/// index.
pub proof fn lemma_kept_tr_at_index<W: Semiring>(trs: Seq<Tr<W>>, dead: Set<int>, i: int)
    requires
        0 <= i < trs.len(),
        !dead.contains(trs[i].nextstate as int),
    ensures
        0 <= kept_tr_index(trs, dead, i) < kept_trs(trs, dead).len(),
        kept_trs(trs, dead)[kept_tr_index(trs, dead, i)] == moved_tr(trs[i], dead),
    decreases trs.len(),
{
    if i == trs.len() - 1 {
        assert(trs.take(i) =~= trs.drop_last());
    } else {
        lemma_kept_tr_at_index(trs.drop_last(), dead, i);
        assert(trs.drop_last().take(i) =~= trs.take(i));
    }
}

/// Filtering one more transition.
pub proof fn lemma_kept_trs_push<W: Semiring>(trs: Seq<Tr<W>>, t: Tr<W>, dead: Set<int>)
    ensures
        kept_trs(trs.push(t), dead) == if dead.contains(t.nextstate as int) {
            kept_trs(trs, dead)
        } else {
            kept_trs(trs, dead).push(moved_tr(t, dead))
        },
{
    assert(trs.push(t).drop_last() =~= trs);
}

/// Filtering one more state.
pub proof fn lemma_kept_states_push<W: Semiring>(
    states: Seq<StateView<W>>,
    state: StateView<W>,
    dead: Set<int>,
)
    ensures
        kept_states(states.push(state), dead) == if dead.contains(states.len() as int) {
            kept_states(states, dead)
        } else {
            kept_states(states, dead).push(kept_state(state, dead))
        },
{
    assert(states.push(state).drop_last() =~= states);
}

/// A transducer without cycle has none when states are removed: each state
/// that stays keeps its rank.
pub proof fn lemma_del_states_keeps_acyclic<W: Semiring>(f: FstView<W>, dead: Set<int>)
    requires
        f.graph_wf(),
        f.states.len() <= usize::MAX,
        f.is_acyclic(),
    ensures
        f.del_states(dead).is_acyclic(),
{
    let g = f.del_states(dead);
    let rank = choose|rank: Seq<nat>| f.is_topological_rank(rank);
    let n = f.states.len() as int;
    lemma_kept_states_len(f.states, dead);
    let origin = |t: int| choose|s: int| 0 <= s < n && !dead.contains(s) && kept_below(dead, s) == t;
    let kept_rank = Seq::new(g.states.len(), |t: int| rank[origin(t)]);
    assert forall|t: int| 0 <= t < g.states.len() implies 0 <= #[trigger] origin(t) < n
        && !dead.contains(origin(t)) && kept_below(dead, origin(t)) == t by {
        let s = lemma_kept_states_origin(f.states, dead, t);
    }
    assert forall|t: int, i: int| #[trigger] g.has_tr(t, i) implies kept_rank[t]
        < kept_rank[g.tr(t, i).nextstate as int] by {
        let s = lemma_kept_states_origin(f.states, dead, t);
        let j = lemma_kept_trs_origin(f.states[s].trs, dead, i);
        assert(f.has_tr(s, j));
        let target = f.tr(s, j).nextstate as int;
        lemma_kept_states_index(f.states, dead, target);
        lemma_kept_below_bound(dead, target);
        let o = origin(t);
        let u = g.tr(t, i).nextstate as int;
        assert(u == kept_below(dead, target));
        let v = origin(u);
        if o < s {
            lemma_kept_below_monotone(dead, o, s);
        } else if s < o {
            lemma_kept_below_monotone(dead, s, o);
        }
        if v < target {
            lemma_kept_below_monotone(dead, v, target);
        } else if target < v {
            lemma_kept_below_monotone(dead, target, v);
        }
    }
    lemma_del_states_graph_wf(f, dead);
    g.lemma_loose_rank_is_acyclic(kept_rank);
}

/// Removing states keeps the graph well formed.
pub proof fn lemma_del_states_graph_wf<W: Semiring>(f: FstView<W>, dead: Set<int>)
    requires
        f.graph_wf(),
        f.states.len() <= usize::MAX,
    ensures
        f.del_states(dead).graph_wf(),
{
    let g = f.del_states(dead);
    let n = f.states.len() as int;
    lemma_kept_states_len(f.states, dead);
    lemma_kept_below_bound(dead, n);
    assert forall|t: int, i: int| #[trigger] g.has_tr(t, i) implies g.tr(t, i).nextstate
        < g.states.len() by {
        let s = lemma_kept_states_origin(f.states, dead, t);
        let j = lemma_kept_trs_origin(f.states[s].trs, dead, i);
        assert(f.has_tr(s, j));
        let target = f.tr(s, j).nextstate as int;
        lemma_kept_states_index(f.states, dead, target);
        lemma_kept_below_bound(dead, target);
    }
    assert forall|t: int| #[trigger] g.has_state(t) implies g.states[t].final_weight != Some(
        W::zero_spec(),
    ) by {
        let s = lemma_kept_states_origin(f.states, dead, t);
        assert(f.has_state(s));
    }
    if f.start is Some && !dead.contains(f.start->0 as int) {
        lemma_kept_states_index(f.states, dead, f.start->0 as int);
        lemma_kept_below_bound(dead, f.start->0 as int);
    }
}

/// Removing states that exist keeps the transducer well formed.
pub proof fn lemma_del_states_wf<W: Semiring>(f: FstView<W>, dead: Set<int>)
    requires
        f.wf(),
        f.states.len() <= usize::MAX,
    ensures
        f.del_states(dead).wf(),
{
    let g = f.del_states(dead);
    let n = f.states.len() as int;
    lemma_kept_states_len(f.states, dead);
    lemma_kept_below_bound(dead, n);
    assert forall|t: int, i: int| #[trigger] g.has_tr(t, i) implies g.tr(t, i).nextstate
        < g.states.len() by {
        let s = lemma_kept_states_origin(f.states, dead, t);
        let j = lemma_kept_trs_origin(f.states[s].trs, dead, i);
        assert(f.has_tr(s, j));
        let target = f.tr(s, j).nextstate as int;
        lemma_kept_states_index(f.states, dead, target);
        lemma_kept_below_bound(dead, target);
    }
    assert forall|t: int| #[trigger] g.has_state(t) implies g.states[t].final_weight != Some(
        W::zero_spec(),
    ) by {
        let s = lemma_kept_states_origin(f.states, dead, t);
        assert(f.has_state(s));
    }
    if f.start is Some && !dead.contains(f.start->0 as int) {
        lemma_kept_states_index(f.states, dead, f.start->0 as int);
        lemma_kept_below_bound(dead, f.start->0 as int);
    }
    assert forall|k: u64| g.properties.contains(k) implies #[trigger] g.property_fact(k) by {
        assert(f.property_fact(k));
        if k == ACYCLIC_BIT {
            lemma_del_states_keeps_acyclic(f, dead);
        }
        assert forall|t: int, i: int| #[trigger] g.has_tr(t, i) implies tr_meets(
            k,
            t,
            g.tr(t, i),
        ) by {
            let s = lemma_kept_states_origin(f.states, dead, t);
            let j = lemma_kept_trs_origin(f.states[s].trs, dead, i);
            assert(f.has_tr(s, j));
            if k != ACYCLIC_BIT {
                assert(tr_meets(k, s, f.tr(s, j)));
            }
            if k == TOP_SORTED_BIT {
                let target = f.tr(s, j).nextstate as int;
                assert(f.every_tr_meets(TOP_SORTED_BIT));
                assert(tr_meets(TOP_SORTED_BIT, s, f.tr(s, j)));
                lemma_kept_below_monotone(dead, s, target);
                lemma_kept_below_bound(dead, target);
                assert(g.tr(t, i).nextstate == kept_below(dead, target));
            }
        }
        assert forall|t: int| #[trigger] g.is_final(t) implies final_meets(
            k,
            g.states[t].final_weight->0,
        ) by {
            let s = lemma_kept_states_origin(f.states, dead, t);
            assert(f.is_final(s));
        }
    }
}

} // verus!
