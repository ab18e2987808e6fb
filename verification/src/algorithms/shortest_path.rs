//! The best paths of a transducer.

use vstd::prelude::*;
use crate::algorithms::connect::{
    connect, kept_steps, lemma_connect_keeps_accepting_path, lemma_connect_leaves_connected,
    unconnected,
};
use crate::algorithms::determinize::determinize_fsa::{
    is_determinization, is_failure_of, is_reached_table, DeterminizeFsa,
};
use crate::algorithms::determinize::determinize_fsa_op::DEFAULT_DELTA;
use crate::algorithms::determinize::divisors::DefaultCommonDivisor;
use crate::algorithms::determinize::subset::SubsetView;
use crate::algorithms::path_count::{
    count_at, ends_once, is_removal, keeps_count, lemma_count_drop, lemma_count_empty,
    lemma_count_expand, lemma_count_final_pop, lemma_count_push, lemma_count_push_child,
    lemma_ends_once_push, lemma_removal,
};
use crate::algorithms::path_bound::total_weight;
use crate::algorithms::path_order::{
    holds_best_paths, is_no_better_than_all, is_expanding, keeps_order, lemma_order_drop,
    lemma_order_expand, lemma_order_expanded, lemma_order_final_pop, lemma_order_push_child,
    lemma_order_push_end, lemma_order_start, lemma_tree_holds_best, orders_paths,
};
use crate::algorithms::path_nodes::{
    ends_fit, has_like, holds_all_paths, is_for, lemma_ends_fit_final, lemma_ends_fit_grow,
    lemma_ends_fit_push, lemma_nodes_drop, lemma_nodes_expand, lemma_nodes_final_pop,
    lemma_nodes_push_child, lemma_path_in_tree, tracks_nodes, waits_to_end,
};
use crate::algorithms::path_unique::{
    keeps_apart, lemma_apart_expand, lemma_apart_expanded, lemma_apart_is_deterministic,
    lemma_apart_push_child, lemma_apart_push_end, lemma_apart_shrink, lemma_apart_start,
    lemma_del_states_keeps_deterministic,
};
use crate::algorithms::path_search::{
    covers, covers_except, has_accepting_path, has_final_state, holds_all, is_search_tree, is_tree,
    is_without, lemma_del_states_keeps_tree, lemma_cover_drop, lemma_cover_expand,
    lemma_cover_final_pop, lemma_cover_push, lemma_push_holds_all, lemma_search_done,
    lemma_tree_accessible, lemma_tree_after_drop, lemma_tree_after_final, lemma_tree_after_node,
    lemma_tree_after_push, Candidate,
};
use crate::algorithms::reverse::reverse;
use crate::algorithms::shortest_distance::shortest_distance;
use crate::error::FstError;
use crate::fst_properties::{ACCEPTOR_BIT, I_DETERMINISTIC_BIT};
use crate::fst_traits::{Fst, MutableFst};
use crate::fst_view::{FstView, StateView, Step};
use crate::fst_view_delete::{
    kept_below, lemma_kept_states_index, lemma_kept_states_len, lemma_kept_states_origin,
    lemma_kept_trs_origin,
};
use crate::semirings::semiring::{Semiring, WeaklyDivisibleSemiring, WeightQuantize};
use crate::symbol_table::share_symbol_table;
use crate::tr::{StateId, Tr};

verus! {

/// Whether state `k` of `f` has a transition that is `tr` but for leading to
/// `target`.
pub open spec fn has_tr_like<W: Semiring>(f: FstView<W>, k: int, tr: Tr<W>, target: StateId) -> bool {
    exists|j: int| #[trigger] f.has_tr(k, j) && f.tr(k, j) == tr.with_nextstate(target)
}

/// Whether `h` maps the states of `g` to states of `f` such that `g` does
/// nothing that `f` does not do: the start state of `g` goes to that of `f`,
/// each transition of `g` to a transition of `f` with the same labels and
/// weight, and each final state of `g` to a final state of `f` with the same
/// final weight.
pub open spec fn is_simulated_by<W: Semiring>(g: FstView<W>, f: FstView<W>, h: Seq<StateId>) -> bool {
    &&& h.len() == g.states.len()
    &&& forall|k: int| 0 <= k < h.len() ==> (#[trigger] h[k]) < f.states.len()
    &&& g.start matches Some(s) ==> f.start == Some(h[s as int])
    &&& forall|k: int, i: int| #[trigger]
        g.has_tr(k, i) ==> has_tr_like(f, h[k] as int, g.tr(k, i), h[g.tr(k, i).nextstate as int])
    &&& forall|k: int|
        0 <= k < g.states.len() && (#[trigger] g.states[k]).final_weight is Some
            ==> f.states[h[k] as int].final_weight == g.states[k].final_weight
}

/// Whether `g` holds paths of `f` only: some map of its states shows that
/// `f` does all that `g` does.
pub open spec fn holds_paths_of<W: Semiring>(g: FstView<W>, f: FstView<W>) -> bool {
    exists|h: Seq<StateId>| is_simulated_by(g, f, h)
}

/// A path of a transducer that holds paths of another only is a path of
/// that other: there is a path of the other between the images of its ends
/// with the same labels and the same weight.
pub proof fn lemma_simulated_path<W: Semiring>(
    g: FstView<W>,
    f: FstView<W>,
    h: Seq<StateId>,
    from: int,
    q: Seq<Step>,
    to: int,
) -> (p: Seq<Step>)
    requires
        g.graph_wf(),
        is_simulated_by(g, f, h),
        g.is_path(from, q, to),
    ensures
        p.len() == q.len(),
        f.is_path(h[from] as int, p, h[to] as int),
        f.path_ilabels(p) == g.path_ilabels(q),
        f.path_olabels(p) == g.path_olabels(q),
        f.path_weight(p) == g.path_weight(q),
    decreases q.len(),
{
    g.lemma_path_ends(from, q, to);
    if q.len() == 0 {
        let p = Seq::<Step>::empty();
        assert(f.has_state(h[from] as int));
        assert(f.path_ilabels(p) =~= g.path_ilabels(q));
        assert(f.path_olabels(p) =~= g.path_olabels(q));
        p
    } else {
        let k = q[0].0;
        let i = q[0].1;
        let next = g.tr(k, i).nextstate as int;
        let rest = lemma_simulated_path(g, f, h, next, q.drop_first(), to);
        assert(g.has_tr(k, i));
        assert(has_tr_like(f, h[k] as int, g.tr(k, i), h[next]));
        let j = choose|j: int|
            #[trigger] f.has_tr(h[k] as int, j) && f.tr(h[k] as int, j) == g.tr(k, i).with_nextstate(
                h[next],
            );
        let p = seq![(h[k] as int, j)] + rest;
        assert(p.drop_first() =~= rest);
        assert(f.is_path(h[from] as int, p, h[to] as int));
        assert(f.path_ilabels(p) =~= g.path_ilabels(q)) by {
            assert forall|x: int| 0 <= x < p.len() implies f.path_ilabels(p)[x] == g.path_ilabels(
                q,
            )[x] by {
                if x > 0 {
                    assert(p[x] == rest[x - 1]);
                    assert(q[x] == q.drop_first()[x - 1]);
                    assert(f.path_ilabels(rest)[x - 1] == g.path_ilabels(q.drop_first())[x - 1]);
                }
            }
        }
        assert(f.path_olabels(p) =~= g.path_olabels(q)) by {
            assert forall|x: int| 0 <= x < p.len() implies f.path_olabels(p)[x] == g.path_olabels(
                q,
            )[x] by {
                if x > 0 {
                    assert(p[x] == rest[x - 1]);
                    assert(q[x] == q.drop_first()[x - 1]);
                    assert(f.path_olabels(rest)[x - 1] == g.path_olabels(q.drop_first())[x - 1]);
                }
            }
        }
        p
    }
}

/// Every successful path of a transducer that holds paths of another only
/// is a successful path of that other, with the same labels, the same
/// weight and the same final weight.
pub proof fn lemma_simulated_accepting_path<W: Semiring>(
    g: FstView<W>,
    f: FstView<W>,
    q: Seq<Step>,
    to: int,
) -> (r: (Seq<Step>, int))
    requires
        g.graph_wf(),
        holds_paths_of(g, f),
        g.is_accepting_path(q, to),
    ensures
        f.is_accepting_path(r.0, r.1),
        f.path_ilabels(r.0) == g.path_ilabels(q),
        f.path_olabels(r.0) == g.path_olabels(q),
        f.path_weight(r.0) == g.path_weight(q),
        f.states[r.1].final_weight == g.states[to].final_weight,
{
    let h = choose|h: Seq<StateId>| is_simulated_by(g, f, h);
    let start = g.start->0 as int;
    let p = lemma_simulated_path(g, f, h, start, q, to);
    g.lemma_path_ends(start, q, to);
    assert(g.states[to].final_weight is Some);
    (p, h[to] as int)
}

/// A copy of the transducer.
pub fn copy_fst<W: Semiring, F1: Fst<W>, F2: MutableFst<W>>(ifst: &F1) -> (ofst: F2)
    requires
        ifst@.wf(),
    ensures
        ofst@ == ifst@,
        ofst@.wf(),
{
    let ghost f = ifst@;
    let n = ifst.num_states();
    let mut ofst = F2::new();
    ofst.add_states(n);
    let mut s: usize = 0;
    while s < n
        invariant
            s <= n,
            f == ifst@,
            f.wf(),
            n == f.states.len(),
            ofst@.wf(),
            ofst@.start is None,
            ofst@.isymt is None,
            ofst@.osymt is None,
            ofst@.states.len() == n,
            forall|u: int| 0 <= u < s ==> #[trigger] ofst@.states[u] == f.states[u],
            forall|u: int| s <= u < n ==> #[trigger] ofst@.states[u] == StateView::<W>::empty(),
        decreases n - s,
    {
        let trs = ifst.get_trs_unchecked(s);
        let mut copy: Vec<Tr<W>> = Vec::new();
        let mut i: usize = 0;
        while i < trs.len()
            invariant
                i <= trs.len(),
                copy@ =~= trs@.take(i as int),
            decreases trs.len() - i,
        {
            copy.push(trs[i]);
            i += 1;
        }
        let ghost before = ofst@;
        proof {
            assert(trs@.take(trs@.len() as int) =~= trs@);
            assert forall|j: int| 0 <= j < copy@.len() implies (#[trigger] copy@[j]).nextstate
                < ofst@.states.len() by {
                assert(f.has_tr(s as int, j));
            }
            assert(f.has_state(s as int));
        }
        ofst.set_trs_unchecked(s, copy);
        match ifst.final_weight_unchecked(s) {
            Some(w) => {
                ofst.set_final_unchecked(s, w);
            },
            None => {},
        }
        proof {
            assert(before.states[s as int] == StateView::<W>::empty());
            assert forall|u: int| 0 <= u < s + 1 implies #[trigger] ofst@.states[u]
                == f.states[u] by {
                if u < s {
                    assert(before.states[u] == f.states[u]);
                } else {
                    assert(ofst@.states[u].trs =~= f.states[u].trs);
                }
            }
            assert forall|u: int| s + 1 <= u < n implies #[trigger] ofst@.states[u]
                == StateView::<W>::empty() by {
                assert(before.states[u] == StateView::<W>::empty());
            }
        }
        s += 1;
    }
    match ifst.start() {
        Some(start) => {
            ofst.set_start_unchecked(start);
        },
        None => {},
    }
    match ifst.input_symbols() {
        Some(symt) => {
            ofst.set_input_symbols(share_symbol_table(symt));
        },
        None => {},
    }
    match ifst.output_symbols() {
        Some(symt) => {
            ofst.set_output_symbols(share_symbol_table(symt));
        },
        None => {},
    }
    proof {
        assert(ofst@.states =~= f.states);
        ofst@.lemma_same_states_same_facts(f);
        assert(ofst@.properties_hold(f.properties)) by {
            assert forall|k: u64| f.properties.contains(k) implies #[trigger] ofst@.property_fact(
                k,
            ) by {
                assert(f.property_fact(k));
            }
        }
    }
    ofst.set_properties(ifst.properties());
    proof {
        assert(ofst@ =~= f);
    }
    ofst
}

/// Whether the candidate stands for a step that `f` can take from the state
/// of its parent: a transition with its labels and weight to its state, or
/// the end of the path with its weight as final weight. A candidate without
/// parent stands for the start state.
pub open spec fn candidate_ok<W: Semiring>(f: FstView<W>, h: Seq<StateId>, c: Candidate<W>) -> bool {
    match c.state {
        Some(s) => s < f.states.len() && match c.parent {
            Some(k) => k < h.len() && has_tr_like(
                f,
                h[k as int] as int,
                Tr { ilabel: c.ilabel, olabel: c.olabel, weight: c.weight, nextstate: s },
                s,
            ),
            None => f.start == Some(s),
        },
        None => c.parent matches Some(k) && k < h.len() && f.states[h[k as int] as int].final_weight
            == Some(c.weight),
    }
}

/// How often the states may still be left, all in all, when each may be left
/// `n` times.
pub open spec fn visits_left(visits: Seq<usize>, n: nat) -> nat
    decreases visits.len(),
{
    if visits.len() == 0 {
        0
    } else {
        visits_left(visits.drop_last(), n) + if visits.last() < n {
            (n - visits.last()) as nat
        } else {
            0nat
        }
    }
}

proof fn lemma_visits_left_update(visits: Seq<usize>, n: nat, s: int)
    requires
        0 <= s < visits.len(),
        visits[s] < n,
        n <= usize::MAX,
    ensures
        visits_left(visits.update(s, (visits[s] + 1) as usize), n) + 1 == visits_left(visits, n),
    decreases visits.len(),
{
    let v = visits.update(s, (visits[s] + 1) as usize);
    if s == visits.len() - 1 {
        assert(v.drop_last() =~= visits.drop_last());
    } else {
        lemma_visits_left_update(visits.drop_last(), n, s);
        assert(v.drop_last() =~= visits.drop_last().update(s, (visits[s] + 1) as usize));
    }
}

/// The number of final states among the states.
pub open spec fn count_final_states<W: Semiring>(states: Seq<StateView<W>>) -> nat
    decreases states.len(),
{
    if states.len() == 0 {
        0
    } else {
        count_final_states(states.drop_last()) + if states.last().final_weight is Some {
            1nat
        } else {
            0nat
        }
    }
}

proof fn lemma_count_final_states_push<W: Semiring>(states: Seq<StateView<W>>, state: StateView<W>)
    ensures
        count_final_states(states.push(state)) == count_final_states(states)
            + if state.final_weight is Some {
            1nat
        } else {
            0nat
        },
{
    assert(states.push(state).drop_last() =~= states);
}

/// Changing one state changes the number of final states by one at most.
proof fn lemma_count_final_states_update<W: Semiring>(
    states: Seq<StateView<W>>,
    k: int,
    state: StateView<W>,
)
    requires
        0 <= k < states.len(),
    ensures
        count_final_states(states.update(k, state)) <= count_final_states(states) + if state.final_weight is Some
            && states[k].final_weight is None {
            1nat
        } else {
            0nat
        },
    decreases states.len(),
{
    let u = states.update(k, state);
    if k == states.len() - 1 {
        assert(u.drop_last() =~= states.drop_last());
    } else {
        lemma_count_final_states_update(states.drop_last(), k, state);
        assert(u.drop_last() =~= states.drop_last().update(k, state));
    }
}

/// Removing states leaves no more final states than there were.
proof fn lemma_count_final_states_kept<W: Semiring>(states: Seq<StateView<W>>, dead: Set<int>)
    ensures
        count_final_states(crate::fst_view_delete::kept_states(states, dead)) <= count_final_states(
            states,
        ),
    decreases states.len(),
{
    if states.len() > 0 {
        lemma_count_final_states_kept(states.drop_last(), dead);
        if !dead.contains(states.len() - 1) {
            lemma_count_final_states_push(
                crate::fst_view_delete::kept_states(states.drop_last(), dead),
                crate::fst_view_delete::kept_state(states.last(), dead),
            );
        }
    }
}

/// Making final a state that was not adds one to the number of final
/// states.
proof fn lemma_count_final_states_set<W: Semiring>(
    states: Seq<StateView<W>>,
    k: int,
    state: StateView<W>,
)
    requires
        0 <= k < states.len(),
        states[k].final_weight is None,
        state.final_weight is Some,
    ensures
        count_final_states(states.update(k, state)) == count_final_states(states) + 1,
    decreases states.len(),
{
    let u = states.update(k, state);
    if k == states.len() - 1 {
        assert(u.drop_last() =~= states.drop_last());
    } else {
        lemma_count_final_states_set(states.drop_last(), k, state);
        assert(u.drop_last() =~= states.drop_last().update(k, state));
    }
}

/// Removing states that are not final leaves as many final states as there
/// were.
proof fn lemma_count_final_states_kept_all<W: Semiring>(states: Seq<StateView<W>>, dead: Set<int>)
    requires
        forall|k: int|
            0 <= k < states.len() && (#[trigger] states[k]).final_weight is Some ==> !dead.contains(
                k,
            ),
    ensures
        count_final_states(crate::fst_view_delete::kept_states(states, dead)) == count_final_states(
            states,
        ),
    decreases states.len(),
{
    if states.len() > 0 {
        assert forall|k: int|
            0 <= k < states.drop_last().len() && (#[trigger] states.drop_last()[k]).final_weight
                is Some implies !dead.contains(k) by {
            assert(states.drop_last()[k] == states[k]);
        }
        lemma_count_final_states_kept_all(states.drop_last(), dead);
        assert(states.last() == states[states.len() - 1]);
        if !dead.contains(states.len() - 1) {
            lemma_count_final_states_push(
                crate::fst_view_delete::kept_states(states.drop_last(), dead),
                crate::fst_view_delete::kept_state(states.last(), dead),
            );
        }
    }
}

/// The state of the given transducer that stands behind state `t` of the trimmed
/// transducer.
pub open spec fn origin_of(dead: Set<int>, n: nat, t: int) -> int {
    choose|s: int| 0 <= s < n && !dead.contains(s) && kept_below(dead, s) == t
}

/// The state that stands behind a state of the trimmed transducer is a
/// state that stayed, and it is the only one that moved to that place.
proof fn lemma_origin_of<W: Semiring>(states: Seq<StateView<W>>, dead: Set<int>, x: int)
    requires
        0 <= x < crate::fst_view_delete::kept_states(states, dead).len(),
    ensures
        0 <= origin_of(dead, states.len(), x) < states.len(),
        !dead.contains(origin_of(dead, states.len(), x)),
        kept_below(dead, origin_of(dead, states.len(), x)) == x,
        crate::fst_view_delete::kept_states(states, dead)[x] == crate::fst_view_delete::kept_state(
            states[origin_of(dead, states.len(), x)],
            dead,
        ),
        forall|s: int|
            0 <= s < states.len() && !dead.contains(s) && kept_below(dead, s) == x ==> s
                == origin_of(dead, states.len(), x),
{
    let s0 = lemma_kept_states_origin(states, dead, x);
    let o = origin_of(dead, states.len(), x);
    lemma_kept_states_index(states, dead, o);
    assert forall|s: int|
        0 <= s < states.len() && !dead.contains(s) && kept_below(dead, s) == x implies s == o by {
        if s < o {
            crate::fst_view_delete::lemma_kept_below_monotone(dead, s, o);
        } else if o < s {
            crate::fst_view_delete::lemma_kept_below_monotone(dead, o, s);
        }
    }
}

/// A transducer that holds paths of another only still does so when states
/// are removed from it.
proof fn lemma_trimmed_holds_paths<W: Semiring>(
    g: FstView<W>,
    f: FstView<W>,
    h: Seq<StateId>,
    dead: Set<int>,
)
    requires
        g.graph_wf(),
        g.states.len() <= usize::MAX,
        is_simulated_by(g, f, h),
    ensures
        holds_paths_of(g.del_states(dead), f),
{
    let t = g.del_states(dead);
    let n = g.states.len();
    lemma_kept_states_len(g.states, dead);
    let h2 = Seq::new(t.states.len(), |x: int| h[origin_of(dead, n, x)]);
    assert forall|k: int| 0 <= k < h2.len() implies (#[trigger] h2[k]) < f.states.len() by {
        lemma_origin_of(g.states, dead, k);
    }
    if t.start is Some {
        let s0 = g.start->0 as int;
        assert(!dead.contains(s0));
        let x = kept_below(dead, s0) as int;
        lemma_kept_states_index(g.states, dead, s0);
        crate::fst_view_delete::lemma_kept_below_bound(dead, s0);
        lemma_origin_of(g.states, dead, x);
    }
    assert forall|k: int, i: int| #[trigger] t.has_tr(k, i) implies has_tr_like(
        f,
        h2[k] as int,
        t.tr(k, i),
        h2[t.tr(k, i).nextstate as int],
    ) by {
        lemma_origin_of(g.states, dead, k);
        let o = origin_of(dead, n, k);
        let j = lemma_kept_trs_origin(g.states[o].trs, dead, i);
        assert(g.has_tr(o, j));
        let target = g.tr(o, j).nextstate as int;
        let x = t.tr(k, i).nextstate as int;
        lemma_kept_states_index(g.states, dead, target);
        crate::fst_view_delete::lemma_kept_below_bound(dead, target);
        assert(x == kept_below(dead, target));
        lemma_origin_of(g.states, dead, x);
        assert(has_tr_like(f, h[o] as int, g.tr(o, j), h[target]));
        let jf = choose|jf: int|
            #[trigger] f.has_tr(h[o] as int, jf) && f.tr(h[o] as int, jf) == g.tr(o, j).with_nextstate(
                h[target],
            );
        assert(f.tr(h2[k] as int, jf) == t.tr(k, i).with_nextstate(h2[x]));
    }
    assert forall|k: int|
        0 <= k < t.states.len() && (#[trigger] t.states[k]).final_weight is Some implies f.states[h2[k] as int].final_weight
        == t.states[k].final_weight by {
        lemma_origin_of(g.states, dead, k);
        let o = origin_of(dead, n, k);
        assert(g.states[o].final_weight is Some);
    }
    assert(is_simulated_by(t, f, h2));
}

/// Whether `a` is strictly better than `b` in the order that `⊕` gives.
fn is_better<W: Semiring>(a: &W, b: &W) -> (better: bool)
    ensures
        better == is_strictly_better(*a, *b),
{
    a.plus(b).is_equal(a) && !a.is_equal(b)
}

/// Whether `a` comes strictly before `b` in the order that `⊕` gives: the
/// sum of the two is `a`, and `a` is not `b`.
pub open spec fn is_strictly_better<W: Semiring>(a: W, b: W) -> bool {
    a.plus_spec(b) == a && a != b
}

/// A weight that is not strictly better than another is not strictly better
/// than one that is strictly better than that other.
proof fn lemma_not_better_than_better<W: Semiring>(a: W, b: W, c: W)
    requires
        !is_strictly_better(a, c),
        is_strictly_better(b, c),
    ensures
        !is_strictly_better(a, b),
{
    if is_strictly_better(a, b) {
        // a ⊕ c = (a ⊕ b) ⊕ c = a ⊕ (b ⊕ c) = a ⊕ b = a, so a is c
        W::lemma_plus_associative(a, b, c);
        assert(a.plus_spec(c) == a);
        assert(a == c);
        W::lemma_plus_commutative(b, c);
    }
}

/// Takes the candidate with the best priority out of the heap: none that is
/// left has a priority that is strictly better.
fn pop_best<W: Semiring>(heap: &mut Vec<Candidate<W>>) -> (c: Candidate<W>)
    requires
        old(heap)@.len() > 0,
    ensures
        final(heap)@.len() + 1 == old(heap)@.len(),
        forall|x: Candidate<W>|
            #[trigger] final(heap)@.contains(x) ==> !is_strictly_better(x.priority, c.priority),
        old(heap)@.contains(c),
        holds_all(old(heap)@, final(heap)@),
        is_without(final(heap)@, old(heap)@, c),
        is_removal(final(heap)@, old(heap)@, c),
        old(heap)@.no_duplicates() ==> final(heap)@.no_duplicates() && !final(heap)@.contains(c),
{
    let mut best: usize = 0;
    let mut i: usize = 1;
    while i < heap.len()
        invariant
            1 <= i,
            best < i,
            best < heap.len(),
            heap@ == old(heap)@,
            forall|j: int|
                0 <= j < i && j < heap@.len() ==> !is_strictly_better(
                    (#[trigger] heap@[j]).priority,
                    heap@[best as int].priority,
                ),
        decreases heap.len() - i,
    {
        if is_better(&heap[i].priority, &heap[best].priority) {
            proof {
                assert forall|j: int| 0 <= j < i + 1 implies !is_strictly_better(
                    (#[trigger] heap@[j]).priority,
                    heap@[i as int].priority,
                ) by {
                    if j < i {
                        lemma_not_better_than_better(
                            heap@[j].priority,
                            heap@[i as int].priority,
                            heap@[best as int].priority,
                        );
                    }
                }
            }
            best = i;
        }
        i += 1;
    }
    let c = heap.swap_remove(best);
    proof {
        let before = old(heap)@;
        assert forall|x: Candidate<W>| #[trigger] heap@.contains(x) implies !is_strictly_better(
            x.priority,
            c.priority,
        ) by {
            let k = choose|k: int| 0 <= k < heap@.len() && heap@[k] == x;
            if k == best {
                assert(before[before.len() - 1] == x);
            } else {
                assert(before[k] == x);
            }
        }
        assert(before[best as int] == c && heap@ == before.update(
            best as int,
            before.last(),
        ).drop_last());
        assert(before[best as int] == c);
        assert forall|x: Candidate<W>| #[trigger] heap@.contains(x) implies before.contains(x) by {
            let k = choose|k: int| 0 <= k < heap@.len() && heap@[k] == x;
            if k == best {
                assert(before[before.len() - 1] == x);
            } else {
                assert(before[k] == x);
            }
        }
        if before.no_duplicates() {
            assert forall|a: int, b: int|
                0 <= a < heap@.len() && 0 <= b < heap@.len() && a != b implies heap@[a]
                != heap@[b] by {
                let from_a = if a == best {
                    before.len() - 1
                } else {
                    a
                };
                let from_b = if b == best {
                    before.len() - 1
                } else {
                    b
                };
                assert(heap@[a] == before[from_a]);
                assert(heap@[b] == before[from_b]);
            }
            if heap@.contains(c) {
                let k = choose|k: int| 0 <= k < heap@.len() && heap@[k] == c;
                let from = if k == best {
                    before.len() - 1
                } else {
                    k
                };
                assert(before[from] == c);
                assert(from != best);
            }
        }
        assert forall|x: Candidate<W>| #[trigger] before.contains(x) implies x == c
            || heap@.contains(x) by {
            let k = choose|k: int| 0 <= k < before.len() && before[k] == x;
            if k != best {
                if k == before.len() - 1 {
                    assert(heap@[best as int] == x);
                } else {
                    assert(heap@[k] == x);
                }
            }
        }
    }
    c
}

/// The best paths among the successful paths of the transducer, `nshortest`
/// of them at most, as a transducer of its own that is shaped like a tree.
/// The search takes the candidate with the best priority out of its heap
/// until it has ended `nshortest` paths or the heap is empty; it leaves each
/// state `nshortest` times at most. What it builds from a deterministic
/// transducer is deterministic.
#[verifier::rlimit(60)]
fn n_shortest_path<W: Semiring, F: Fst<W>, FO: MutableFst<W>>(fst: &F, nshortest: usize) -> (r:
    Result<FO, FstError>)
    requires
        fst@.wf(),
        W::descends(),
        nshortest > 0,
    ensures
        match r {
            Ok(g) => g@.wf() && holds_paths_of(g@, fst@) && count_final_states(g@.states)
                <= nshortest && (has_accepting_path(fst@) ==> has_accepting_path(g@))
                && is_connected(g@) && is_tree(g@) && (count_final_states(g@.states)
                == nshortest || holds_all_paths(g@, fst@)) && (orders_paths::<W>()
                ==> holds_best_paths(g@, fst@)) && (fst@.i_deterministic()
                ==> g@.i_deterministic()),
            Err(e) => e == FstError::InvalidInput && fst@.states.len() == usize::MAX,
        },
{
    let ghost f = fst@;
    let n = fst.num_states();
    let rev: FO = match reverse(fst) {
        Ok(rev) => rev,
        Err(e) => {
            return Err(e);
        },
    };
    let dist = match shortest_distance(&rev) {
        Ok(dist) => dist,
        Err(e) => {
            proof {
                assert(false);
            }
            return Err(e);
        },
    };
    assert(dist@.len() == n + 1);
    let mut out = FO::new();
    let mut node_state: Vec<StateId> = Vec::new();
    let mut heap: Vec<Candidate<W>> = Vec::new();
    let mut visits: Vec<usize> = Vec::new();
    let mut s: usize = 0;
    while s < n
        invariant
            s <= n,
            visits.len() == s,
            forall|t: int| 0 <= t < s ==> visits@[t] == 0,
        decreases n - s,
    {
        visits.push(0);
        s += 1;
    }
    match fst.start() {
        Some(start) => {
            let one = W::one();
            heap.push(
                Candidate {
                    state: Some(start),
                    cost: one,
                    priority: dist[start + 1],
                    parent: None,
                    ilabel: 0,
                    olabel: 0,
                    weight: one,
                    index: 0,
                },
            );
            assert(heap@[0].state == Some(start));
        },
        None => {},
    }
    let mut emitted: usize = 0;
    let ghost mut costs: Seq<W> = Seq::empty();
    let ghost mut via: Seq<int> = Seq::empty();
    proof {
        assert(out@.states =~= Seq::<StateView<W>>::empty());
        assert forall|c: Candidate<W>| #[trigger] heap@.contains(c) implies c.parent is None by {
            let k = choose|k: int| 0 <= k < heap@.len() && heap@[k] == c;
        }
        lemma_apart_start(f, out@, heap@);
        assert(node_state@ =~= Seq::<StateId>::empty());
        if orders_paths::<W>() {
            assert forall|c: Candidate<W>| #[trigger] heap@.contains(c) implies c.parent is None
                && c.cost == W::one_spec() && (c.state matches Some(s) && s < f.states.len()
                && c.priority == dist@[s + 1]) by {
                let k = choose|k: int| 0 <= k < heap@.len() && heap@[k] == c;
            }
            lemma_order_start(f, out@, heap@, visits@, dist@, nshortest as int);
            assert(node_state@ =~= Seq::<StateId>::empty());
        }
        assert forall|c: Candidate<W>| heap@.contains(c) implies candidate_ok(
            f,
            node_state@,
            c,
        ) by {
            let k = choose|k: int| 0 <= k < heap@.len() && heap@[k] == c;
        }
        if f.start is Some {
            assert(heap@.contains(heap@[0]));
        }
        assert(covers(f, heap@, visits@, 0));
        assert(is_search_tree(out@, heap@, 0));
        assert(keeps_count(f, heap@, visits@, 0, nshortest as int, -1, 0));
        assert(tracks_nodes(f, out@, node_state@, heap@, visits@, nshortest as int, -1, 0));
        assert(ends_fit(out@, heap@)) by {
            assert forall|c: Candidate<W>| #[trigger] heap@.contains(c) implies c.state is Some by {
                let k = choose|k: int| 0 <= k < heap@.len() && heap@[k] == c;
            }
        }
    }
    while heap.len() > 0 && emitted < nshortest
        invariant
            f == fst@,
            f.wf(),
            n == f.states.len(),
            n < usize::MAX,
            dist@.len() == n + 1,
            visits.len() == n,
            emitted <= nshortest,
            out@.wf(),
            out@.states.len() == node_state@.len(),
            out@.isymt is None,
            out@.osymt is None,
            is_simulated_by(out@, f, node_state@),
            count_final_states(out@.states) == emitted,
            forall|c: Candidate<W>| heap@.contains(c) ==> candidate_ok(f, node_state@, c),
            covers(f, heap@, visits@, emitted as int),
            is_search_tree(out@, heap@, emitted as int),
            keeps_count(f, heap@, visits@, emitted as int, nshortest as int, -1, 0),
            tracks_nodes(f, out@, node_state@, heap@, visits@, nshortest as int, -1, 0),
            ends_once(heap@),
            ends_fit(out@, heap@),
            keeps_apart(f, out@, node_state@, heap@, via, -1, 0),
            orders_paths::<W>() ==> keeps_order(
                f,
                out@,
                node_state@,
                heap@,
                visits@,
                costs,
                dist@,
                nshortest as int,
                -1,
                0,
            ),
        decreases (nshortest - emitted) + visits_left(visits@, nshortest as nat), heap@.len(),
    {
        let ghost heap0 = heap@;
        let ghost visits0 = visits@;
        let c = pop_best(&mut heap);
        let ghost heap1 = heap@;
        let ghost h = node_state@;
        let ghost before = out@;
        assert(candidate_ok(f, h, c));
        proof {
            lemma_removal(heap1, heap0, c);
        }
        match c.state {
            None => {
                let k = c.parent.unwrap();
                proof {
                    assert(f.has_state(h[k as int] as int));
                    assert(before.states[k as int].final_weight is None);
                    lemma_count_final_states_set(
                        before.states,
                        k as int,
                        before.states[k as int].with_final(FstView::<W>::kept_final(c.weight)),
                    );
                }
                out.set_final_unchecked(k, c.weight);
                emitted += 1;
                proof {
                    lemma_count_final_pop(
                        f,
                        heap0,
                        heap1,
                        visits0,
                        emitted as int - 1,
                        nshortest as int,
                        c,
                    );
                    assert(out@.states[k as int].final_weight is Some) by {
                        assert(f.has_state(h[k as int] as int));
                    }
                    lemma_nodes_final_pop(
                        f,
                        before,
                        out@,
                        h,
                        heap0,
                        heap1,
                        visits0,
                        nshortest as int,
                        c,
                        k as int,
                    );
                    lemma_ends_fit_final(before, out@, heap0, heap1, c, k as int);
                    lemma_cover_final_pop(f, heap0, heap1, visits0, emitted as int - 1, c);
                    assert(out@.states[k as int].final_weight is Some) by {
                        assert(f.has_state(h[k as int] as int));
                    }
                    lemma_tree_after_final(before, out@, heap0, heap1, emitted as int - 1, k as int);
                    lemma_apart_shrink(f, before, out@, h, heap0, heap1, via);
                    if orders_paths::<W>() {
                        assert(out@.states[k as int].final_weight == Some(c.weight));
                        lemma_order_final_pop(
                            f,
                            before,
                            out@,
                            h,
                            heap0,
                            heap1,
                            visits0,
                            costs,
                            dist@,
                            nshortest as int,
                            c,
                            k as int,
                        );
                    }
                    assert forall|x: int, i: int| #[trigger] out@.has_tr(x, i) implies has_tr_like(
                        f,
                        h[x] as int,
                        out@.tr(x, i),
                        h[out@.tr(x, i).nextstate as int],
                    ) by {
                        assert(before.has_tr(x, i));
                    }
                    assert forall|x: int|
                        0 <= x < out@.states.len() && (#[trigger] out@.states[x]).final_weight
                            is Some implies f.states[h[x] as int].final_weight
                        == out@.states[x].final_weight by {
                        if x != k {
                            assert(before.states[x].final_weight is Some);
                        }
                    }
                }
            },
            Some(s) => {
                if visits[s] < nshortest {
                    proof {
                        lemma_visits_left_update(visits@, nshortest as nat, s as int);
                    }
                    visits[s] = visits[s] + 1;
                    let node = out.add_state();
                    node_state.push(s);
                    // the nodes can be counted, so that there was room for this one
                    let _nodes = node_state.len();
                    let ghost h1 = node_state@;
                    proof {
                        assert(out@.states =~= before.states.push(StateView::<W>::empty()));
                        lemma_count_final_states_push(before.states, StateView::<W>::empty());
                        assert forall|x: Candidate<W>| heap@.contains(x) implies candidate_ok(
                            f,
                            h1,
                            x,
                        ) by {
                            assert(candidate_ok(f, h, x));
                            if x.parent is Some {
                                assert(h1[x.parent->0 as int] == h[x.parent->0 as int]);
                            }
                        }
                    }
                    let ghost added = out@;
                    match c.parent {
                        Some(k) => {
                            out.add_tr_unchecked(
                                k,
                                Tr::new(c.ilabel, c.olabel, c.weight, node),
                            );
                        },
                        None => {
                            out.set_start_unchecked(node);
                        },
                    }
                    proof {
                        assert forall|x: int, i: int| #[trigger] before.has_tr(x, i) implies out@.has_tr(
                            x,
                            i,
                        ) && out@.tr(x, i) == before.tr(x, i) by {
                            assert(added.has_tr(x, i));
                            assert(added.tr(x, i) == before.tr(x, i));
                        }
                        assert forall|x: int| 0 <= x < before.states.len() implies (#[trigger] out@.states[x]).final_weight
                            == before.states[x].final_weight by {
                            assert(added.states[x] == before.states[x]);
                        }
                        match c.parent {
                            Some(k) => {
                                let last = added.states[k as int].trs.len() as int;
                                assert(out@.has_tr(k as int, last));
                                assert(out@.tr(k as int, last).nextstate == before.states.len());
                            },
                            None => {},
                        }
                        assert forall|x: int, i: int| #[trigger] out@.has_tr(x, i) implies before.has_tr(
                            x,
                            i,
                        ) || (c.parent == Some(x as usize) && i == before.states[x].trs.len()
                            && out@.tr(x, i).nextstate == before.states.len()) by {
                            if x < before.states.len() {
                                assert(added.states[x] == before.states[x]);
                            } else {
                                assert(added.states[x] == StateView::<W>::empty());
                            }
                        }
                        lemma_tree_after_node(before, out@, heap0, heap1, c, emitted as int);
                    }
                    proof {
                        assert forall|x: int, i: int| #[trigger] out@.has_tr(x, i) implies has_tr_like(
                            f,
                            h1[x] as int,
                            out@.tr(x, i),
                            h1[out@.tr(x, i).nextstate as int],
                        ) by {
                            if c.parent is Some && x == c.parent->0 && i
                                == added.states[x].trs.len() {
                                let t = Tr {
                                    ilabel: c.ilabel,
                                    olabel: c.olabel,
                                    weight: c.weight,
                                    nextstate: s,
                                };
                                assert(has_tr_like(f, h[x] as int, t, s));
                                let j = choose|j: int|
                                    #[trigger] f.has_tr(h[x] as int, j) && f.tr(h[x] as int, j)
                                        == t.with_nextstate(s);
                                assert(f.tr(h1[x] as int, j) == out@.tr(x, i).with_nextstate(
                                    h1[node as int],
                                ));
                            } else {
                                assert(before.has_tr(x, i));
                                assert(out@.tr(x, i) == before.tr(x, i));
                                assert(has_tr_like(
                                    f,
                                    h[x] as int,
                                    before.tr(x, i),
                                    h[before.tr(x, i).nextstate as int],
                                ));
                                assert(h1[x] == h[x]);
                                assert(h1[before.tr(x, i).nextstate as int]
                                    == h[before.tr(x, i).nextstate as int]);
                            }
                        }
                        assert forall|x: int|
                            0 <= x < out@.states.len() && (#[trigger] out@.states[x]).final_weight
                                is Some implies f.states[h1[x] as int].final_weight
                            == out@.states[x].final_weight by {
                            assert(x < before.states.len());
                            assert(before.states[x].final_weight is Some);
                            assert(h1[x] == h[x]);
                        }
                        assert(count_final_states(out@.states) == emitted) by {
                            assert(out@.states.len() == added.states.len());
                            assert forall|x: int| 0 <= x < out@.states.len() implies (#[trigger] out@.states[x]).final_weight
                                == added.states[x].final_weight by {}
                            lemma_count_final_states_same(out@.states, added.states);
                        }
                        assert(is_simulated_by(out@, f, h1));
                    }
                    proof {
                        match c.parent {
                            Some(k) => {
                                let last = added.states[k as int].trs.len() as int;
                                assert(out@.has_tr(k as int, last));
                                assert(out@.tr(k as int, last) == Tr {
                                    ilabel: c.ilabel,
                                    olabel: c.olabel,
                                    weight: c.weight,
                                    nextstate: node,
                                });
                            },
                            None => {},
                        }
                        assert forall|x: int, i: int| #[trigger] out@.has_tr(x, i) implies before.has_tr(
                            x,
                            i,
                        ) || (c.parent == Some(x as usize) && i == before.states[x].trs.len()
                            && out@.tr(x, i).nextstate == before.states.len() && out@.tr(
                            x,
                            i,
                        ).weight == c.weight && out@.tr(x, i).ilabel == c.ilabel) by {
                            if x < before.states.len() {
                                assert(added.states[x] == before.states[x]);
                            } else {
                                assert(added.states[x] == StateView::<W>::empty());
                            }
                        }
                        lemma_apart_expand(f, before, out@, h, heap0, heap1, via, c, s);
                        via = via.push(c.index as int);
                        if orders_paths::<W>() {
                            lemma_order_expand(
                                f,
                                before,
                                out@,
                                h,
                                heap0,
                                heap1,
                                visits0,
                                visits@,
                                costs,
                                dist@,
                                nshortest as int,
                                c,
                                s,
                            );
                        }
                        costs = costs.push(c.cost);
                    }
                    match fst.final_weight_unchecked(s) {
                        Some(fw) => {
                            let total = c.cost.times(&fw);
                            let end = Candidate {
                                state: None,
                                cost: total,
                                priority: total,
                                parent: Some(node),
                                ilabel: 0,
                                olabel: 0,
                                weight: fw,
                                index: 0,
                            };
                            heap.push(end);
                            proof {
                                lemma_push_holds_all(heap1, end);
                                lemma_tree_after_push(out@, heap1, end, emitted as int);
                                assert forall|x: Candidate<W>|
                                    #[trigger] heap1.contains(x) && x.state is None implies x.parent
                                    != end.parent by {
                                    assert(heap0.contains(x));
                                }
                                lemma_ends_once_push(heap1, end);
                                lemma_ends_fit_grow(before, out@, heap0, heap1);
                                lemma_ends_fit_push(out@, heap1, end);
                                assert forall|v: int| #[trigger] count_at(heap@, v) >= count_at(
                                    heap1,
                                    v,
                                ) by {
                                    lemma_count_push(heap1, end, v);
                                }
                                lemma_count_push(heap1, end, 0);
                                assert(waits_to_end(heap@, node as int));
                                lemma_apart_push_end(f, out@, h1, heap1, via, node as int, 0, end);
                                if orders_paths::<W>() {
                                    lemma_order_push_end(
                                        f,
                                        out@,
                                        h1,
                                        heap1,
                                        visits@,
                                        costs,
                                        dist@,
                                        nshortest as int,
                                        node as int,
                                        c,
                                        s,
                                        end,
                                    );
                                }
                            }
                        },
                        None => {
                            proof {
                                lemma_ends_fit_grow(before, out@, heap0, heap1);
                            }
                        },
                    }
                    proof {
                        assert(is_without(heap@, heap0, c));
                        assert(f.has_state(s as int));
                        lemma_cover_expand(f, heap0, heap@, visits0, visits@, emitted as int, c, s);
                        lemma_count_expand(
                            f,
                            heap0,
                            heap1,
                            heap@,
                            visits0,
                            visits@,
                            emitted as int,
                            nshortest as int,
                            c,
                            s,
                        );
                        match c.parent {
                            Some(k) => {
                                let last = added.states[k as int].trs.len() as int;
                                assert(out@.has_tr(k as int, last));
                                assert(out@.tr(k as int, last) == Tr {
                                    ilabel: c.ilabel,
                                    olabel: c.olabel,
                                    weight: c.weight,
                                    nextstate: node,
                                });
                            },
                            None => {},
                        }
                        lemma_nodes_expand(
                            f,
                            before,
                            out@,
                            h,
                            heap0,
                            heap@,
                            visits0,
                            visits@,
                            nshortest as int,
                            c,
                            s,
                        );
                        assert forall|x: Candidate<W>| heap@.contains(x) implies candidate_ok(
                            f,
                            h1,
                            x,
                        ) by {
                            let k = choose|k: int| 0 <= k < heap@.len() && heap@[k] == x;
                        }
                    }
                    let trs = fst.get_trs_unchecked(s);
                    let mut i: usize = 0;
                    while i < trs.len()
                        invariant
                            i <= trs.len(),
                            f == fst@,
                            f.wf(),
                            n == f.states.len(),
                            s < n,
                            dist@.len() == n + 1,
                            trs@ == f.states[s as int].trs,
                            h1 == node_state@,
                            node < h1.len(),
                            h1[node as int] == s,
                            forall|x: Candidate<W>|
                                heap@.contains(x) ==> candidate_ok(f, h1, x),
                            visits.len() == n,
                            out@.states.len() > 0,
                            covers_except(f, heap@, visits@, emitted as int, s as int, i as int),
                            is_search_tree(out@, heap@, emitted as int),
                            keeps_count(
                                f,
                                heap@,
                                visits@,
                                emitted as int,
                                nshortest as int,
                                s as int,
                                i as int,
                            ),
                            tracks_nodes(
                                f,
                                out@,
                                h1,
                                heap@,
                                visits@,
                                nshortest as int,
                                node as int,
                                i as int,
                            ),
                            ends_once(heap@),
                            ends_fit(out@, heap@),
                            keeps_apart(f, out@, h1, heap@, via, node as int, i as int),
                            orders_paths::<W>() ==> keeps_order(
                                f,
                                out@,
                                h1,
                                heap@,
                                visits@,
                                costs,
                                dist@,
                                nshortest as int,
                                node as int,
                                i as int,
                            ) && is_expanding(out@, h1, costs, dist@, c, s, node as int),
                        decreases trs.len() - i,
                    {
                        let tr = trs[i];
                        assert(f.has_tr(s as int, i as int));
                        let reach = dist[tr.nextstate + 1];
                        let cost = c.cost.times(&tr.weight);
                        let ghost heap_before = heap@;
                        let cand = Candidate {
                            state: Some(tr.nextstate),
                            cost,
                            priority: cost.times(&reach),
                            parent: Some(node),
                            ilabel: tr.ilabel,
                            olabel: tr.olabel,
                            weight: tr.weight,
                            index: i,
                        };
                        heap.push(cand);
                        proof {
                            lemma_push_holds_all(heap_before, cand);
                            lemma_tree_after_push(out@, heap_before, cand, emitted as int);
                            lemma_count_push_child(
                                f,
                                heap_before,
                                visits@,
                                emitted as int,
                                nshortest as int,
                                s as int,
                                i as int,
                                cand,
                            );
                            assert(is_for(cand, node as int, f.tr(h1[node as int] as int, i as int)));
                            lemma_nodes_push_child(
                                f,
                                out@,
                                h1,
                                heap_before,
                                heap@,
                                visits@,
                                nshortest as int,
                                node as int,
                                i as int,
                                cand,
                            );
                            lemma_ends_once_push(heap_before, cand);
                            lemma_ends_fit_push(out@, heap_before, cand);
                            lemma_apart_push_child(
                                f,
                                out@,
                                h1,
                                heap_before,
                                via,
                                node as int,
                                i as int,
                                cand,
                            );
                            if orders_paths::<W>() {
                                lemma_order_push_child(
                                    f,
                                    out@,
                                    h1,
                                    heap_before,
                                    visits@,
                                    costs,
                                    dist@,
                                    nshortest as int,
                                    node as int,
                                    i as int,
                                    c,
                                    s,
                                    cand,
                                );
                            }
                            lemma_cover_push(
                                f,
                                heap_before,
                                heap@,
                                visits@,
                                emitted as int,
                                s as int,
                                i as int,
                                cand,
                            );
                            assert(has_tr_like(f, s as int, tr, tr.nextstate)) by {
                                assert(f.tr(s as int, i as int) == tr.with_nextstate(
                                    tr.nextstate,
                                ));
                            }
                            assert forall|x: Candidate<W>|
                                heap@.contains(x) implies candidate_ok(f, h1, x) by {
                                let k = choose|k: int| 0 <= k < heap@.len() && heap@[k] == x;
                                if k < heap_before.len() {
                                    assert(heap_before[k] == x);
                                }
                            }
                        }
                        i += 1;
                    }
                    proof {
                        lemma_apart_expanded(f, out@, h1, heap@, via, node as int, i as int);
                        if orders_paths::<W>() {
                            lemma_order_expanded(
                                f,
                                out@,
                                h1,
                                heap@,
                                visits@,
                                costs,
                                dist@,
                                nshortest as int,
                                node as int,
                                c,
                                s,
                            );
                        }
                        assert(covers(f, heap@, visits@, emitted as int));
                        assert(keeps_count(f, heap@, visits@, emitted as int, nshortest as int, -1, 0));
                        assert(tracks_nodes(
                            f,
                            out@,
                            node_state@,
                            heap@,
                            visits@,
                            nshortest as int,
                            -1,
                            0,
                        ));
                    }
                } else {
                    proof {
                        lemma_cover_drop(f, heap0, heap1, visits0, emitted as int, c, s);
                        lemma_tree_after_drop(out@, heap0, heap1, emitted as int);
                        lemma_count_drop(
                            f,
                            heap0,
                            heap1,
                            visits0,
                            emitted as int,
                            nshortest as int,
                            c,
                            s,
                        );
                        lemma_nodes_drop(f, out@, h, heap0, heap1, visits0, nshortest as int, c, s);
                        lemma_ends_fit_grow(out@, out@, heap0, heap1);
                        lemma_apart_shrink(f, out@, out@, h, heap0, heap1, via);
                        if orders_paths::<W>() {
                            lemma_order_drop(
                                f,
                                out@,
                                h,
                                heap0,
                                heap1,
                                visits0,
                                costs,
                                dist@,
                                nshortest as int,
                                c,
                                s,
                            );
                        }
                    }
                }
            },
        }
    }
    let ghost tree = out@;
    let ghost heap_end = heap@;
    let ghost h = node_state@;
    let nodes = node_state.len();
    assert(tree.states.len() == nodes);
    match connect(&mut out) {
        Ok(_) => {},
        Err(_) => {},
    }
    proof {
        lemma_trimmed_holds_paths(tree, f, h, unconnected(tree));
        lemma_count_final_states_kept(tree.states, unconnected(tree));
        assert forall|t: int| 0 <= t < out@.states.len() implies #[trigger] out@.accessible(t)
            && out@.coaccessible(t) by {
            lemma_connect_leaves_connected(tree, t);
        }
        lemma_del_states_keeps_tree(tree, unconnected(tree));
        if f.i_deterministic() {
            lemma_apart_is_deterministic(f, tree, h, heap_end, via);
            lemma_del_states_keeps_deterministic(tree, unconnected(tree));
        }
        if emitted < nshortest {
            assert(heap_end.len() == 0);
            assert forall|p: Seq<Step>, to: int| f.is_accepting_path(p, to) implies has_like(
                out@,
                f,
                p,
                to,
            ) by {
                let s0 = f.start->0 as int;
                lemma_count_empty(heap_end, s0);
                if visits@[s0] == 0 {
                    let x = choose|x: Candidate<W>|
                        #[trigger] heap_end.contains(x) && (x.state matches Some(u) && u == s0);
                    let k = choose|k: int| 0 <= k < heap_end.len() && heap_end[k] == x;
                }
                assert(tree.states.len() > 0);
                let (q, end) = lemma_path_in_tree(
                    f,
                    tree,
                    h,
                    heap_end,
                    visits@,
                    emitted as int,
                    nshortest as int,
                    0,
                    p,
                    to,
                );
                assert(tree.is_accepting_path(q, end));
                lemma_connect_keeps_accepting_path(tree, q, end);
                assert(out@.is_accepting_path(
                    kept_steps(tree, unconnected(tree), q),
                    kept_below(unconnected(tree), end) as int,
                ));
            }
            assert forall|p: Seq<Step>, to: int| f.is_accepting_path(p, to) implies has_like(
                out@,
                f,
                p,
                to,
            ) || is_no_better_than_all(out@, #[trigger] total_weight(f, p, to)) by {
                assert(has_like(out@, f, p, to));
            }
        } else {
            assert forall|k: int|
                0 <= k < tree.states.len() && (#[trigger] tree.states[k]).final_weight
                    is Some implies !unconnected(tree).contains(k) by {
                lemma_tree_accessible(tree, k);
                assert(tree.is_path(k, Seq::<Step>::empty(), k));
                assert(tree.reachable(k, k) && tree.is_final(k));
            }
            lemma_count_final_states_kept_all(tree.states, unconnected(tree));
            if orders_paths::<W>() {
                lemma_tree_holds_best(
                    f,
                    tree,
                    h,
                    heap_end,
                    visits@,
                    costs,
                    dist@,
                    nshortest as int,
                );
            }
        }
        if has_accepting_path(f) {
            let (p, to) = choose|p: Seq<Step>, to: int| f.is_accepting_path(p, to);
            if heap_end.len() == 0 {
                lemma_search_done(f, heap_end, visits@, emitted as int, p, to);
            }
            assert(emitted >= 1);
            assert(has_final_state(tree));
            let k = choose|k: int|
                0 <= k < tree.states.len() && (#[trigger] tree.states[k]).final_weight is Some;
            lemma_tree_accessible(tree, k);
            let q = choose|q: Seq<Step>| tree.is_path(0, q, k);
            assert(tree.is_accepting_path(q, k));
            lemma_connect_keeps_accepting_path(tree, q, k);
            assert(out@.is_accepting_path(
                kept_steps(tree, unconnected(tree), q),
                kept_below(unconnected(tree), k) as int,
            ));
        }
    }
    Ok(out)
}

/// Sequences of states with the same final weights have the same number of
/// final states.
proof fn lemma_count_final_states_same<W: Semiring>(a: Seq<StateView<W>>, b: Seq<StateView<W>>)
    requires
        a.len() == b.len(),
        forall|x: int| 0 <= x < a.len() ==> (#[trigger] a[x]).final_weight == b[x].final_weight,
    ensures
        count_final_states(a) == count_final_states(b),
    decreases a.len(),
{
    if a.len() > 0 {
        assert forall|x: int| 0 <= x < a.drop_last().len() implies (#[trigger] a.drop_last()[x]).final_weight
            == b.drop_last()[x].final_weight by {
            assert(a.drop_last()[x] == a[x]);
            assert(b.drop_last()[x] == b[x]);
        }
        lemma_count_final_states_same(a.drop_last(), b.drop_last());
        assert(a.last() == a[a.len() - 1]);
        assert(b.last() == b[b.len() - 1]);
    }
}

/// Whether each state of the transducer lies on a successful path: it can
/// be reached from the start state, and a final state can be reached from
/// it.
pub open spec fn is_connected<W: Semiring>(g: FstView<W>) -> bool {
    forall|t: int| 0 <= t < g.states.len() ==> #[trigger] g.accessible(t) && g.coaccessible(t)
}

/// What `shortest_path` returns for a positive number of paths: a
/// well-formed transducer shaped like a tree, each of whose states lies on a
/// successful path. It holds paths of `f` only, or, where each string is to
/// occur once, paths of a determinized form of `f` only. It has `nshortest`
/// final states, one at the end of each of its paths, or fewer, and then it
/// has the like of every successful path of that transducer. Where the
/// semiring orders paths, each successful path of that transducer that has
/// not its like in it is no better than each of its successful paths. Where
/// each string is to occur once, it is deterministic, so that no two of its
/// paths spell the same string.
pub open spec fn is_shortest_path_of<W: WeaklyDivisibleSemiring + WeightQuantize>(
    g: FstView<W>,
    f: FstView<W>,
    nshortest: usize,
    unique: bool,
) -> bool {
    &&& g.wf()
    &&& count_final_states(g.states) <= nshortest
    &&& is_connected(g)
    &&& is_tree(g)
    &&& if unique {
        exists|d: FstView<W>, table: Seq<SubsetView<W>>|
            #[trigger] is_determinization::<W, DefaultCommonDivisor>(
                f,
                d,
                table,
                DEFAULT_DELTA,
            ) && holds_paths_of(g, d) && (has_accepting_path(d) ==> has_accepting_path(g)) && (
            count_final_states(g.states) == nshortest || holds_all_paths(g, d)) && (
            orders_paths::<W>() ==> holds_best_paths(g, d)) && d.i_deterministic()
                && g.i_deterministic()
    } else {
        holds_paths_of(g, f) && (has_accepting_path(f) ==> has_accepting_path(g)) && (
        count_final_states(g.states) == nshortest || holds_all_paths(g, f)) && (
        orders_paths::<W>() ==> holds_best_paths(g, f))
    }
}

/// Whether `e` is the error for which the best paths of the acceptor `f`
/// cannot be had with each string once: its determinization stopped for
/// `e` when the subsets of some table were met, or came to as many states as
/// a machine word can count, which leaves no room for the search.
pub open spec fn is_unique_failure<W: WeaklyDivisibleSemiring + WeightQuantize>(
    f: FstView<W>,
    e: FstError,
) -> bool {
    exists|table: Seq<SubsetView<W>>| #[trigger]
        is_reached_table::<W, DefaultCommonDivisor>(f, table, DEFAULT_DELTA, usize::MAX) && (
        is_failure_of::<W, DefaultCommonDivisor>(f, table, DEFAULT_DELTA, usize::MAX, e) || (e
            == FstError::InvalidInput && table.len() == usize::MAX))
}

/// Extracts the `nshortest` best successful paths of the transducer, in a
/// semiring whose `⊕` picks the better of two weights. The result is a
/// transducer whose successful paths are such paths: a path that is left
/// out is no better than one that is returned, where the semiring orders
/// paths, as the tropical and the boolean semiring do. With `unique` the
/// transducer, which must then be an acceptor, is determinized first, so
/// that no string occurs on two paths.
///
/// For no path at all the result is the empty transducer. A semiring without
/// the path property is refused as unsupported, and so is one in which
/// updates of a weight need not come to an end. A transducer with as many
/// states as a machine word can count is refused, and with `unique` one
/// that is no acceptor or whose determinization fails.
pub fn shortest_path<W: WeaklyDivisibleSemiring + WeightQuantize, FI: Fst<W>, FO: MutableFst<W>>(
    ifst: &FI,
    nshortest: usize,
    unique: bool,
) -> (r: Result<FO, FstError>)
    requires
        ifst@.wf(),
    ensures
        nshortest == 0 ==> (r matches Ok(g) && g@ == FstView::<W>::empty()),
        nshortest > 0 && !(W::properties_spec().path && W::descends()) ==> r == Err::<
            FO,
            FstError,
        >(FstError::UnsupportedSemiring),
        nshortest > 0 && W::properties_spec().path && W::descends() ==> match r {
            Ok(g) => is_shortest_path_of(g@, ifst@, nshortest, unique),
            Err(e) => if !unique {
                e == FstError::InvalidInput && ifst@.states.len() == usize::MAX
            } else if !ifst@.every_tr_meets(ACCEPTOR_BIT) {
                e == FstError::PropertyViolation
            } else {
                is_unique_failure(ifst@, e)
            },
        },
        nshortest > 0 && W::properties_spec().path && W::descends() && !unique
            && ifst@.states.len() < usize::MAX ==> r is Ok,
{
    if nshortest == 0 {
        return Ok(FO::new());
    }
    if !W::properties().path || !W::is_descending() {
        return Err(FstError::UnsupportedSemiring);
    }
    if unique {
        let copy: FO = copy_fst(ifst);
        let mut det = match DeterminizeFsa::<W, FO, DefaultCommonDivisor>::new(copy, None) {
            Ok(det) => det,
            Err(e) => {
                return Err(e);
            },
        };
        let dfst: FO = match det.compute() {
            Ok(dfst) => dfst,
            Err(e) => {
                proof {
                    let table = det.table_view();
                    assert(is_reached_table::<W, DefaultCommonDivisor>(
                        ifst@,
                        table,
                        DEFAULT_DELTA,
                        usize::MAX,
                    ));
                    assert(is_failure_of::<W, DefaultCommonDivisor>(
                        ifst@,
                        table,
                        DEFAULT_DELTA,
                        usize::MAX,
                        e,
                    ));
                }
                return Err(e);
            },
        };
        let ghost table = det.table_view();
        proof {
            assert(dfst@.property_fact(I_DETERMINISTIC_BIT));
        }
        match n_shortest_path::<W, FO, FO>(&dfst, nshortest) {
            Ok(g) => {
                proof {
                    assert(is_determinization::<W, DefaultCommonDivisor>(
                        ifst@,
                        dfst@,
                        table,
                        DEFAULT_DELTA,
                    ) && holds_paths_of(g@, dfst@) && (has_accepting_path(dfst@)
                        ==> has_accepting_path(g@)) && (count_final_states(g@.states) == nshortest
                        || holds_all_paths(g@, dfst@)) && (orders_paths::<W>()
                        ==> holds_best_paths(g@, dfst@)) && dfst@.i_deterministic()
                        && g@.i_deterministic());
                }
                Ok(g)
            },
            Err(e) => {
                proof {
                    assert(is_reached_table::<W, DefaultCommonDivisor>(
                        ifst@,
                        table,
                        DEFAULT_DELTA,
                        usize::MAX,
                    ));
                    assert(table.len() == usize::MAX);
                }
                Err(e)
            },
        }
    } else {
        n_shortest_path(ifst, nshortest)
    }
}

} // verus!
