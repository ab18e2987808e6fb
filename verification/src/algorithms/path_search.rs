//! What the search for the best paths never loses sight of: each state that
//! a successful path leads through is either left already or waits in the
//! heap, so that the search cannot end without a path where there is one.

use vstd::prelude::*;
use crate::algorithms::compose::is_met_from_earlier;
use crate::fst_view::{FstView, Step};
use crate::fst_view_delete::{
    kept_below, lemma_kept_below_monotone, lemma_kept_states_origin, lemma_kept_trs_origin,
};
use crate::semirings::semiring::Semiring;
use crate::tr::{Label, StateId};

verus! {

/// A way that the search may go on: the state it gets to, or none where it
/// ends the path in the state of its parent; what the path costs up to
/// there; what the best path through it costs; the node of the result it
/// comes from; the labels and the weight of its last step; and which of the
/// transitions of the state of its parent that step is.
#[derive(Clone, Copy, Debug)]
pub struct Candidate<W: Semiring> {
    pub state: Option<StateId>,
    pub cost: W,
    pub priority: W,
    pub parent: Option<StateId>,
    pub ilabel: Label,
    pub olabel: Label,
    pub weight: W,
    pub index: usize,
}

/// Whether a candidate that gets to state `s` waits in the heap.
pub open spec fn waits_at<W: Semiring>(heap: Seq<Candidate<W>>, s: int) -> bool {
    exists|x: Candidate<W>| #[trigger] heap.contains(x) && (x.state matches Some(t) && t == s)
}

/// Whether a candidate that ends a path waits in the heap.
pub open spec fn holds_end<W: Semiring>(heap: Seq<Candidate<W>>) -> bool {
    exists|x: Candidate<W>| #[trigger] heap.contains(x) && x.state is None
}

/// Whether the search has state `s` in sight: it was left already, or a
/// candidate that gets to it waits in the heap.
pub open spec fn is_covered<W: Semiring>(heap: Seq<Candidate<W>>, visits: Seq<usize>, s: int) -> bool {
    0 <= s < visits.len() && (visits[s] >= 1 || waits_at(heap, s))
}

/// Whether the search has in sight the start state, the target of each
/// transition of a state that was left, and the end of each path that ends
/// in a final state that was left. The transitions of state `s` from the
/// index `upto` on are left aside: they are those for which the candidates
/// are yet to be made.
pub open spec fn covers_except<W: Semiring>(
    f: FstView<W>,
    heap: Seq<Candidate<W>>,
    visits: Seq<usize>,
    emitted: int,
    s: int,
    upto: int,
) -> bool {
    &&& visits.len() == f.states.len()
    &&& f.start matches Some(s0) ==> is_covered(heap, visits, s0 as int)
    &&& forall|u: int, i: int|
        #[trigger] f.has_tr(u, i) && visits[u] >= 1 && (u != s || i < upto) ==> is_covered(
            heap,
            visits,
            f.tr(u, i).nextstate as int,
        )
    &&& forall|u: int| #[trigger] f.is_final(u) && visits[u] >= 1 ==> emitted >= 1 || holds_end(heap)
}

/// Whether the search has all in sight that it must.
pub open spec fn covers<W: Semiring>(
    f: FstView<W>,
    heap: Seq<Candidate<W>>,
    visits: Seq<usize>,
    emitted: int,
) -> bool {
    covers_except(f, heap, visits, emitted, -1, 0)
}

/// Whether `after` holds the candidates of `before` but `c`.
pub open spec fn is_without<W: Semiring>(
    after: Seq<Candidate<W>>,
    before: Seq<Candidate<W>>,
    c: Candidate<W>,
) -> bool {
    forall|x: Candidate<W>| #[trigger] before.contains(x) ==> x == c || after.contains(x)
}

/// Whether `after` holds the candidates of `before`.
pub open spec fn holds_all<W: Semiring>(after: Seq<Candidate<W>>, before: Seq<Candidate<W>>) -> bool {
    forall|x: Candidate<W>| #[trigger] before.contains(x) ==> after.contains(x)
}

/// A heap with one more candidate holds it and those it held.
pub proof fn lemma_push_holds_all<W: Semiring>(heap: Seq<Candidate<W>>, c: Candidate<W>)
    ensures
        holds_all(heap.push(c), heap),
        heap.push(c).contains(c),
{
    assert forall|x: Candidate<W>| #[trigger] heap.contains(x) implies heap.push(c).contains(x) by {
        let k = choose|k: int| 0 <= k < heap.len() && heap[k] == x;
        assert(heap.push(c)[k] == x);
    }
    assert(heap.push(c)[heap.len() as int] == c);
}

/// Nothing is lost sight of when a path is ended.
pub proof fn lemma_cover_final_pop<W: Semiring>(
    f: FstView<W>,
    before: Seq<Candidate<W>>,
    after: Seq<Candidate<W>>,
    visits: Seq<usize>,
    emitted: int,
    c: Candidate<W>,
)
    requires
        covers(f, before, visits, emitted),
        emitted >= 0,
        c.state is None,
        is_without(after, before, c),
    ensures
        covers(f, after, visits, emitted + 1),
{
    assert forall|t: int| is_covered(before, visits, t) implies is_covered(after, visits, t) by {
        if visits[t] == 0 {
            let x = choose|x: Candidate<W>|
                #[trigger] before.contains(x) && (x.state matches Some(u) && u == t);
            assert(after.contains(x));
        }
    }
}

/// Nothing is lost sight of when a candidate is dropped that gets to a
/// state that was left before.
pub proof fn lemma_cover_drop<W: Semiring>(
    f: FstView<W>,
    before: Seq<Candidate<W>>,
    after: Seq<Candidate<W>>,
    visits: Seq<usize>,
    emitted: int,
    c: Candidate<W>,
    s: StateId,
)
    requires
        covers(f, before, visits, emitted),
        c.state == Some(s),
        s < visits.len(),
        visits[s as int] >= 1,
        is_without(after, before, c),
    ensures
        covers(f, after, visits, emitted),
{
    assert forall|t: int| is_covered(before, visits, t) implies is_covered(after, visits, t) by {
        if visits[t] == 0 {
            let x = choose|x: Candidate<W>|
                #[trigger] before.contains(x) && (x.state matches Some(u) && u == t);
            assert(after.contains(x));
        }
    }
    if holds_end(before) {
        let x = choose|x: Candidate<W>| #[trigger] before.contains(x) && x.state is None;
        assert(after.contains(x));
    }
}

/// Nothing is lost sight of when a state is left, but the targets of its
/// own transitions, for which the candidates are yet to be made.
pub proof fn lemma_cover_expand<W: Semiring>(
    f: FstView<W>,
    before: Seq<Candidate<W>>,
    after: Seq<Candidate<W>>,
    visits: Seq<usize>,
    now: Seq<usize>,
    emitted: int,
    c: Candidate<W>,
    s: StateId,
)
    requires
        covers(f, before, visits, emitted),
        c.state == Some(s),
        s < visits.len(),
        now.len() == visits.len(),
        now[s as int] >= 1,
        forall|u: int| 0 <= u < visits.len() && u != s ==> #[trigger] now[u] == visits[u],
        is_without(after, before, c),
        f.is_final(s as int) ==> holds_end(after),
    ensures
        covers_except(f, after, now, emitted, s as int, 0),
{
    assert forall|t: int| is_covered(before, visits, t) implies is_covered(after, now, t) by {
        if t != s {
            if visits[t] == 0 {
                let x = choose|x: Candidate<W>|
                    #[trigger] before.contains(x) && (x.state matches Some(u) && u == t);
                assert(after.contains(x));
            }
        }
    }
    assert forall|u: int| #[trigger] f.is_final(u) && now[u] >= 1 implies emitted >= 1
        || holds_end(after) by {
        if u != s && emitted < 1 {
            assert(holds_end(before));
            let x = choose|x: Candidate<W>| #[trigger] before.contains(x) && x.state is None;
            assert(after.contains(x));
        }
    }
}

/// One more transition of the state that is being left has its candidate.
pub proof fn lemma_cover_push<W: Semiring>(
    f: FstView<W>,
    before: Seq<Candidate<W>>,
    after: Seq<Candidate<W>>,
    visits: Seq<usize>,
    emitted: int,
    s: int,
    i: int,
    c: Candidate<W>,
)
    requires
        covers_except(f, before, visits, emitted, s, i),
        f.has_tr(s, i),
        f.tr(s, i).nextstate < f.states.len(),
        holds_all(after, before),
        after.contains(c),
        c.state == Some(f.tr(s, i).nextstate),
    ensures
        covers_except(f, after, visits, emitted, s, i + 1),
{
    assert forall|t: int| is_covered(before, visits, t) implies is_covered(after, visits, t) by {
        if visits[t] == 0 {
            let x = choose|x: Candidate<W>|
                #[trigger] before.contains(x) && (x.state matches Some(u) && u == t);
            assert(after.contains(x));
        }
    }
    assert(is_covered(after, visits, f.tr(s, i).nextstate as int));
    if holds_end(before) {
        let x = choose|x: Candidate<W>| #[trigger] before.contains(x) && x.state is None;
        assert(after.contains(x));
    }
}

/// With an empty heap each state that a path leads to from a state that
/// was left was left as well.
pub proof fn lemma_path_was_left<W: Semiring>(
    f: FstView<W>,
    heap: Seq<Candidate<W>>,
    visits: Seq<usize>,
    emitted: int,
    from: int,
    p: Seq<Step>,
    to: int,
)
    requires
        covers(f, heap, visits, emitted),
        heap.len() == 0,
        f.is_path(from, p, to),
        0 <= from < visits.len(),
        visits[from] >= 1,
    ensures
        0 <= to < visits.len(),
        visits[to] >= 1,
    decreases p.len(),
{
    if p.len() > 0 {
        let next = f.tr(p[0].0, p[0].1).nextstate as int;
        assert(f.has_tr(from, p[0].1));
        assert(is_covered(heap, visits, next));
        lemma_path_was_left(f, heap, visits, emitted, next, p.drop_first(), to);
    }
}

/// A search that ends with an empty heap has ended a path, where there is
/// a successful path.
pub proof fn lemma_search_done<W: Semiring>(
    f: FstView<W>,
    heap: Seq<Candidate<W>>,
    visits: Seq<usize>,
    emitted: int,
    p: Seq<Step>,
    to: int,
)
    requires
        covers(f, heap, visits, emitted),
        heap.len() == 0,
        f.is_accepting_path(p, to),
    ensures
        emitted >= 1,
{
    let s0 = f.start->0 as int;
    assert(is_covered(heap, visits, s0));
    if visits[s0] == 0 {
        let x = choose|x: Candidate<W>|
            #[trigger] heap.contains(x) && (x.state matches Some(u) && u == s0);
        let k = choose|k: int| 0 <= k < heap.len() && heap[k] == x;
    }
    lemma_path_was_left(f, heap, visits, emitted, s0, p, to);
    assert(f.is_final(to));
    if holds_end(heap) {
        let x = choose|x: Candidate<W>| #[trigger] heap.contains(x) && x.state is None;
        let k = choose|k: int| 0 <= k < heap.len() && heap[k] == x;
    }
}

/// In a transducer that starts in state 0 and in which each other state is
/// led to from an earlier one, every state can be reached from the start
/// state.
pub proof fn lemma_tree_accessible<W: Semiring>(t: FstView<W>, x: int)
    requires
        t.graph_wf(),
        t.start == Some(0usize),
        forall|k: int| 1 <= k < t.states.len() ==> #[trigger] is_met_from_earlier(t, k),
        0 <= x < t.states.len(),
    ensures
        t.accessible(x),
    decreases x,
{
    if x == 0 {
        assert(t.is_path(0, Seq::<Step>::empty(), 0));
    } else {
        assert(is_met_from_earlier(t, x));
        let (j, m) = choose|j: int, m: int|
            0 <= j < x && t.has_tr(j, m) && #[trigger] t.tr(j, m).nextstate == x;
        lemma_tree_accessible(t, j);
        let p = choose|p: Seq<Step>| t.is_path(0, p, j);
        t.lemma_path_push(0, p, j, m);
    }
}

/// Whether some state of the transducer is final.
pub open spec fn has_final_state<W: Semiring>(t: FstView<W>) -> bool {
    exists|k: int| 0 <= k < t.states.len() && (#[trigger] t.states[k]).final_weight is Some
}

/// Whether the transducer has a successful path.
pub open spec fn has_accepting_path<W: Semiring>(f: FstView<W>) -> bool {
    exists|p: Seq<Step>, to: int| f.is_accepting_path(p, to)
}

/// Whether the transducer is shaped like a tree: no transition leads to the
/// start state, and no two transitions lead to the same state.
pub open spec fn is_tree<W: Semiring>(t: FstView<W>) -> bool {
    &&& forall|x: int, i: int|
        #[trigger] t.has_tr(x, i) ==> t.start != Some(t.tr(x, i).nextstate)
    &&& forall|x: int, i: int, y: int, j: int|
        #![trigger t.tr(x, i), t.tr(y, j)]
        t.has_tr(x, i) && t.has_tr(y, j) && t.tr(x, i).nextstate == t.tr(y, j).nextstate ==> x
            == y && i == j
}

/// The new indices of two states that stay are the same only where the
/// states are.
proof fn lemma_kept_below_injective(dead: Set<int>, a: int, b: int)
    requires
        0 <= a,
        0 <= b,
        !dead.contains(a),
        !dead.contains(b),
        kept_below(dead, a) == kept_below(dead, b),
    ensures
        a == b,
{
    if a < b {
        lemma_kept_below_monotone(dead, a, b);
    } else if b < a {
        lemma_kept_below_monotone(dead, b, a);
    }
}

/// A tree stays a tree when states are removed from it.
pub proof fn lemma_del_states_keeps_tree<W: Semiring>(f: FstView<W>, dead: Set<int>)
    requires
        f.graph_wf(),
        f.states.len() <= usize::MAX,
        is_tree(f),
    ensures
        is_tree(f.del_states(dead)),
{
    let g = f.del_states(dead);
    assert forall|x: int, i: int| #[trigger] g.has_tr(x, i) implies g.start != Some(
        g.tr(x, i).nextstate,
    ) by {
        let s = lemma_kept_states_origin(f.states, dead, x);
        let j = lemma_kept_trs_origin(f.states[s].trs, dead, i);
        assert(f.has_tr(s, j));
        let target = f.tr(s, j).nextstate as int;
        crate::fst_view_delete::lemma_kept_below_bound(dead, target);
        match f.start {
            Some(s0) => {
                if !dead.contains(s0 as int) {
                    crate::fst_view_delete::lemma_kept_below_bound(dead, s0 as int);
                    if kept_below(dead, target) == kept_below(dead, s0 as int) {
                        lemma_kept_below_injective(dead, target, s0 as int);
                    }
                }
            },
            None => {},
        }
    }
    assert forall|x: int, i: int, y: int, j: int|
        #![trigger g.tr(x, i), g.tr(y, j)]
        g.has_tr(x, i) && g.has_tr(y, j) && g.tr(x, i).nextstate == g.tr(y, j).nextstate implies x
        == y && i == j by {
        let s = lemma_kept_states_origin(f.states, dead, x);
        let a = lemma_kept_trs_origin(f.states[s].trs, dead, i);
        let u = lemma_kept_states_origin(f.states, dead, y);
        let b = lemma_kept_trs_origin(f.states[u].trs, dead, j);
        assert(f.has_tr(s, a));
        assert(f.has_tr(u, b));
        let ta = f.tr(s, a).nextstate as int;
        let tb = f.tr(u, b).nextstate as int;
        crate::fst_view_delete::lemma_kept_below_bound(dead, ta);
        crate::fst_view_delete::lemma_kept_below_bound(dead, tb);
        lemma_kept_below_injective(dead, ta, tb);
        assert(f.tr(s, a).nextstate == f.tr(u, b).nextstate);
    }
}

/// What holds of the tree that the search builds: it starts in its first
/// node, each other node is led to from an earlier one, only the candidate
/// for the start state has no parent, which waits alone while the tree has
/// no node, and a node is final once a path was ended.
pub open spec fn is_search_tree<W: Semiring>(
    t: FstView<W>,
    heap: Seq<Candidate<W>>,
    emitted: int,
) -> bool {
    &&& t.states.len() > 0 ==> t.start == Some(0usize)
    &&& forall|k: int| 1 <= k < t.states.len() ==> #[trigger] is_met_from_earlier(t, k)
    &&& is_tree(t)
    &&& t.states.len() == 0 ==> heap.len() <= 1
    &&& forall|x: Candidate<W>| #[trigger] heap.contains(x) && x.parent is None ==> t.states.len() == 0
    &&& emitted >= 1 ==> has_final_state(t)
}

/// The tree stays one when a path is ended in one of its nodes.
pub proof fn lemma_tree_after_final<W: Semiring>(
    t0: FstView<W>,
    t1: FstView<W>,
    heap0: Seq<Candidate<W>>,
    heap1: Seq<Candidate<W>>,
    emitted: int,
    k: int,
)
    requires
        is_search_tree(t0, heap0, emitted),
        t1.start == t0.start,
        t1.states.len() == t0.states.len(),
        forall|x: int| 0 <= x < t0.states.len() ==> (#[trigger] t1.states[x]).trs == t0.states[x].trs,
        0 <= k < t1.states.len(),
        t1.states[k].final_weight is Some,
        holds_all(heap0, heap1),
    ensures
        is_search_tree(t1, heap1, emitted + 1),
{
    assert forall|x: int| 1 <= x < t1.states.len() implies #[trigger] is_met_from_earlier(t1, x) by {
        assert(is_met_from_earlier(t0, x));
        let (j, m) = choose|j: int, m: int|
            0 <= j < x && t0.has_tr(j, m) && #[trigger] t0.tr(j, m).nextstate == x;
        assert(t1.states[j].trs == t0.states[j].trs);
        assert(t1.has_tr(j, m) && t1.tr(j, m).nextstate == x);
    }
    assert(t1.states.len() > 0);
    assert forall|x: int, i: int| t1.has_tr(x, i) == t0.has_tr(x, i) by {
        if 0 <= x < t0.states.len() {
            assert(t1.states[x].trs == t0.states[x].trs);
        }
    }
    assert forall|x: int, i: int| #[trigger] t1.has_tr(x, i) implies t1.tr(x, i) == t0.tr(x, i) by {
        assert(t1.states[x].trs == t0.states[x].trs);
    }
    assert(is_tree(t1)) by {
        assert forall|x: int, i: int| #[trigger] t1.has_tr(x, i) implies t1.start != Some(
            t1.tr(x, i).nextstate,
        ) by {
            assert(t0.has_tr(x, i));
        }
        assert forall|x: int, i: int, y: int, j: int|
            #![trigger t1.tr(x, i), t1.tr(y, j)]
            t1.has_tr(x, i) && t1.has_tr(y, j) && t1.tr(x, i).nextstate == t1.tr(
                y,
                j,
            ).nextstate implies x == y && i == j by {
            assert(t0.has_tr(x, i) && t0.has_tr(y, j));
            assert(t0.tr(x, i) == t1.tr(x, i) && t0.tr(y, j) == t1.tr(y, j));
        }
    }
}

/// The tree stays one when a candidate is taken out of the heap.
pub proof fn lemma_tree_after_drop<W: Semiring>(
    t: FstView<W>,
    heap0: Seq<Candidate<W>>,
    heap1: Seq<Candidate<W>>,
    emitted: int,
)
    requires
        is_search_tree(t, heap0, emitted),
        holds_all(heap0, heap1),
        heap1.len() <= heap0.len(),
    ensures
        is_search_tree(t, heap1, emitted),
{
}

/// The tree stays one when it gets a node for the candidate that was taken
/// out of the heap, and no candidate that is left is without parent.
pub proof fn lemma_tree_after_node<W: Semiring>(
    t0: FstView<W>,
    t1: FstView<W>,
    heap0: Seq<Candidate<W>>,
    heap1: Seq<Candidate<W>>,
    c: Candidate<W>,
    emitted: int,
)
    requires
        is_search_tree(t0, heap0, emitted),
        heap0.contains(c),
        holds_all(heap0, heap1),
        heap1.len() + 1 == heap0.len(),
        t1.states.len() == t0.states.len() + 1,
        forall|x: int, i: int|
            #[trigger] t0.has_tr(x, i) ==> t1.has_tr(x, i) && t1.tr(x, i) == t0.tr(x, i),
        forall|x: int|
            0 <= x < t0.states.len() ==> (#[trigger] t1.states[x]).final_weight
                == t0.states[x].final_weight,
        match c.parent {
            Some(k) => k < t0.states.len() && t1.start == t0.start && exists|i: int|
                t1.has_tr(k as int, i) && #[trigger] t1.tr(k as int, i).nextstate
                    == t0.states.len(),
            None => t1.start == Some(t0.states.len() as usize),
        },
        t0.graph_wf(),
        forall|x: int, i: int|
            #[trigger] t1.has_tr(x, i) ==> t0.has_tr(x, i) || (c.parent == Some(x as usize) && i
                == t0.states[x].trs.len() && t1.tr(x, i).nextstate == t0.states.len()),
    ensures
        is_search_tree(t1, heap1, emitted),
        forall|x: Candidate<W>| #[trigger] heap1.contains(x) ==> x.parent is Some,
{
    let node = t0.states.len() as int;
    assert(is_tree(t1)) by {
        assert forall|x: int, i: int| #[trigger] t1.has_tr(x, i) implies t1.start != Some(
            t1.tr(x, i).nextstate,
        ) by {
            if t0.has_tr(x, i) {
                assert(t1.tr(x, i) == t0.tr(x, i));
                assert(t0.tr(x, i).nextstate < t0.states.len());
            }
        }
        assert forall|x: int, i: int, y: int, j: int|
            #![trigger t1.tr(x, i), t1.tr(y, j)]
            t1.has_tr(x, i) && t1.has_tr(y, j) && t1.tr(x, i).nextstate == t1.tr(
                y,
                j,
            ).nextstate implies x == y && i == j by {
            if t0.has_tr(x, i) {
                assert(t1.tr(x, i) == t0.tr(x, i));
                assert(t0.tr(x, i).nextstate < t0.states.len());
            }
            if t0.has_tr(y, j) {
                assert(t1.tr(y, j) == t0.tr(y, j));
                assert(t0.tr(y, j).nextstate < t0.states.len());
            }
        }
    }
    assert forall|x: int| 1 <= x < t1.states.len() implies #[trigger] is_met_from_earlier(t1, x) by {
        if x < node {
            assert(is_met_from_earlier(t0, x));
            let (j, m) = choose|j: int, m: int|
                0 <= j < x && t0.has_tr(j, m) && #[trigger] t0.tr(j, m).nextstate == x;
            assert(t1.has_tr(j, m) && t1.tr(j, m).nextstate == x);
        } else {
            match c.parent {
                Some(k) => {
                    let i = choose|i: int|
                        t1.has_tr(k as int, i) && #[trigger] t1.tr(k as int, i).nextstate == node;
                    assert(t1.has_tr(k as int, i) && t1.tr(k as int, i).nextstate == x);
                },
                None => {},
            }
        }
    }
    assert forall|x: Candidate<W>| #[trigger] heap1.contains(x) implies x.parent is Some by {
        assert(heap0.contains(x));
        if x.parent is None {
            assert(t0.states.len() == 0);
            assert(heap0.len() <= 1);
            let k = choose|k: int| 0 <= k < heap1.len() && heap1[k] == x;
        }
    }
    if emitted >= 1 {
        let k = choose|k: int|
            0 <= k < t0.states.len() && (#[trigger] t0.states[k]).final_weight is Some;
        assert(t1.states[k].final_weight is Some);
    }
}

/// The tree stays one when a candidate with a parent is put into the heap.
pub proof fn lemma_tree_after_push<W: Semiring>(
    t: FstView<W>,
    heap: Seq<Candidate<W>>,
    c: Candidate<W>,
    emitted: int,
)
    requires
        is_search_tree(t, heap, emitted),
        t.states.len() > 0,
        c.parent is Some,
    ensures
        is_search_tree(t, heap.push(c), emitted),
{
    assert forall|x: Candidate<W>| #[trigger] heap.push(c).contains(x) && x.parent is None implies t.states.len() == 0 by {
        let k = choose|k: int| 0 <= k < heap.push(c).len() && heap.push(c)[k] == x;
        if k < heap.len() {
            assert(heap[k] == x);
            assert(heap.contains(x));
        }
    }
}

} // verus!
