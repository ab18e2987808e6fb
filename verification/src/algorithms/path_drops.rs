//! Why the paths that the search for the best paths leaves out are no
//! better than those it returns: a candidate is dropped only where its state
//! was left as often as a state may be left, by nodes that are all no worse;
//! and what holds of the nodes of a state then holds of the nodes of the
//! states that its transitions lead to.

use vstd::prelude::*;
use crate::algorithms::path_best::{is_ceiling, is_priced, node_priority};
use crate::algorithms::path_bound::no_worse;
use crate::algorithms::path_nodes::{has_child, is_for, is_like, waits_for};
use crate::algorithms::path_search::{holds_all, is_without, Candidate};
use crate::fst_view::FstView;
use crate::semirings::semiring::Semiring;
use crate::tr::{StateId, Tr};

verus! {

/// The nodes of the tree that stand for state `v`.
pub open spec fn nodes_at(h: Seq<StateId>, v: int) -> Set<int> {
    Set::new(|x: int| 0 <= x < h.len() && h[x] == v)
}

/// Whether each state has as many nodes as it was left often, which is not
/// more often than a state may be left.
pub open spec fn counts_nodes(h: Seq<StateId>, visits: Seq<usize>, n: int) -> bool {
    forall|v: int|
        0 <= v < visits.len() ==> (#[trigger] nodes_at(h, v)).finite() && nodes_at(h, v).len()
            == visits[v] && visits[v] <= n
}

/// The nodes are counted when the tree gets a node for a state.
pub proof fn lemma_counts_nodes_push(
    h: Seq<StateId>,
    visits: Seq<usize>,
    now: Seq<usize>,
    n: int,
    s: StateId,
)
    requires
        counts_nodes(h, visits, n),
        s < visits.len(),
        visits[s as int] < n,
        now.len() == visits.len(),
        now[s as int] == visits[s as int] + 1,
        forall|u: int| 0 <= u < visits.len() && u != s ==> #[trigger] now[u] == visits[u],
    ensures
        counts_nodes(h.push(s), now, n),
{
    let h1 = h.push(s);
    assert forall|v: int| 0 <= v < now.len() implies (#[trigger] nodes_at(h1, v)).finite()
        && nodes_at(h1, v).len() == now[v] && now[v] <= n by {
        assert(nodes_at(h, v).finite());
        if v == s {
            assert(nodes_at(h1, v) =~= nodes_at(h, v).insert(h.len() as int)) by {
                assert forall|x: int| nodes_at(h1, v).contains(x) == nodes_at(h, v).insert(
                    h.len() as int,
                ).contains(x) by {
                    if 0 <= x < h.len() {
                        assert(h1[x] == h[x]);
                    }
                }
            }
            assert(!nodes_at(h, v).contains(h.len() as int));
        } else {
            assert(nodes_at(h1, v) =~= nodes_at(h, v)) by {
                assert forall|x: int| nodes_at(h1, v).contains(x) == nodes_at(h, v).contains(
                    x,
                ) by {
                    if 0 <= x < h.len() {
                        assert(h1[x] == h[x]);
                    }
                }
            }
        }
    }
}

/// Whether the candidate that node `x` made for the transition `tr` was
/// dropped for good reason: the state that `tr` leads to was left as often
/// as a state may be left, and none of its nodes is worse than the
/// candidate.
pub open spec fn is_dominated<W: Semiring>(
    h: Seq<StateId>,
    cost: Seq<W>,
    dist: Seq<W>,
    visits: Seq<usize>,
    n: int,
    x: int,
    tr: Tr<W>,
) -> bool {
    &&& visits[tr.nextstate as int] >= n
    &&& forall|b: int|
        0 <= b < h.len() && h[b] == tr.nextstate ==> no_worse(
            #[trigger] node_priority(h, cost, dist, b),
            cost[x].times_spec(tr.weight).times_spec(dist[tr.nextstate + 1]),
        )
}

/// Whether the search keeps track of what it drops: each transition of
/// the state of each node has a child in the tree, or its candidate waits,
/// or its candidate was dropped for good reason. The transitions of node
/// `node` from the index `upto` on are left aside.
pub open spec fn tracks_drops<W: Semiring>(
    f: FstView<W>,
    t: FstView<W>,
    h: Seq<StateId>,
    heap: Seq<Candidate<W>>,
    visits: Seq<usize>,
    cost: Seq<W>,
    dist: Seq<W>,
    n: int,
    node: int,
    upto: int,
) -> bool {
    forall|x: int, i: int|
        0 <= x < h.len() && #[trigger] f.has_tr(h[x] as int, i) && (x != node || i < upto)
            ==> has_child(t, h, x, f.tr(h[x] as int, i)) || waits_for(
            heap,
            x,
            f.tr(h[x] as int, i),
        ) || is_dominated(h, cost, dist, visits, n, x, f.tr(h[x] as int, i))
}

/// Track of the drops is kept when a path is ended.
pub proof fn lemma_drops_final_pop<W: Semiring>(
    f: FstView<W>,
    t0: FstView<W>,
    t1: FstView<W>,
    h: Seq<StateId>,
    before: Seq<Candidate<W>>,
    after: Seq<Candidate<W>>,
    visits: Seq<usize>,
    cost: Seq<W>,
    dist: Seq<W>,
    n: int,
    c: Candidate<W>,
)
    requires
        tracks_drops(f, t0, h, before, visits, cost, dist, n, -1, 0),
        c.state is None,
        is_without(after, before, c),
        t1.states.len() == t0.states.len(),
        t0.states.len() == h.len(),
        forall|x: int| 0 <= x < t0.states.len() ==> (#[trigger] t1.states[x]).trs == t0.states[x].trs,
    ensures
        tracks_drops(f, t1, h, after, visits, cost, dist, n, -1, 0),
{
    assert forall|x: int, i: int|
        0 <= x < h.len() && #[trigger] f.has_tr(h[x] as int, i) implies has_child(
        t1,
        h,
        x,
        f.tr(h[x] as int, i),
    ) || waits_for(after, x, f.tr(h[x] as int, i)) || is_dominated(
        h,
        cost,
        dist,
        visits,
        n,
        x,
        f.tr(h[x] as int, i),
    ) by {
        let tr = f.tr(h[x] as int, i);
        if has_child(t0, h, x, tr) {
            let m = choose|m: int|
                t0.has_tr(x, m) && is_like(#[trigger] t0.tr(x, m), tr) && t0.tr(x, m).nextstate
                    < h.len() && h[t0.tr(x, m).nextstate as int] == tr.nextstate;
            assert(t1.states[x].trs == t0.states[x].trs);
            assert(t1.has_tr(x, m) && t1.tr(x, m) == t0.tr(x, m));
        } else if waits_for(before, x, tr) {
            let w = choose|w: Candidate<W>| #[trigger] before.contains(w) && is_for(w, x, tr);
            assert(after.contains(w));
        }
    }
}

/// Track of the drops is kept when a candidate is dropped that gets to a
/// state that was left as often as a state may be left, where no node is
/// worse than the candidate.
pub proof fn lemma_drops_drop<W: Semiring>(
    f: FstView<W>,
    t: FstView<W>,
    h: Seq<StateId>,
    before: Seq<Candidate<W>>,
    after: Seq<Candidate<W>>,
    visits: Seq<usize>,
    cost: Seq<W>,
    dist: Seq<W>,
    n: int,
    c: Candidate<W>,
    s: StateId,
)
    requires
        tracks_drops(f, t, h, before, visits, cost, dist, n, -1, 0),
        c.state == Some(s),
        s < visits.len(),
        visits[s as int] >= n,
        is_without(after, before, c),
        is_priced(cost, dist, c),
        is_ceiling(t, h, cost, dist, c.priority),
        h.len() <= usize::MAX,
    ensures
        tracks_drops(f, t, h, after, visits, cost, dist, n, -1, 0),
{
    assert forall|x: int, i: int|
        0 <= x < h.len() && #[trigger] f.has_tr(h[x] as int, i) implies has_child(
        t,
        h,
        x,
        f.tr(h[x] as int, i),
    ) || waits_for(after, x, f.tr(h[x] as int, i)) || is_dominated(
        h,
        cost,
        dist,
        visits,
        n,
        x,
        f.tr(h[x] as int, i),
    ) by {
        let tr = f.tr(h[x] as int, i);
        if !has_child(t, h, x, tr) && waits_for(before, x, tr) {
            let w = choose|w: Candidate<W>| #[trigger] before.contains(w) && is_for(w, x, tr);
            if w != c {
                assert(after.contains(w));
            } else {
                assert(c.priority == cost[x].times_spec(tr.weight).times_spec(
                    dist[tr.nextstate + 1],
                ));
                assert(is_dominated(h, cost, dist, visits, n, x, tr));
            }
        }
    }
}

/// Track of the drops is kept when the tree gets a node for the candidate
/// that was taken out of the heap, but for the transitions of the new node.
pub proof fn lemma_drops_expand<W: Semiring>(
    f: FstView<W>,
    t0: FstView<W>,
    t1: FstView<W>,
    h: Seq<StateId>,
    before: Seq<Candidate<W>>,
    after: Seq<Candidate<W>>,
    visits: Seq<usize>,
    now: Seq<usize>,
    cost: Seq<W>,
    dist: Seq<W>,
    n: int,
    c: Candidate<W>,
    s: StateId,
)
    requires
        tracks_drops(f, t0, h, before, visits, cost, dist, n, -1, 0),
        f.graph_wf(),
        c.state == Some(s),
        s < f.states.len(),
        visits.len() == f.states.len(),
        visits[s as int] < n,
        cost.len() == h.len(),
        t0.states.len() == h.len(),
        h.len() < usize::MAX,
        forall|x: int| 0 <= x < h.len() ==> (#[trigger] h[x]) < f.states.len(),
        is_without(after, before, c),
        now.len() == visits.len(),
        forall|u: int| 0 <= u < visits.len() ==> #[trigger] now[u] >= visits[u],
        t1.states.len() == t0.states.len() + 1,
        forall|x: int, i: int|
            #[trigger] t0.has_tr(x, i) ==> t1.has_tr(x, i) && t1.tr(x, i) == t0.tr(x, i),
        match c.parent {
            Some(k) => k < t0.states.len() && exists|i: int|
                t1.has_tr(k as int, i) && (#[trigger] t1.tr(k as int, i)).nextstate
                    == t0.states.len() && t1.tr(k as int, i).ilabel == c.ilabel && t1.tr(
                    k as int,
                    i,
                ).olabel == c.olabel && t1.tr(k as int, i).weight == c.weight,
            None => t0.states.len() == 0,
        },
    ensures
        tracks_drops(f, t1, h.push(s), after, now, cost.push(c.cost), dist, n, h.len() as int, 0),
{
    let h1 = h.push(s);
    let cost1 = cost.push(c.cost);
    let node = h.len() as int;
    assert forall|x: int, i: int|
        0 <= x < h1.len() && #[trigger] f.has_tr(h1[x] as int, i) && (x != node || i < 0) implies has_child(
        t1,
        h1,
        x,
        f.tr(h1[x] as int, i),
    ) || waits_for(after, x, f.tr(h1[x] as int, i)) || is_dominated(
        h1,
        cost1,
        dist,
        now,
        n,
        x,
        f.tr(h1[x] as int, i),
    ) by {
        assert(x < node);
        assert(h1[x] == h[x]);
        let tr = f.tr(h[x] as int, i);
        assert(0 <= tr.nextstate < f.states.len());
        if has_child(t0, h, x, tr) {
            let m = choose|m: int|
                t0.has_tr(x, m) && is_like(#[trigger] t0.tr(x, m), tr) && t0.tr(x, m).nextstate
                    < h.len() && h[t0.tr(x, m).nextstate as int] == tr.nextstate;
            assert(t1.has_tr(x, m) && t1.tr(x, m) == t0.tr(x, m));
            assert(h1[t0.tr(x, m).nextstate as int] == h[t0.tr(x, m).nextstate as int]);
        } else if waits_for(before, x, tr) {
            let w = choose|w: Candidate<W>| #[trigger] before.contains(w) && is_for(w, x, tr);
            if w != c {
                assert(after.contains(w));
            } else {
                let k = c.parent->0;
                let m = choose|m: int|
                    t1.has_tr(k as int, m) && (#[trigger] t1.tr(k as int, m)).nextstate
                        == t0.states.len() && t1.tr(k as int, m).ilabel == c.ilabel && t1.tr(
                        k as int,
                        m,
                    ).olabel == c.olabel && t1.tr(k as int, m).weight == c.weight;
                assert(h1[node] == s);
                assert(is_like(t1.tr(x, m), tr));
                assert(has_child(t1, h1, x, tr));
            }
        } else {
            assert(is_dominated(h, cost, dist, visits, n, x, tr));
            assert(tr.nextstate != s);
            assert(cost1[x] == cost[x]);
            assert forall|b: int| 0 <= b < h1.len() && h1[b] == tr.nextstate implies no_worse(
                #[trigger] node_priority(h1, cost1, dist, b),
                cost1[x].times_spec(tr.weight).times_spec(dist[tr.nextstate + 1]),
            ) by {
                assert(b < node);
                assert(h1[b] == h[b]);
                assert(node_priority(h1, cost1, dist, b) == node_priority(h, cost, dist, b));
            }
        }
    }
}

/// One more transition of the new node has its candidate.
pub proof fn lemma_drops_push_child<W: Semiring>(
    f: FstView<W>,
    t: FstView<W>,
    h: Seq<StateId>,
    before: Seq<Candidate<W>>,
    after: Seq<Candidate<W>>,
    visits: Seq<usize>,
    cost: Seq<W>,
    dist: Seq<W>,
    n: int,
    node: int,
    i: int,
    c: Candidate<W>,
)
    requires
        tracks_drops(f, t, h, before, visits, cost, dist, n, node, i),
        0 <= node < h.len(),
        f.has_tr(h[node] as int, i),
        holds_all(after, before),
        after.contains(c),
        is_for(c, node, f.tr(h[node] as int, i)),
    ensures
        tracks_drops(f, t, h, after, visits, cost, dist, n, node, i + 1),
{
    assert forall|x: int, j: int|
        0 <= x < h.len() && #[trigger] f.has_tr(h[x] as int, j) && (x != node || j < i + 1) implies has_child(
        t,
        h,
        x,
        f.tr(h[x] as int, j),
    ) || waits_for(after, x, f.tr(h[x] as int, j)) || is_dominated(
        h,
        cost,
        dist,
        visits,
        n,
        x,
        f.tr(h[x] as int, j),
    ) by {
        let tr = f.tr(h[x] as int, j);
        if x == node && j == i {
            assert(waits_for(after, x, tr));
        } else if !has_child(t, h, x, tr) && waits_for(before, x, tr) {
            let w = choose|w: Candidate<W>| #[trigger] before.contains(w) && is_for(w, x, tr);
            assert(after.contains(w));
        }
    }
}

} // verus!
