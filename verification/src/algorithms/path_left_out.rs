//! When the search for the best paths has ended with as many paths as were
//! asked for, each successful path of the transducer has its like in the
//! tree, or is no better than each path that was ended in the tree.

use vstd::prelude::*;
use vstd::relations::injective_on;
use vstd::set_lib::{lemma_len_subset, lemma_map_size, lemma_subset_equality};
use crate::algorithms::path_best::{is_ceiling, is_priced, keeps_prices, node_priority};
use crate::algorithms::path_bound::{
    is_consistent, lemma_distance_is_admissible, lemma_no_worse_refl, lemma_no_worse_trans,
    lemma_only_zero_is_worst, lemma_times_keeps_order_left, lemma_times_keeps_order_right,
    lemma_zero_is_worst, no_worse, total_weight,
};
use crate::algorithms::path_drops::{counts_nodes, is_dominated, nodes_at, tracks_drops};
use crate::algorithms::path_nodes::{
    has_child, is_for, is_like, tracks_nodes, waits_for, waits_to_end,
};
use crate::algorithms::path_search::{is_tree, Candidate};
use crate::algorithms::shortest_path::count_final_states;
use crate::fst_view::{FstView, StateView, Step};
use crate::pair_weight::final_weight_or_zero;
use crate::semirings::semiring::{has_path_property, Semiring};
use crate::tr::{StateId, Tr};

verus! {

/// The final states among `states`.
pub open spec fn finals<W: Semiring>(states: Seq<StateView<W>>) -> Set<int> {
    Set::new(|k: int| 0 <= k < states.len() && states[k].final_weight is Some)
}

/// There are as many final states as are counted.
pub proof fn lemma_finals_len<W: Semiring>(states: Seq<StateView<W>>)
    ensures
        finals(states).finite(),
        finals(states).len() == count_final_states(states),
    decreases states.len(),
{
    if states.len() == 0 {
        assert(finals(states) =~= Set::<int>::empty());
    } else {
        let front = states.drop_last();
        lemma_finals_len(front);
        assert forall|k: int| 0 <= k < front.len() implies front[k] == states[k] by {}
        if states.last().final_weight is Some {
            assert(finals(states) =~= finals(front).insert(states.len() - 1));
        } else {
            assert(finals(states) =~= finals(front));
        }
    }
}

/// Whether no path that was ended in the tree is worse than `bound`.
pub open spec fn is_bound<W: Semiring>(t: FstView<W>, cost: Seq<W>, bound: W) -> bool {
    forall|k: int|
        0 <= k < t.states.len() && (#[trigger] t.states[k]).final_weight is Some ==> no_worse(
            cost[k].times_spec(t.states[k].final_weight->0),
            bound,
        )
}

/// What holds when the search has ended as many paths as were asked for.
pub open spec fn is_full_search<W: Semiring>(
    f: FstView<W>,
    t: FstView<W>,
    h: Seq<StateId>,
    heap: Seq<Candidate<W>>,
    visits: Seq<usize>,
    cost: Seq<W>,
    dist: Seq<W>,
    n: int,
) -> bool {
    &&& has_path_property::<W>()
    &&& W::cancels()
    &&& n > 0
    &&& f.graph_wf()
    &&& t.graph_wf()
    &&& is_tree(t)
    &&& is_consistent(f, dist)
    &&& tracks_nodes(f, t, h, heap, visits, n, -1, 0)
    &&& tracks_drops(f, t, h, heap, visits, cost, dist, n, -1, 0)
    &&& keeps_prices(t, h, cost, dist, heap)
    &&& counts_nodes(h, visits, n)
    &&& count_final_states(t.states) == n
    &&& forall|k: int|
        0 <= k < t.states.len() && (#[trigger] t.states[k]).final_weight is Some
            ==> f.states[h[k] as int].final_weight == t.states[k].final_weight
    &&& forall|c: Candidate<W>|
        #[trigger] heap.contains(c) && c.state is None ==> (c.parent matches Some(k) && k < h.len()
            && f.states[h[k as int] as int].final_weight == Some(c.weight))
}

/// The weight of a path is the weight of its first transition times the
/// weight of the rest, and so with a factor in front.
proof fn lemma_total_weight_step<W: Semiring>(f: FstView<W>, p: Seq<Step>, to: int, c: W)
    requires
        p.len() > 0,
    ensures
        c.times_spec(total_weight(f, p, to)) == c.times_spec(
            f.tr(p[0].0, p[0].1).weight,
        ).times_spec(total_weight(f, p.drop_first(), to)),
{
    let w = f.tr(p[0].0, p[0].1).weight;
    let rest = f.path_weight(p.drop_first());
    let rho = final_weight_or_zero(f, to);
    W::lemma_times_associative(w, rest, rho);
    W::lemma_times_associative(c, w, rest.times_spec(rho));
}

/// A price that is made of no worse factors is no worse.
proof fn lemma_price_is_no_worse<W: Semiring>(a: W, b: W, d: W, rest: W)
    requires
        no_worse(a, b),
        no_worse(d, rest),
    ensures
        no_worse(a.times_spec(d), b.times_spec(rest)),
{
    lemma_times_keeps_order_left(a, d, rest);
    lemma_times_keeps_order_right(rest, a, b);
    lemma_no_worse_trans(a.times_spec(d), a.times_spec(rest), b.times_spec(rest));
}

/// What is no better than a price that is no better than the paths that
/// were ended is no better than they are.
proof fn lemma_bound_from_ceiling<W: Semiring>(
    t: FstView<W>,
    h: Seq<StateId>,
    cost: Seq<W>,
    dist: Seq<W>,
    base: W,
    bound: W,
)
    requires
        t.states.len() == h.len(),
        is_ceiling(t, h, cost, dist, base),
        no_worse(base, bound),
    ensures
        is_bound(t, cost, bound),
{
    assert forall|k: int|
        0 <= k < t.states.len() && (#[trigger] t.states[k]).final_weight is Some implies no_worse(
        cost[k].times_spec(t.states[k].final_weight->0),
        bound,
    ) by {
        lemma_no_worse_trans(cost[k].times_spec(t.states[k].final_weight->0), base, bound);
    }
}

/// Nothing is worse than `0̄`.
proof fn lemma_zero_bound<W: Semiring>(t: FstView<W>, cost: Seq<W>)
    ensures
        is_bound(t, cost, W::zero_spec()),
{
    assert forall|k: int|
        0 <= k < t.states.len() && (#[trigger] t.states[k]).final_weight is Some implies no_worse(
        cost[k].times_spec(t.states[k].final_weight->0),
        W::zero_spec(),
    ) by {
        lemma_zero_is_worst(cost[k].times_spec(t.states[k].final_weight->0));
    }
}

/// Where a candidate was dropped for good reason, its price is `0̄`, or
/// each node of the state that it gets to costs no more than it.
proof fn lemma_dominated_nodes<W: Semiring>(
    h: Seq<StateId>,
    cost: Seq<W>,
    dist: Seq<W>,
    visits: Seq<usize>,
    n: int,
    a: int,
    tr: Tr<W>,
    step: W,
)
    requires
        W::cancels(),
        is_dominated(h, cost, dist, visits, n, a, tr),
        no_worse(cost[a].times_spec(tr.weight), step),
    ensures
        step.times_spec(dist[tr.nextstate + 1]) == W::zero_spec() || forall|b: int|
            0 <= b < h.len() && h[b] == tr.nextstate ==> no_worse(#[trigger] cost[b], step),
{
    let d = dist[tr.nextstate + 1];
    let price = cost[a].times_spec(tr.weight).times_spec(d);
    lemma_times_keeps_order_right(d, cost[a].times_spec(tr.weight), step);
    if step.times_spec(d) != W::zero_spec() {
        assert forall|b: int| 0 <= b < h.len() && h[b] == tr.nextstate implies no_worse(
            #[trigger] cost[b],
            step,
        ) by {
            assert(no_worse(node_priority(h, cost, dist, b), price));
            lemma_no_worse_trans(cost[b].times_spec(d), price, step.times_spec(d));
            if cost[b].times_spec(d) == W::zero_spec() {
                lemma_only_zero_is_worst(step.times_spec(d));
            }
            W::lemma_cancel(cost[b], step, d);
        }
    }
}

/// The transition of node `a` that is like `tr`.
pub open spec fn edge_to_child<W: Semiring>(t: FstView<W>, h: Seq<StateId>, a: int, tr: Tr<W>) -> int {
    choose|m: int|
        t.has_tr(a, m) && is_like(#[trigger] t.tr(a, m), tr) && t.tr(a, m).nextstate < h.len()
            && h[t.tr(a, m).nextstate as int] == tr.nextstate
}

/// The child of node `a` that the transition like `tr` leads to.
pub open spec fn child_of<W: Semiring>(t: FstView<W>, h: Seq<StateId>, a: int, tr: Tr<W>) -> int {
    t.tr(a, edge_to_child(t, h, a, tr)).nextstate as int
}

/// Where a state was left as often as a state may be left, by nodes that
/// cost no more than `c`, no path that was ended is worse than `c` times
/// the weight of a path from that state to a final state.
pub proof fn lemma_nodes_bound<W: Semiring>(
    f: FstView<W>,
    t: FstView<W>,
    h: Seq<StateId>,
    heap: Seq<Candidate<W>>,
    visits: Seq<usize>,
    cost: Seq<W>,
    dist: Seq<W>,
    n: int,
    v: int,
    c: W,
    p: Seq<Step>,
    to: int,
)
    requires
        is_full_search(f, t, h, heap, visits, cost, dist, n),
        0 <= v < f.states.len(),
        visits[v] >= n,
        forall|a: int| 0 <= a < h.len() && h[a] == v ==> no_worse(#[trigger] cost[a], c),
        f.is_path(v, p, to),
        f.is_final(to),
    ensures
        is_bound(t, cost, c.times_spec(total_weight(f, p, to))),
    decreases p.len(),
{
    let nodes = nodes_at(h, v);
    assert(nodes.finite() && nodes.len() == n);
    if p.len() == 0 {
        let rho = f.states[to].final_weight->0;
        W::lemma_times_one(rho);
        assert(total_weight(f, p, to) == rho);
        if exists|a: int| nodes.contains(a) && t.states[a].final_weight is None {
            let a = choose|a: int| nodes.contains(a) && t.states[a].final_weight is None;
            assert(f.is_final(h[a] as int));
            assert(waits_to_end(heap, a));
            let x = choose|x: Candidate<W>|
                #[trigger] heap.contains(x) && x.state is None && x.parent == Some(a as usize);
            assert(is_priced(cost, dist, x));
            assert(is_ceiling(t, h, cost, dist, x.priority));
            assert(x.priority == cost[a].times_spec(rho));
            lemma_times_keeps_order_right(rho, cost[a], c);
            lemma_bound_from_ceiling(t, h, cost, dist, x.priority, c.times_spec(rho));
        } else {
            let fin = finals(t.states);
            lemma_finals_len(t.states);
            assert(nodes.subset_of(fin));
            lemma_subset_equality(nodes, fin);
            assert forall|k: int|
                0 <= k < t.states.len() && (#[trigger] t.states[k]).final_weight is Some implies no_worse(
                cost[k].times_spec(t.states[k].final_weight->0),
                c.times_spec(rho),
            ) by {
                assert(fin.contains(k));
                assert(nodes.contains(k));
                lemma_times_keeps_order_right(rho, cost[k], c);
            }
        }
    } else {
        let i = p[0].1;
        let tr = f.tr(v, i);
        let next = tr.nextstate as int;
        let rest = p.drop_first();
        let step = c.times_spec(tr.weight);
        let d = dist[next + 1];
        lemma_total_weight_step(f, p, to, c);
        lemma_distance_is_admissible(f, dist, next, rest, to);
        assert(0 <= next < f.states.len());
        if exists|a: int| nodes.contains(a) && !has_child(t, h, a, tr) {
            let a = choose|a: int| nodes.contains(a) && !has_child(t, h, a, tr);
            assert(f.has_tr(h[a] as int, i));
            lemma_times_keeps_order_right(tr.weight, cost[a], c);
            if waits_for(heap, a, tr) {
                let x = choose|x: Candidate<W>| #[trigger] heap.contains(x) && is_for(x, a, tr);
                assert(is_priced(cost, dist, x));
                assert(is_ceiling(t, h, cost, dist, x.priority));
                assert(x.priority == cost[a].times_spec(tr.weight).times_spec(d));
                lemma_price_is_no_worse(
                    cost[a].times_spec(tr.weight),
                    step,
                    d,
                    total_weight(f, rest, to),
                );
                lemma_bound_from_ceiling(
                    t,
                    h,
                    cost,
                    dist,
                    x.priority,
                    step.times_spec(total_weight(f, rest, to)),
                );
            } else {
                assert(is_dominated(h, cost, dist, visits, n, a, tr));
                lemma_dominated_nodes(h, cost, dist, visits, n, a, tr, step);
                if step.times_spec(d) == W::zero_spec() {
                    lemma_times_keeps_order_left(step, d, total_weight(f, rest, to));
                    lemma_only_zero_is_worst(step.times_spec(total_weight(f, rest, to)));
                    lemma_zero_bound(t, cost);
                } else {
                    lemma_nodes_bound(f, t, h, heap, visits, cost, dist, n, next, step, rest, to);
                }
            }
        } else {
            let kid = |a: int| child_of(t, h, a, tr);
            let kids = nodes.map(kid);
            let there = nodes_at(h, next);
            assert forall|a: int| nodes.contains(a) implies {
                let m = edge_to_child(t, h, a, tr);
                t.has_tr(a, m) && is_like(t.tr(a, m), tr) && t.tr(a, m).nextstate < h.len()
                    && h[t.tr(a, m).nextstate as int] == tr.nextstate
            } by {
                assert(has_child(t, h, a, tr));
            }
            assert(injective_on(kid, nodes)) by {
                assert forall|a1: int, a2: int|
                    nodes.contains(a1) && nodes.contains(a2) && #[trigger] kid(a1)
                        == #[trigger] kid(a2) implies a1 == a2 by {
                    let m1 = edge_to_child(t, h, a1, tr);
                    let m2 = edge_to_child(t, h, a2, tr);
                    assert(t.tr(a1, m1).nextstate == t.tr(a2, m2).nextstate);
                }
            }
            lemma_map_size(nodes, kids, kid);
            assert(there.finite() && there.len() == visits[next] && visits[next] <= n);
            assert(kids.subset_of(there)) by {
                assert forall|b: int| kids.contains(b) implies there.contains(b) by {
                    let a = choose|a: int| nodes.contains(a) && b == kid(a);
                    assert(nodes.contains(a));
                }
            }
            lemma_len_subset(kids, there);
            lemma_subset_equality(kids, there);
            assert forall|b: int| 0 <= b < h.len() && h[b] == next implies no_worse(
                #[trigger] cost[b],
                step,
            ) by {
                assert(there.contains(b));
                assert(kids.contains(b));
                let a = choose|a: int| nodes.contains(a) && b == kid(a);
                let m = edge_to_child(t, h, a, tr);
                assert(t.has_tr(a, m));
                assert(cost[b] == cost[a].times_spec(tr.weight));
                lemma_times_keeps_order_right(tr.weight, cost[a], c);
            }
            lemma_nodes_bound(f, t, h, heap, visits, cost, dist, n, next, step, rest, to);
        }
    }
}

/// A path of the transducer from the state of a node to a final state has
/// its like from that node in the tree, which ends in a final node, or no
/// path that was ended is worse than what the node costs times the weight
/// of the path.
pub proof fn lemma_follow<W: Semiring>(
    f: FstView<W>,
    t: FstView<W>,
    h: Seq<StateId>,
    heap: Seq<Candidate<W>>,
    visits: Seq<usize>,
    cost: Seq<W>,
    dist: Seq<W>,
    n: int,
    x: int,
    p: Seq<Step>,
    to: int,
) -> (r: (bool, Seq<Step>, int))
    requires
        is_full_search(f, t, h, heap, visits, cost, dist, n),
        0 <= x < h.len(),
        f.is_path(h[x] as int, p, to),
        f.is_final(to),
    ensures
        r.0 ==> t.is_path(x, r.1, r.2) && r.1.len() == p.len() && 0 <= r.2 < h.len() && h[r.2] == to
            && t.states[r.2].final_weight is Some && t.path_ilabels(r.1) == f.path_ilabels(p)
            && t.path_olabels(r.1) == f.path_olabels(p) && t.path_weight(r.1) == f.path_weight(p),
        !r.0 ==> is_bound(t, cost, cost[x].times_spec(total_weight(f, p, to))),
    decreases p.len(),
{
    let v = h[x] as int;
    if p.len() == 0 {
        let q = Seq::<Step>::empty();
        assert(t.path_ilabels(q) =~= f.path_ilabels(p));
        assert(t.path_olabels(q) =~= f.path_olabels(p));
        if t.states[x].final_weight is Some {
            (true, q, x)
        } else {
            let rho = f.states[to].final_weight->0;
            W::lemma_times_one(rho);
            assert(waits_to_end(heap, x));
            let w = choose|w: Candidate<W>|
                #[trigger] heap.contains(w) && w.state is None && w.parent == Some(x as usize);
            assert(is_priced(cost, dist, w));
            assert(is_ceiling(t, h, cost, dist, w.priority));
            assert(w.priority == cost[x].times_spec(rho));
            lemma_no_worse_refl(w.priority);
            lemma_bound_from_ceiling(t, h, cost, dist, w.priority, cost[x].times_spec(rho));
            (false, q, x)
        }
    } else {
        let i = p[0].1;
        let tr = f.tr(v, i);
        let next = tr.nextstate as int;
        let rest = p.drop_first();
        let step = cost[x].times_spec(tr.weight);
        let d = dist[next + 1];
        assert(f.has_tr(v, i));
        assert(0 <= next < f.states.len());
        lemma_total_weight_step(f, p, to, cost[x]);
        lemma_distance_is_admissible(f, dist, next, rest, to);
        lemma_no_worse_refl(step);
        if has_child(t, h, x, tr) {
            let m = edge_to_child(t, h, x, tr);
            let y = t.tr(x, m).nextstate as int;
            assert(cost[y] == step);
            let (found, tail, end) = lemma_follow(f, t, h, heap, visits, cost, dist, n, y, rest, to);
            let q = seq![(x, m)] + tail;
            if found {
                assert(q[0] == (x, m));
                assert(p[0].0 == v);
                assert(q.drop_first() =~= tail);
                assert(t.is_path(x, q, end));
                assert(t.path_ilabels(q) =~= f.path_ilabels(p)) by {
                    assert forall|j: int| 0 <= j < q.len() implies t.path_ilabels(q)[j]
                        == f.path_ilabels(p)[j] by {
                        if j > 0 {
                            assert(q[j] == tail[j - 1]);
                            assert(t.path_ilabels(tail)[j - 1] == f.path_ilabels(rest)[j - 1]);
                            assert(rest[j - 1] == p[j]);
                        }
                    }
                }
                assert(t.path_olabels(q) =~= f.path_olabels(p)) by {
                    assert forall|j: int| 0 <= j < q.len() implies t.path_olabels(q)[j]
                        == f.path_olabels(p)[j] by {
                        if j > 0 {
                            assert(q[j] == tail[j - 1]);
                            assert(t.path_olabels(tail)[j - 1] == f.path_olabels(rest)[j - 1]);
                            assert(rest[j - 1] == p[j]);
                        }
                    }
                }
            }
            (found, q, end)
        } else if waits_for(heap, x, tr) {
            let w = choose|w: Candidate<W>| #[trigger] heap.contains(w) && is_for(w, x, tr);
            assert(is_priced(cost, dist, w));
            assert(is_ceiling(t, h, cost, dist, w.priority));
            assert(w.priority == step.times_spec(d));
            lemma_price_is_no_worse(step, step, d, total_weight(f, rest, to));
            lemma_bound_from_ceiling(
                t,
                h,
                cost,
                dist,
                w.priority,
                step.times_spec(total_weight(f, rest, to)),
            );
            (false, p, x)
        } else {
            assert(is_dominated(h, cost, dist, visits, n, x, tr));
            lemma_dominated_nodes(h, cost, dist, visits, n, x, tr, step);
            if step.times_spec(d) == W::zero_spec() {
                lemma_times_keeps_order_left(step, d, total_weight(f, rest, to));
                lemma_only_zero_is_worst(step.times_spec(total_weight(f, rest, to)));
                lemma_zero_bound(t, cost);
            } else {
                lemma_nodes_bound(f, t, h, heap, visits, cost, dist, n, next, step, rest, to);
            }
            (false, p, x)
        }
    }
}

/// In a tree each node costs what the node costs from which a path leads to
/// it, times the weight of the path.
pub proof fn lemma_tree_path_cost<W: Semiring>(
    t: FstView<W>,
    cost: Seq<W>,
    x: int,
    q: Seq<Step>,
    k: int,
)
    requires
        t.graph_wf(),
        forall|a: int, m: int|
            #[trigger] t.has_tr(a, m) ==> cost[t.tr(a, m).nextstate as int] == cost[a].times_spec(
                t.tr(a, m).weight,
            ),
        t.is_path(x, q, k),
    ensures
        cost[k] == cost[x].times_spec(t.path_weight(q)),
    decreases q.len(),
{
    if q.len() == 0 {
        W::lemma_times_one(cost[x]);
    } else {
        let tr = t.tr(q[0].0, q[0].1);
        lemma_tree_path_cost(t, cost, tr.nextstate as int, q.drop_first(), k);
        W::lemma_times_associative(cost[x], tr.weight, t.path_weight(q.drop_first()));
    }
}

} // verus!
