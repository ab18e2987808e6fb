//! What the search for the best paths knows of weights: what each node of
//! its tree costs, that no candidate in the heap is better than a node or
//! than a path that was ended, and that a candidate is dropped only where
//! every node of its state is no worse.

use vstd::prelude::*;
use crate::algorithms::path_bound::{
    is_consistent, lemma_no_worse_refl, lemma_no_worse_trans, lemma_times_keeps_order_left,
    no_worse,
};
use crate::algorithms::path_search::{holds_all, Candidate};
use crate::fst_view::FstView;
use crate::semirings::semiring::{has_path_property, Semiring};
use crate::tr::StateId;

verus! {

/// The priority of a node of the tree: what it costs times the distance of
/// its state to the final states.
pub open spec fn node_priority<W: Semiring>(
    h: Seq<StateId>,
    cost: Seq<W>,
    dist: Seq<W>,
    a: int,
) -> W {
    cost[a].times_spec(dist[h[a] + 1])
}

/// Whether the candidate has the cost and the priority that belong to it:
/// it costs what its parent costs times the weight of its step, and its
/// priority is its cost times the distance of its state, or its cost where
/// it ends a path.
pub open spec fn is_priced<W: Semiring>(cost: Seq<W>, dist: Seq<W>, c: Candidate<W>) -> bool {
    &&& match c.parent {
        Some(k) => k < cost.len() && c.cost == cost[k as int].times_spec(c.weight),
        None => c.cost == W::one_spec() && c.state is Some,
    }
    &&& match c.state {
        Some(s) => s + 1 < dist.len() && c.priority == c.cost.times_spec(dist[s + 1]),
        None => c.priority == c.cost,
    }
}

/// Whether no candidate in the heap is better than `base`.
pub open spec fn is_floor<W: Semiring>(heap: Seq<Candidate<W>>, base: W) -> bool {
    forall|x: Candidate<W>| #[trigger] heap.contains(x) ==> no_worse(base, x.priority)
}

/// Whether `base` is no better than a node of the tree or a path that was
/// ended in it.
pub open spec fn is_ceiling<W: Semiring>(
    t: FstView<W>,
    h: Seq<StateId>,
    cost: Seq<W>,
    dist: Seq<W>,
    base: W,
) -> bool {
    &&& forall|a: int| 0 <= a < h.len() ==> no_worse(#[trigger] node_priority(h, cost, dist, a), base)
    &&& forall|k: int|
        0 <= k < h.len() && (#[trigger] t.states[k]).final_weight is Some ==> no_worse(
            cost[k].times_spec(t.states[k].final_weight->0),
            base,
        )
}

/// Whether the search keeps its prices: each node has a cost, which is `1̄`
/// for the first node and that of its parent times the weight of the
/// transition that leads to it for each other node; each candidate is
/// priced; and no candidate is better than a node or than a path that was
/// ended.
pub open spec fn keeps_prices<W: Semiring>(
    t: FstView<W>,
    h: Seq<StateId>,
    cost: Seq<W>,
    dist: Seq<W>,
    heap: Seq<Candidate<W>>,
) -> bool {
    &&& cost.len() == h.len()
    &&& t.states.len() == h.len()
    &&& forall|a: int| 0 <= a < h.len() ==> (#[trigger] h[a]) + 1 < dist.len()
    &&& h.len() > 0 ==> cost[0] == W::one_spec()
    &&& forall|x: int, m: int|
        #[trigger] t.has_tr(x, m) ==> cost[t.tr(x, m).nextstate as int] == cost[x].times_spec(
            t.tr(x, m).weight,
        )
    &&& forall|c: Candidate<W>| #[trigger] heap.contains(c) ==> is_priced(cost, dist, c)
    &&& forall|c: Candidate<W>|
        #[trigger] heap.contains(c) ==> is_ceiling(t, h, cost, dist, c.priority)
}

/// The prices are kept when a path is ended in a node with the best
/// candidate.
pub proof fn lemma_prices_final_pop<W: Semiring>(
    t0: FstView<W>,
    t1: FstView<W>,
    h: Seq<StateId>,
    cost: Seq<W>,
    dist: Seq<W>,
    before: Seq<Candidate<W>>,
    after: Seq<Candidate<W>>,
    c: Candidate<W>,
    k: int,
)
    requires
        keeps_prices(t0, h, cost, dist, before),
        before.contains(c),
        c.state is None,
        c.parent == Some(k as usize),
        0 <= k < h.len(),
        h.len() <= usize::MAX,
        holds_all(before, after),
        is_floor(after, c.priority),
        t1.states.len() == t0.states.len(),
        forall|x: int| 0 <= x < t0.states.len() ==> (#[trigger] t1.states[x]).trs == t0.states[x].trs,
        forall|x: int|
            0 <= x < t0.states.len() && x != k ==> (#[trigger] t1.states[x]).final_weight
                == t0.states[x].final_weight,
        t1.states[k].final_weight == Some(c.weight),
    ensures
        keeps_prices(t1, h, cost, dist, after),
{
    assert forall|x: int, m: int| #[trigger] t1.has_tr(x, m) implies cost[t1.tr(
        x,
        m,
    ).nextstate as int] == cost[x].times_spec(t1.tr(x, m).weight) by {
        assert(t1.states[x].trs == t0.states[x].trs);
        assert(t0.has_tr(x, m));
    }
    assert forall|y: Candidate<W>| #[trigger] after.contains(y) implies is_priced(cost, dist, y)
        && is_ceiling(t1, h, cost, dist, y.priority) by {
        assert(before.contains(y));
        assert(is_ceiling(t0, h, cost, dist, y.priority));
        assert forall|j: int|
            0 <= j < h.len() && (#[trigger] t1.states[j]).final_weight is Some implies no_worse(
            cost[j].times_spec(t1.states[j].final_weight->0),
            y.priority,
        ) by {
            if j != k {
                assert(t0.states[j].final_weight is Some);
            }
        }
    }
}

/// The prices are kept when candidates are taken out of the heap.
pub proof fn lemma_prices_drop<W: Semiring>(
    t: FstView<W>,
    h: Seq<StateId>,
    cost: Seq<W>,
    dist: Seq<W>,
    before: Seq<Candidate<W>>,
    after: Seq<Candidate<W>>,
)
    requires
        keeps_prices(t, h, cost, dist, before),
        holds_all(before, after),
    ensures
        keeps_prices(t, h, cost, dist, after),
{
    assert forall|y: Candidate<W>| #[trigger] after.contains(y) implies is_priced(cost, dist, y)
        && is_ceiling(t, h, cost, dist, y.priority) by {
        assert(before.contains(y));
    }
}

/// The prices are kept when the tree gets a node for the best candidate,
/// which costs what the candidate costs; and no node and no path that was
/// ended is better than the priority of that candidate.
pub proof fn lemma_prices_expand<W: Semiring>(
    t0: FstView<W>,
    t1: FstView<W>,
    h: Seq<StateId>,
    cost: Seq<W>,
    dist: Seq<W>,
    before: Seq<Candidate<W>>,
    after: Seq<Candidate<W>>,
    c: Candidate<W>,
    s: StateId,
)
    requires
        keeps_prices(t0, h, cost, dist, before),
        has_path_property::<W>(),
        t0.graph_wf(),
        before.contains(c),
        c.state == Some(s),
        holds_all(before, after),
        is_floor(after, c.priority),
        t1.states.len() == t0.states.len() + 1,
        forall|x: int, i: int|
            #[trigger] t0.has_tr(x, i) ==> t1.has_tr(x, i) && t1.tr(x, i) == t0.tr(x, i),
        forall|x: int, i: int|
            #[trigger] t1.has_tr(x, i) ==> t0.has_tr(x, i) || (c.parent == Some(x as usize)
                && t1.tr(x, i).nextstate == t0.states.len() && t1.tr(x, i).weight == c.weight),
        forall|x: int|
            0 <= x < t0.states.len() ==> (#[trigger] t1.states[x]).final_weight
                == t0.states[x].final_weight,
        t1.states[t0.states.len() as int].final_weight is None,
        c.parent is None ==> t0.states.len() == 0,
    ensures
        keeps_prices(t1, h.push(s), cost.push(c.cost), dist, after),
        is_ceiling(t1, h.push(s), cost.push(c.cost), dist, c.priority),
{
    let h1 = h.push(s);
    let cost1 = cost.push(c.cost);
    let node = h.len() as int;
    assert(is_priced(cost, dist, c));
    assert(is_ceiling(t0, h, cost, dist, c.priority));
    assert forall|a: int| 0 <= a < h1.len() implies (#[trigger] h1[a]) + 1 < dist.len() by {
        if a < node {
            assert(h1[a] == h[a]);
        }
    }
    assert forall|x: int, m: int| #[trigger] t1.has_tr(x, m) implies cost1[t1.tr(
        x,
        m,
    ).nextstate as int] == cost1[x].times_spec(t1.tr(x, m).weight) by {
        if t0.has_tr(x, m) {
            assert(t1.tr(x, m) == t0.tr(x, m));
            assert(t0.tr(x, m).nextstate < t0.states.len());
        }
    }
    assert(is_ceiling(t1, h1, cost1, dist, c.priority)) by {
        assert forall|a: int| 0 <= a < h1.len() implies no_worse(
            #[trigger] node_priority(h1, cost1, dist, a),
            c.priority,
        ) by {
            if a < node {
                assert(node_priority(h1, cost1, dist, a) == node_priority(h, cost, dist, a));
            } else {
                lemma_no_worse_refl(c.priority);
            }
        }
        assert forall|k: int|
            0 <= k < h1.len() && (#[trigger] t1.states[k]).final_weight is Some implies no_worse(
            cost1[k].times_spec(t1.states[k].final_weight->0),
            c.priority,
        ) by {
            assert(k < node);
            assert(t0.states[k].final_weight is Some);
        }
    }
    assert forall|y: Candidate<W>| #[trigger] after.contains(y) implies is_priced(cost1, dist, y)
        && is_ceiling(t1, h1, cost1, dist, y.priority) by {
        assert(before.contains(y));
        assert(is_priced(cost, dist, y));
        assert(is_ceiling(t0, h, cost, dist, y.priority));
        assert forall|a: int| 0 <= a < h1.len() implies no_worse(
            #[trigger] node_priority(h1, cost1, dist, a),
            y.priority,
        ) by {
            if a < node {
                assert(node_priority(h1, cost1, dist, a) == node_priority(h, cost, dist, a));
            } else {
                assert(no_worse(c.priority, y.priority));
            }
        }
        assert forall|k: int|
            0 <= k < h1.len() && (#[trigger] t1.states[k]).final_weight is Some implies no_worse(
            cost1[k].times_spec(t1.states[k].final_weight->0),
            y.priority,
        ) by {
            assert(k < node);
            assert(t0.states[k].final_weight is Some);
        }
    }
}

/// The prices are kept when one more candidate waits that is priced and
/// whose priority is no better than a bound that no node and no path that
/// was ended is better than.
pub proof fn lemma_prices_push<W: Semiring>(
    t: FstView<W>,
    h: Seq<StateId>,
    cost: Seq<W>,
    dist: Seq<W>,
    heap: Seq<Candidate<W>>,
    base: W,
    c: Candidate<W>,
)
    requires
        keeps_prices(t, h, cost, dist, heap),
        is_ceiling(t, h, cost, dist, base),
        no_worse(base, c.priority),
        is_priced(cost, dist, c),
    ensures
        keeps_prices(t, h, cost, dist, heap.push(c)),
{
    let after = heap.push(c);
    assert forall|y: Candidate<W>| #[trigger] after.contains(y) implies is_priced(cost, dist, y)
        && is_ceiling(t, h, cost, dist, y.priority) by {
        let j = choose|j: int| 0 <= j < after.len() && after[j] == y;
        if j < heap.len() {
            assert(heap[j] == y);
            assert(heap.contains(y));
        } else {
            assert forall|a: int| 0 <= a < h.len() implies no_worse(
                #[trigger] node_priority(h, cost, dist, a),
                c.priority,
            ) by {
                lemma_no_worse_trans(node_priority(h, cost, dist, a), base, c.priority);
            }
            assert forall|k: int|
                0 <= k < h.len() && (#[trigger] t.states[k]).final_weight is Some implies no_worse(
                cost[k].times_spec(t.states[k].final_weight->0),
                c.priority,
            ) by {
                lemma_no_worse_trans(
                    cost[k].times_spec(t.states[k].final_weight->0),
                    base,
                    c.priority,
                );
            }
        }
    }
}

/// The priority of a candidate that a node makes for a transition of its
/// state is no better than that of the node, where the distances are
/// consistent.
pub proof fn lemma_child_is_no_better<W: Semiring>(
    f: FstView<W>,
    dist: Seq<W>,
    cost: W,
    s: int,
    i: int,
)
    requires
        is_consistent(f, dist),
        f.has_tr(s, i),
    ensures
        no_worse(
            cost.times_spec(dist[s + 1]),
            cost.times_spec(f.tr(s, i).weight).times_spec(dist[f.tr(s, i).nextstate + 1]),
        ),
{
    let tr = f.tr(s, i);
    lemma_times_keeps_order_left(cost, dist[s + 1], tr.weight.times_spec(dist[tr.nextstate + 1]));
    W::lemma_times_associative(cost, tr.weight, dist[tr.nextstate + 1]);
}

/// The priority of the candidate that ends a path in a node is no better
/// than that of the node, where the distances are consistent.
pub proof fn lemma_end_is_no_better<W: Semiring>(f: FstView<W>, dist: Seq<W>, cost: W, s: int)
    requires
        is_consistent(f, dist),
        f.is_final(s),
    ensures
        no_worse(cost.times_spec(dist[s + 1]), cost.times_spec(f.states[s].final_weight->0)),
{
    lemma_times_keeps_order_left(cost, dist[s + 1], f.states[s].final_weight->0);
}

} // verus!
