//! What the search for the best paths keeps of the order of weights from
//! one step to the next, and what follows from it at the end: a successful
//! path that the search left out is no better than each path it returned.

use vstd::prelude::*;
use crate::algorithms::connect::{
    kept_steps, lemma_connect_accepting_path_origin, lemma_connect_keeps_accepting_path,
    unconnected,
};
use crate::algorithms::path_best::{
    is_ceiling, is_floor, is_priced, keeps_prices, lemma_child_is_no_better,
    lemma_end_is_no_better, lemma_prices_drop, lemma_prices_expand, lemma_prices_final_pop,
    lemma_prices_push,
};
use crate::algorithms::path_bound::{
    is_consistent, lemma_distances_are_consistent, lemma_not_better_is_no_worse, no_worse,
    total_weight,
};
use crate::algorithms::path_drops::{
    counts_nodes, is_dominated, lemma_counts_nodes_push, lemma_drops_drop, lemma_drops_expand,
    lemma_drops_final_pop, lemma_drops_push_child, nodes_at, tracks_drops,
};
use crate::algorithms::path_left_out::{
    finals, is_bound, is_full_search, lemma_finals_len, lemma_follow, lemma_tree_path_cost,
};
use crate::algorithms::path_nodes::{has_child, has_like, is_for, tracks_nodes, waits_for};
use crate::algorithms::path_search::{holds_all, is_tree, is_without, Candidate};
use crate::algorithms::reverse::reversed;
use crate::algorithms::shortest_distance::solves_distance_equations;
use crate::algorithms::shortest_path::{count_final_states, is_strictly_better};
use crate::fst_view::{FstView, Step};
use crate::fst_view_delete::kept_below;
use crate::semirings::boolean_weight::BooleanWeight;
use crate::semirings::semiring::{
    has_path_property, is_commutative, lemma_flags_name_laws, Semiring,
};
use crate::semirings::tropical_weight::TropicalWeight;
use crate::tr::StateId;

verus! {

/// Whether the semiring orders paths: `⊕` picks one of its operands, `⊗` is
/// commutative, and a factor on the right can be cancelled in the order of
/// `⊕`.
pub open spec fn orders_paths<W: Semiring>() -> bool {
    has_path_property::<W>() && is_commutative::<W>() && W::cancels()
}

/// The tropical semiring orders paths, and so does the boolean semiring.
pub proof fn lemma_path_semirings_order_paths()
    ensures
        orders_paths::<TropicalWeight>(),
        orders_paths::<BooleanWeight>(),
{
    lemma_flags_name_laws::<TropicalWeight>();
    lemma_flags_name_laws::<BooleanWeight>();
}

/// Whether no successful path of `g` is worse than `w`.
pub open spec fn is_no_better_than_all<W: Semiring>(g: FstView<W>, w: W) -> bool {
    forall|q: Seq<Step>, end: int|
        g.is_accepting_path(q, end) ==> no_worse(#[trigger] total_weight(g, q, end), w)
}

/// Whether `g` holds the best of the successful paths of `f`: each
/// successful path of `f` has its like in `g`, or is no better than each
/// successful path of `g`.
pub open spec fn holds_best_paths<W: Semiring>(g: FstView<W>, f: FstView<W>) -> bool {
    forall|p: Seq<Step>, to: int|
        f.is_accepting_path(p, to) ==> has_like(g, f, p, to) || is_no_better_than_all(
            g,
            #[trigger] total_weight(f, p, to),
        )
}

/// What the search keeps of the order of weights: the distances are
/// consistent, the prices are kept, track is kept of what is dropped, and
/// the nodes of each state are counted.
pub closed spec fn keeps_order<W: Semiring>(
    f: FstView<W>,
    t: FstView<W>,
    h: Seq<StateId>,
    heap: Seq<Candidate<W>>,
    visits: Seq<usize>,
    cost: Seq<W>,
    dist: Seq<W>,
    n: int,
    node: int,
    upto: int,
) -> bool {
    &&& is_consistent(f, dist)
    &&& keeps_prices(t, h, cost, dist, heap)
    &&& tracks_drops(f, t, h, heap, visits, cost, dist, n, node, upto)
    &&& counts_nodes(h, visits, n)
}

/// What is known of the candidate `c` while the search makes the candidates
/// of the node that it made for `c`: no node and no path that was ended is
/// better than `c`, and the node costs what `c` costs.
pub closed spec fn is_expanding<W: Semiring>(
    t: FstView<W>,
    h: Seq<StateId>,
    cost: Seq<W>,
    dist: Seq<W>,
    c: Candidate<W>,
    s: StateId,
    node: int,
) -> bool {
    &&& is_ceiling(t, h, cost, dist, c.priority)
    &&& s + 1 < dist.len()
    &&& c.priority == c.cost.times_spec(dist[s + 1])
    &&& 0 <= node < cost.len()
    &&& cost.len() == h.len()
    &&& cost[node] == c.cost
    &&& h[node] == s
}

/// The order is kept at the start of the search.
pub proof fn lemma_order_start<W: Semiring>(
    f: FstView<W>,
    t: FstView<W>,
    heap: Seq<Candidate<W>>,
    visits: Seq<usize>,
    dist: Seq<W>,
    n: int,
)
    requires
        orders_paths::<W>(),
        f.graph_wf(),
        reversed(f).graph_wf(),
        f.states.len() < usize::MAX,
        solves_distance_equations(reversed(f), 0, dist),
        dist.len() == f.states.len() + 1,
        t.states.len() == 0,
        n >= 0,
        visits.len() == f.states.len(),
        forall|v: int| 0 <= v < visits.len() ==> #[trigger] visits[v] == 0,
        forall|c: Candidate<W>|
            #[trigger] heap.contains(c) ==> c.parent is None && c.cost == W::one_spec() && (
            c.state matches Some(s) && s < f.states.len() && c.priority == dist[s + 1]),
    ensures
        keeps_order(f, t, Seq::empty(), heap, visits, Seq::empty(), dist, n, -1, 0),
{
    let h = Seq::<StateId>::empty();
    let cost = Seq::<W>::empty();
    lemma_distances_are_consistent(f, dist);
    assert forall|c: Candidate<W>| #[trigger] heap.contains(c) implies is_priced(cost, dist, c)
        && is_ceiling(t, h, cost, dist, c.priority) by {
        W::lemma_times_one(c.priority);
    }
    assert forall|v: int| 0 <= v < visits.len() implies (#[trigger] nodes_at(h, v)).finite()
        && nodes_at(h, v).len() == visits[v] && visits[v] <= n by {
        assert(nodes_at(h, v) =~= Set::<int>::empty());
    }
}

/// No candidate that is left in the heap is better than the one that was
/// taken out as the best.
proof fn lemma_best_is_floor<W: Semiring>(heap: Seq<Candidate<W>>, base: W)
    requires
        has_path_property::<W>(),
        forall|x: Candidate<W>| #[trigger] heap.contains(x) ==> !is_strictly_better(x.priority, base),
    ensures
        is_floor(heap, base),
{
    assert forall|x: Candidate<W>| #[trigger] heap.contains(x) implies no_worse(
        base,
        x.priority,
    ) by {
        lemma_not_better_is_no_worse(x.priority, base);
    }
}

/// The order is kept when a path is ended in a node with the best
/// candidate.
pub proof fn lemma_order_final_pop<W: Semiring>(
    f: FstView<W>,
    t0: FstView<W>,
    t1: FstView<W>,
    h: Seq<StateId>,
    before: Seq<Candidate<W>>,
    after: Seq<Candidate<W>>,
    visits: Seq<usize>,
    cost: Seq<W>,
    dist: Seq<W>,
    n: int,
    c: Candidate<W>,
    k: int,
)
    requires
        orders_paths::<W>(),
        keeps_order(f, t0, h, before, visits, cost, dist, n, -1, 0),
        before.contains(c),
        c.state is None,
        c.parent == Some(k as usize),
        0 <= k < h.len(),
        h.len() <= usize::MAX,
        holds_all(before, after),
        is_without(after, before, c),
        forall|x: Candidate<W>|
            #[trigger] after.contains(x) ==> !is_strictly_better(x.priority, c.priority),
        t1.states.len() == t0.states.len(),
        forall|x: int| 0 <= x < t0.states.len() ==> (#[trigger] t1.states[x]).trs == t0.states[x].trs,
        forall|x: int|
            0 <= x < t0.states.len() && x != k ==> (#[trigger] t1.states[x]).final_weight
                == t0.states[x].final_weight,
        t1.states[k].final_weight == Some(c.weight),
    ensures
        keeps_order(f, t1, h, after, visits, cost, dist, n, -1, 0),
{
    lemma_best_is_floor(after, c.priority);
    lemma_prices_final_pop(t0, t1, h, cost, dist, before, after, c, k);
    lemma_drops_final_pop(f, t0, t1, h, before, after, visits, cost, dist, n, c);
}

/// The order is kept when a candidate is dropped that gets to a state that
/// was left as often as a state may be left.
pub proof fn lemma_order_drop<W: Semiring>(
    f: FstView<W>,
    t: FstView<W>,
    h: Seq<StateId>,
    before: Seq<Candidate<W>>,
    after: Seq<Candidate<W>>,
    visits: Seq<usize>,
    cost: Seq<W>,
    dist: Seq<W>,
    n: int,
    c: Candidate<W>,
    s: StateId,
)
    requires
        keeps_order(f, t, h, before, visits, cost, dist, n, -1, 0),
        before.contains(c),
        c.state == Some(s),
        s < visits.len(),
        visits[s as int] >= n,
        h.len() <= usize::MAX,
        holds_all(before, after),
        is_without(after, before, c),
    ensures
        keeps_order(f, t, h, after, visits, cost, dist, n, -1, 0),
{
    lemma_prices_drop(t, h, cost, dist, before, after);
    lemma_drops_drop(f, t, h, before, after, visits, cost, dist, n, c, s);
}

/// The order is kept when the tree gets a node for the best candidate, but
/// for the transitions of the new node; the node costs what the candidate
/// costs.
pub proof fn lemma_order_expand<W: Semiring>(
    f: FstView<W>,
    t0: FstView<W>,
    t1: FstView<W>,
    h: Seq<StateId>,
    before: Seq<Candidate<W>>,
    after: Seq<Candidate<W>>,
    visits: Seq<usize>,
    now: Seq<usize>,
    cost: Seq<W>,
    dist: Seq<W>,
    n: int,
    c: Candidate<W>,
    s: StateId,
)
    requires
        orders_paths::<W>(),
        keeps_order(f, t0, h, before, visits, cost, dist, n, -1, 0),
        f.graph_wf(),
        t0.graph_wf(),
        before.contains(c),
        c.state == Some(s),
        s < f.states.len(),
        visits.len() == f.states.len(),
        visits[s as int] < n,
        now.len() == visits.len(),
        now[s as int] == visits[s as int] + 1,
        forall|u: int| 0 <= u < visits.len() && u != s ==> #[trigger] now[u] == visits[u],
        h.len() < usize::MAX,
        forall|x: int| 0 <= x < h.len() ==> (#[trigger] h[x]) < f.states.len(),
        holds_all(before, after),
        is_without(after, before, c),
        forall|x: Candidate<W>|
            #[trigger] after.contains(x) ==> !is_strictly_better(x.priority, c.priority),
        t1.states.len() == t0.states.len() + 1,
        forall|x: int, i: int|
            #[trigger] t0.has_tr(x, i) ==> t1.has_tr(x, i) && t1.tr(x, i) == t0.tr(x, i),
        forall|x: int, i: int|
            #[trigger] t1.has_tr(x, i) ==> t0.has_tr(x, i) || (c.parent == Some(x as usize)
                && t1.tr(x, i).nextstate == t0.states.len() && t1.tr(x, i).weight == c.weight),
        forall|x: int|
            0 <= x < t0.states.len() ==> (#[trigger] t1.states[x]).final_weight
                == t0.states[x].final_weight,
        t1.states[t0.states.len() as int].final_weight is None,
        match c.parent {
            Some(k) => k < t0.states.len() && exists|i: int|
                t1.has_tr(k as int, i) && (#[trigger] t1.tr(k as int, i)).nextstate
                    == t0.states.len() && t1.tr(k as int, i).ilabel == c.ilabel && t1.tr(
                    k as int,
                    i,
                ).olabel == c.olabel && t1.tr(k as int, i).weight == c.weight,
            None => t0.states.len() == 0,
        },
    ensures
        keeps_order(f, t1, h.push(s), after, now, cost.push(c.cost), dist, n, h.len() as int, 0),
        is_expanding(t1, h.push(s), cost.push(c.cost), dist, c, s, h.len() as int),
{
    lemma_best_is_floor(after, c.priority);
    lemma_prices_expand(t0, t1, h, cost, dist, before, after, c, s);
    lemma_drops_expand(f, t0, t1, h, before, after, visits, now, cost, dist, n, c, s);
    lemma_counts_nodes_push(h, visits, now, n, s);
    assert(is_priced(cost, dist, c));
}

/// The order is kept when the candidate that ends the path in the new node
/// is put into the heap.
pub proof fn lemma_order_push_end<W: Semiring>(
    f: FstView<W>,
    t: FstView<W>,
    h: Seq<StateId>,
    heap: Seq<Candidate<W>>,
    visits: Seq<usize>,
    cost: Seq<W>,
    dist: Seq<W>,
    n: int,
    node: int,
    c: Candidate<W>,
    s: StateId,
    end: Candidate<W>,
)
    requires
        keeps_order(f, t, h, heap, visits, cost, dist, n, node, 0),
        is_expanding(t, h, cost, dist, c, s, node),
        node <= usize::MAX,
        f.states[s as int].final_weight is Some,
        s < f.states.len(),
        end.state is None,
        end.parent == Some(node as usize),
        end.weight == f.states[s as int].final_weight->0,
        end.cost == c.cost.times_spec(end.weight),
        end.priority == end.cost,
    ensures
        keeps_order(f, t, h, heap.push(end), visits, cost, dist, n, node, 0),
{
    assert(f.is_final(s as int));
    lemma_end_is_no_better(f, dist, c.cost, s as int);
    lemma_prices_push(t, h, cost, dist, heap, c.priority, end);
    assert forall|x: Candidate<W>| #[trigger] heap.contains(x) implies heap.push(end).contains(
        x,
    ) by {
        let j = choose|j: int| 0 <= j < heap.len() && heap[j] == x;
        assert(heap.push(end)[j] == x);
    }
    lemma_drops_grow(f, t, h, heap, heap.push(end), visits, cost, dist, n, node, 0);
}

/// Track of the drops is kept when the heap gets more candidates.
proof fn lemma_drops_grow<W: Semiring>(
    f: FstView<W>,
    t: FstView<W>,
    h: Seq<StateId>,
    before: Seq<Candidate<W>>,
    after: Seq<Candidate<W>>,
    visits: Seq<usize>,
    cost: Seq<W>,
    dist: Seq<W>,
    n: int,
    node: int,
    upto: int,
)
    requires
        tracks_drops(f, t, h, before, visits, cost, dist, n, node, upto),
        forall|x: Candidate<W>| #[trigger] before.contains(x) ==> after.contains(x),
    ensures
        tracks_drops(f, t, h, after, visits, cost, dist, n, node, upto),
{
    assert forall|x: int, i: int|
        0 <= x < h.len() && #[trigger] f.has_tr(h[x] as int, i) && (x != node || i < upto) implies has_child(
        t,
        h,
        x,
        f.tr(h[x] as int, i),
    ) || waits_for(after, x, f.tr(h[x] as int, i))
        || is_dominated(
        h,
        cost,
        dist,
        visits,
        n,
        x,
        f.tr(h[x] as int, i),
    ) by {
        let tr = f.tr(h[x] as int, i);
        if waits_for(before, x, tr) {
            let w = choose|w: Candidate<W>| #[trigger] before.contains(w) && is_for(w, x, tr);
            assert(after.contains(w));
        }
    }
}

/// The order is kept when the new node makes the candidate for one more
/// transition of its state.
pub proof fn lemma_order_push_child<W: Semiring>(
    f: FstView<W>,
    t: FstView<W>,
    h: Seq<StateId>,
    heap: Seq<Candidate<W>>,
    visits: Seq<usize>,
    cost: Seq<W>,
    dist: Seq<W>,
    n: int,
    node: int,
    i: int,
    c: Candidate<W>,
    s: StateId,
    cand: Candidate<W>,
)
    requires
        keeps_order(f, t, h, heap, visits, cost, dist, n, node, i),
        is_expanding(t, h, cost, dist, c, s, node),
        node <= usize::MAX,
        f.graph_wf(),
        f.has_tr(s as int, i),
        is_for(cand, node, f.tr(s as int, i)),
        cand.cost == c.cost.times_spec(f.tr(s as int, i).weight),
        cand.priority == cand.cost.times_spec(dist[f.tr(s as int, i).nextstate + 1]),
    ensures
        keeps_order(f, t, h, heap.push(cand), visits, cost, dist, n, node, i + 1),
{
    let after = heap.push(cand);
    lemma_child_is_no_better(f, dist, c.cost, s as int, i);
    lemma_prices_push(t, h, cost, dist, heap, c.priority, cand);
    assert(after[heap.len() as int] == cand);
    assert(after.contains(cand));
    assert forall|x: Candidate<W>| #[trigger] heap.contains(x) implies after.contains(x) by {
        let j = choose|j: int| 0 <= j < heap.len() && heap[j] == x;
        assert(after[j] == x);
    }
    lemma_drops_push_child(f, t, h, heap, after, visits, cost, dist, n, node, i, cand);
}

/// When the new node has made the candidates for all the transitions of
/// its state, none is left aside.
pub proof fn lemma_order_expanded<W: Semiring>(
    f: FstView<W>,
    t: FstView<W>,
    h: Seq<StateId>,
    heap: Seq<Candidate<W>>,
    visits: Seq<usize>,
    cost: Seq<W>,
    dist: Seq<W>,
    n: int,
    node: int,
    c: Candidate<W>,
    s: StateId,
)
    requires
        is_expanding(t, h, cost, dist, c, s, node),
        s < f.states.len(),
        keeps_order(f, t, h, heap, visits, cost, dist, n, node, f.states[s as int].trs.len() as int),
    ensures
        keeps_order(f, t, h, heap, visits, cost, dist, n, -1, 0),
{
}

/// When the search has ended as many paths as were asked for, the tree
/// without the nodes that lie on no successful path holds the best of the
/// successful paths of the transducer.
pub proof fn lemma_tree_holds_best<W: Semiring>(
    f: FstView<W>,
    t: FstView<W>,
    h: Seq<StateId>,
    heap: Seq<Candidate<W>>,
    visits: Seq<usize>,
    cost: Seq<W>,
    dist: Seq<W>,
    n: int,
)
    requires
        orders_paths::<W>(),
        keeps_order(f, t, h, heap, visits, cost, dist, n, -1, 0),
        n > 0,
        f.graph_wf(),
        t.graph_wf(),
        is_tree(t),
        t.states.len() <= usize::MAX,
        t.states.len() > 0 ==> t.start == Some(0usize),
        tracks_nodes(f, t, h, heap, visits, n, -1, 0),
        count_final_states(t.states) == n,
        forall|k: int|
            0 <= k < t.states.len() && (#[trigger] t.states[k]).final_weight is Some
                ==> f.states[h[k] as int].final_weight == t.states[k].final_weight,
        forall|c: Candidate<W>|
            #[trigger] heap.contains(c) && c.state is None ==> (c.parent matches Some(k) && k
                < h.len() && f.states[h[k as int] as int].final_weight == Some(c.weight)),
    ensures
        holds_best_paths(t.del_states(unconnected(t)), f),
{
    let g = t.del_states(unconnected(t));
    assert(is_full_search(f, t, h, heap, visits, cost, dist, n));
    lemma_finals_len(t.states);
    assert(t.states.len() > 0) by {
        if t.states.len() == 0 {
            assert(finals(t.states) =~= Set::<int>::empty());
        }
    }
    assert forall|p: Seq<Step>, to: int| f.is_accepting_path(p, to) implies has_like(g, f, p, to)
        || is_no_better_than_all(g, #[trigger] total_weight(f, p, to)) by {
        let (found, q, end) = lemma_follow(f, t, h, heap, visits, cost, dist, n, 0, p, to);
        if found {
            assert(t.is_accepting_path(q, end));
            lemma_connect_keeps_accepting_path(t, q, end);
            assert(g.is_accepting_path(
                kept_steps(t, unconnected(t), q),
                kept_below(unconnected(t), end) as int,
            ));
        } else {
            W::lemma_times_one(total_weight(f, p, to));
            assert(is_bound(t, cost, total_weight(f, p, to)));
            assert forall|r: Seq<Step>, last: int| g.is_accepting_path(r, last) implies no_worse(
                #[trigger] total_weight(g, r, last),
                total_weight(f, p, to),
            ) by {
                let (back, k) = lemma_connect_accepting_path_origin(t, r, last);
                lemma_connect_keeps_accepting_path(t, back, k);
                lemma_tree_path_cost(t, cost, 0, back, k);
                W::lemma_times_one(t.path_weight(back));
            }
        }
    }
}

} // verus!
