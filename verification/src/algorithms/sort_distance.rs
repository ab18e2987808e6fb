//! What renumbering the states does to distances: each state keeps its
//! distance from the start state at its new place. A `⊕`-sum does not
//! depend on the order of its terms, which is what the proof rests on.

use vstd::prelude::*;
use crate::algorithms::shortest_distance::{
    carried_by, carried_into, inflow, is_single_source_distance, lemma_distance_on_acyclic,
    solves_distance_equations, source_weight,
};
use crate::algorithms::state_sort::{are_inverse_orders, renumbered, renumbered_trs};
use crate::algorithms::top_sort::{is_top_sort_of, lemma_top_sort_keeps_paths};
use crate::fst_properties::TOP_SORTED_BIT;
use crate::fst_view::{tr_meets, FstView, Step};
use crate::semirings::semiring::Semiring;
use crate::tr::{StateId, Tr};

verus! {

/// The `⊕`-sum of the terms.
pub open spec fn sum_of<W: Semiring>(terms: Seq<W>) -> W
    decreases terms.len(),
{
    if terms.len() == 0 {
        W::zero_spec()
    } else {
        sum_of(terms.drop_last()).plus_spec(terms.last())
    }
}

/// The terms in the order that `places` gives: at place `i` the term
/// `terms[places[i]]`.
pub open spec fn placed<W: Semiring>(terms: Seq<W>, places: Seq<int>) -> Seq<W> {
    Seq::new(places.len(), |i: int| terms[places[i]])
}

/// Whether `places` holds each index below its length once.
pub open spec fn is_arrangement(places: Seq<int>) -> bool {
    &&& forall|i: int| 0 <= i < places.len() ==> 0 <= #[trigger] places[i] < places.len()
    &&& forall|i: int, j: int|
        0 <= i < places.len() && 0 <= j < places.len() && i != j ==> #[trigger] places[i]
            != #[trigger] places[j]
}

/// A sum is the sum without one of its terms, plus that term.
proof fn lemma_sum_without<W: Semiring>(terms: Seq<W>, k: int)
    requires
        0 <= k < terms.len(),
    ensures
        sum_of(terms) == sum_of(terms.remove(k)).plus_spec(terms[k]),
    decreases terms.len(),
{
    let front = terms.drop_last();
    if k == terms.len() - 1 {
        assert(terms.remove(k) =~= front);
    } else {
        lemma_sum_without(front, k);
        assert(terms.remove(k).drop_last() =~= front.remove(k));
        assert(terms.remove(k).last() == terms.last());
        let rest = sum_of(front.remove(k));
        W::lemma_plus_associative(rest, terms[k], terms.last());
        W::lemma_plus_commutative(terms[k], terms.last());
        W::lemma_plus_associative(rest, terms.last(), terms[k]);
    }
}

/// A sum does not depend on the order of its terms.
pub proof fn lemma_sum_of_placed<W: Semiring>(terms: Seq<W>, places: Seq<int>)
    requires
        places.len() == terms.len(),
        is_arrangement(places),
    ensures
        sum_of(placed(terms, places)) == sum_of(terms),
    decreases terms.len(),
{
    if terms.len() > 0 {
        let n = terms.len() as int;
        let k = places[n - 1];
        let fewer = Seq::new(
            (n - 1) as nat,
            |i: int|
                if places[i] < k {
                    places[i]
                } else {
                    places[i] - 1
                },
        );
        assert(is_arrangement(fewer)) by {
            assert forall|i: int| 0 <= i < fewer.len() implies 0 <= #[trigger] fewer[i]
                < fewer.len() by {
                assert(places[i] != places[n - 1]);
            }
            assert forall|i: int, j: int|
                0 <= i < fewer.len() && 0 <= j < fewer.len() && i != j implies #[trigger] fewer[i]
                != #[trigger] fewer[j] by {
                assert(places[i] != places[j]);
                assert(places[i] != places[n - 1]);
                assert(places[j] != places[n - 1]);
            }
        }
        lemma_sum_of_placed(terms.remove(k), fewer);
        assert(placed(terms, places).drop_last() =~= placed(terms.remove(k), fewer)) by {
            assert forall|i: int| 0 <= i < n - 1 implies placed(terms, places).drop_last()[i]
                == placed(terms.remove(k), fewer)[i] by {
                assert(places[i] != places[n - 1]);
            }
        }
        lemma_sum_without(terms, k);
    }
}

/// What each state carries into state `q`, state by state.
pub open spec fn inflow_terms<W: Semiring>(f: FstView<W>, d: Seq<W>, q: int) -> Seq<W> {
    Seq::new(f.states.len(), |u: int| carried_into(f.states[u].trs, d[u], q))
}

/// What the first `m` states carry into a state is the sum of what each of
/// them carries into it.
proof fn lemma_inflow_is_sum<W: Semiring>(f: FstView<W>, d: Seq<W>, q: int, m: nat)
    requires
        m <= f.states.len(),
    ensures
        inflow(f, d, q, m) == sum_of(inflow_terms(f, d, q).take(m as int)),
    decreases m,
{
    let terms = inflow_terms(f, d, q);
    if m > 0 {
        lemma_inflow_is_sum(f, d, q, (m - 1) as nat);
        assert(terms.take(m as int).drop_last() =~= terms.take(m - 1));
    }
}

/// What the renumbered transitions carry into the new place of a state is
/// what the transitions carried into the state.
proof fn lemma_carried_into_renumbered<W: Semiring>(
    trs: Seq<Tr<W>>,
    order: Seq<StateId>,
    x: W,
    q: int,
)
    requires
        0 <= q < order.len(),
        forall|i: int| 0 <= i < trs.len() ==> (#[trigger] trs[i]).nextstate < order.len(),
        forall|a: int, b: int|
            0 <= a < order.len() && 0 <= b < order.len() && a != b ==> #[trigger] order[a]
                != #[trigger] order[b],
    ensures
        carried_into(renumbered_trs(trs, order), x, order[q] as int) == carried_into(trs, x, q),
    decreases trs.len(),
{
    if trs.len() > 0 {
        let front = trs.drop_last();
        assert forall|i: int| 0 <= i < front.len() implies (#[trigger] front[i]).nextstate
            < order.len() by {
            assert(front[i] == trs[i]);
        }
        lemma_carried_into_renumbered(front, order, x, q);
        assert(renumbered_trs(trs, order).drop_last() =~= renumbered_trs(front, order));
        let t = trs.last();
        assert(t == trs[trs.len() - 1]);
        let moved = renumbered_trs(trs, order).last();
        assert(moved.nextstate == order[t.nextstate as int]);
        assert(carried_by(moved, x, order[q] as int) == carried_by(t, x, q));
    }
}

/// Each state of a transducer without cycles keeps its distance from the
/// start state at its new place when the states are renumbered.
pub proof fn lemma_renumbered_keeps_distances<W: Semiring>(
    f: FstView<W>,
    order: Seq<StateId>,
    inverse: Seq<StateId>,
    properties: Set<u64>,
    d: Seq<W>,
    e: Seq<W>,
)
    requires
        f.graph_wf(),
        f.is_acyclic(),
        are_inverse_orders(order, inverse),
        order.len() == f.states.len(),
        f.start matches Some(s) && is_single_source_distance(f, s, d) && is_single_source_distance(
            renumbered(f, order, inverse, properties),
            order[s as int],
            e,
        ),
    ensures
        e.len() == d.len(),
        forall|s: int| 0 <= s < d.len() ==> e[order[s] as int] == #[trigger] d[s],
{
    let g = renumbered(f, order, inverse, properties);
    let n = f.states.len();
    let s0 = f.start->0 as int;
    let t0 = order[s0] as int;
    let c = Seq::new(n, |t: int| d[inverse[t] as int]);
    let places = Seq::new(n, |t: int| inverse[t] as int);
    assert forall|a: int, b: int| 0 <= a < n && 0 <= b < n && a != b implies #[trigger] order[a]
        != #[trigger] order[b] by {
        assert(inverse[order[a] as int] == a);
        assert(inverse[order[b] as int] == b);
    }
    assert(is_arrangement(places)) by {
        assert forall|i: int, j: int|
            0 <= i < places.len() && 0 <= j < places.len() && i != j implies #[trigger] places[i]
            != #[trigger] places[j] by {
            assert(order[inverse[i] as int] == i);
            assert(order[inverse[j] as int] == j);
        }
    }
    assert(g.graph_wf()) by {
        assert forall|t: int, i: int| #[trigger] g.has_tr(t, i) implies g.tr(t, i).nextstate
            < g.states.len() by {
            assert(f.has_tr(inverse[t] as int, i));
        }
        assert forall|t: int| #[trigger] g.has_state(t) implies g.states[t].final_weight != Some(
            W::zero_spec(),
        ) by {
            assert(f.has_state(inverse[t] as int));
        }
    }
    assert(g.is_acyclic()) by {
        let rank = choose|rank: Seq<nat>| f.is_topological_rank(rank);
        let moved = Seq::new(n, |t: int| rank[inverse[t] as int]);
        assert forall|t: int, i: int| #[trigger] g.has_tr(t, i) implies moved[t]
            < moved[g.tr(t, i).nextstate as int] by {
            let u = inverse[t] as int;
            assert(f.has_tr(u, i));
            assert(inverse[order[f.tr(u, i).nextstate as int] as int] == f.tr(u, i).nextstate);
        }
        assert(g.is_topological_rank(moved));
    }
    assert(solves_distance_equations(g, t0, c)) by {
        assert forall|x: int| 0 <= x < c.len() implies #[trigger] c[x] == source_weight::<W>(
            t0,
            x,
        ).plus_spec(inflow(g, c, x, g.states.len())) by {
            let q = inverse[x] as int;
            assert(order[q] == x);
            assert(inverse[order[s0] as int] == s0);
            assert(source_weight::<W>(t0, x) == source_weight::<W>(s0, q));
            lemma_inflow_is_sum(f, d, q, n);
            lemma_inflow_is_sum(g, c, x, n);
            let given = inflow_terms(f, d, q);
            let moved = inflow_terms(g, c, x);
            assert(given.take(n as int) =~= given);
            assert(moved.take(n as int) =~= moved);
            assert(moved =~= placed(given, places)) by {
                assert forall|t: int| 0 <= t < n implies moved[t] == placed(given, places)[t] by {
                    let u = inverse[t] as int;
                    assert forall|i: int| 0 <= i < f.states[u].trs.len() implies (#[trigger] f.states[u].trs[i]).nextstate
                        < order.len() by {
                        assert(f.has_tr(u, i));
                    }
                    lemma_carried_into_renumbered(f.states[u].trs, order, d[u], q);
                }
            }
            lemma_sum_of_placed(given, places);
        }
    }
    lemma_distance_on_acyclic(g, t0, c, n);
    lemma_distance_on_acyclic(g, t0, e, n);
    assert(e =~= c);
    assert forall|s: int| 0 <= s < d.len() implies e[order[s] as int] == #[trigger] d[s] by {
        assert(inverse[order[s] as int] == s);
    }
}

/// A topological sort keeps the distances from the start state: each state
/// has at its new place the distance that it had; and no state below the
/// start state has a distance other than `0̄`.
pub proof fn lemma_top_sort_keeps_distances<W: Semiring>(
    given: FstView<W>,
    sorted: FstView<W>,
    d: Seq<W>,
    e: Seq<W>,
) -> (order: Seq<StateId>)
    requires
        given.wf(),
        sorted.wf(),
        given.states.len() <= usize::MAX,
        given.is_acyclic(),
        is_top_sort_of(sorted, given),
        given.start matches Some(s) && is_single_source_distance(given, s, d),
        sorted.start matches Some(t) && is_single_source_distance(sorted, t, e),
    ensures
        order.len() == given.states.len(),
        e.len() == d.len(),
        sorted.start == Some(order[given.start->0 as int]),
        forall|s: int| 0 <= s < d.len() ==> e[order[s] as int] == #[trigger] d[s],
        forall|v: int|
            0 <= v < e.len() && #[trigger] e[v] != W::zero_spec() ==> v >= sorted.start->0,
{
    let (order, inverse) = lemma_top_sort_keeps_paths(given, sorted);
    lemma_renumbered_keeps_distances(given, order, inverse, sorted.properties, d, e);
    let t0 = sorted.start->0 as int;
    let rank = Seq::new(sorted.states.len(), |s: int| s as nat);
    assert forall|v: int| 0 <= v < e.len() && #[trigger] e[v] != W::zero_spec() implies v
        >= t0 by {
        assert(sorted.reachable(t0, v));
        let p = choose|p: Seq<Step>| sorted.is_path(t0, p, v);
        assert forall|s: int, i: int| #[trigger] sorted.has_tr(s, i) implies rank[s]
            < rank[sorted.tr(s, i).nextstate as int] by {
            assert(sorted.property_fact(TOP_SORTED_BIT));
            assert(tr_meets(TOP_SORTED_BIT, s, sorted.tr(s, i)));
        }
        assert(sorted.is_topological_rank(rank));
        sorted.lemma_rank_rises_along_path(rank, t0, p, v);
    }
    order
}

} // verus!
