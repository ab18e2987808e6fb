//! The order that `⊕` gives, and why the distance of a state to the final
//! states is no worse than the weight of any path from it to a final state.

use vstd::prelude::*;
use crate::algorithms::pushing_language::{
    lemma_incoming_has, lemma_reversed_start_distance, lemma_to_finals_has,
};
use crate::algorithms::reverse::reversed;
use crate::algorithms::reverse_language::lemma_reversed_trs;
use crate::algorithms::shortest_distance::{lemma_solution_is_closed, solves_distance_equations};
use crate::fst_view::{FstView, Step};
use crate::pair_weight::final_weight_or_zero;
use crate::semirings::semiring::{has_path_property, is_commutative, Semiring};

verus! {

/// Whether `a` is no worse than `b` in the order that `⊕` gives: the sum of
/// the two is `a`.
pub open spec fn no_worse<W: Semiring>(a: W, b: W) -> bool {
    a.plus_spec(b) == a
}

/// Each weight is no worse than itself, where `⊕` picks one of its operands.
pub proof fn lemma_no_worse_refl<W: Semiring>(a: W)
    requires
        has_path_property::<W>(),
    ensures
        no_worse(a, a),
{
    assert(a.plus_spec(a) == a || a.plus_spec(a) == a);
}

/// What is no worse than something that is no worse than a third is no
/// worse than the third.
pub proof fn lemma_no_worse_trans<W: Semiring>(a: W, b: W, c: W)
    requires
        no_worse(a, b),
        no_worse(b, c),
    ensures
        no_worse(a, c),
{
    W::lemma_plus_associative(a, b, c);
}

/// Every weight is no worse than `0̄`.
pub proof fn lemma_zero_is_worst<W: Semiring>(a: W)
    ensures
        no_worse(a, W::zero_spec()),
{
    W::lemma_plus_zero(a);
}

/// Nothing but `0̄` is as bad as `0̄`.
pub proof fn lemma_only_zero_is_worst<W: Semiring>(a: W)
    requires
        no_worse(W::zero_spec(), a),
    ensures
        a == W::zero_spec(),
{
    W::lemma_plus_zero(a);
}

/// A factor in front keeps the order.
pub proof fn lemma_times_keeps_order_left<W: Semiring>(a: W, b: W, c: W)
    requires
        no_worse(b, c),
    ensures
        no_worse(a.times_spec(b), a.times_spec(c)),
{
    W::lemma_distributive(a, b, c);
}

/// A factor behind keeps the order.
pub proof fn lemma_times_keeps_order_right<W: Semiring>(a: W, b: W, c: W)
    requires
        no_worse(b, c),
    ensures
        no_worse(b.times_spec(a), c.times_spec(a)),
{
    W::lemma_distributive(a, b, c);
}

/// Where a weight is not strictly better than another, the other is no
/// worse than it, where `⊕` picks one of its operands.
pub proof fn lemma_not_better_is_no_worse<W: Semiring>(a: W, b: W)
    requires
        has_path_property::<W>(),
        !(a.plus_spec(b) == a && a != b),
    ensures
        no_worse(b, a),
{
    assert(a.plus_spec(b) == a || a.plus_spec(b) == b);
    W::lemma_plus_commutative(a, b);
    if a == b {
        lemma_no_worse_refl(a);
    }
}

/// The weight of a successful path with its final weight.
pub open spec fn total_weight<W: Semiring>(f: FstView<W>, p: Seq<Step>, to: int) -> W {
    f.path_weight(p).times_spec(final_weight_or_zero(f, to))
}

/// Whether the distances are no worse than what each transition and each
/// final weight offers: the distance of a state is no worse than the weight
/// of a transition that leaves it times the distance of its target, and the
/// distance of a final state is no worse than its final weight. The distance
/// of state `s` stands at the place `s + 1`.
pub open spec fn is_consistent<W: Semiring>(f: FstView<W>, dist: Seq<W>) -> bool {
    &&& dist.len() == f.states.len() + 1
    &&& forall|u: int, i: int|
        #[trigger] f.has_tr(u, i) ==> no_worse(
            dist[u + 1],
            f.tr(u, i).weight.times_spec(dist[f.tr(u, i).nextstate + 1]),
        )
    &&& forall|z: int| #[trigger] f.is_final(z) ==> no_worse(dist[z + 1], f.states[z].final_weight->0)
}

/// The distances from the start state of the reversed transducer are
/// consistent, in a semiring with commutative `⊗` in which `⊕` picks one of
/// its operands.
pub proof fn lemma_distances_are_consistent<W: Semiring>(f: FstView<W>, dist: Seq<W>)
    requires
        f.graph_wf(),
        reversed(f).graph_wf(),
        f.states.len() < usize::MAX,
        solves_distance_equations(reversed(f), 0, dist),
        is_commutative::<W>(),
        has_path_property::<W>(),
    ensures
        is_consistent(f, dist),
{
    let r = reversed(f);
    let n = f.states.len();
    assert forall|a: W| #[trigger] a.plus_spec(a) == a by {
        assert(a.plus_spec(a) == a || a.plus_spec(a) == a);
    }
    lemma_solution_is_closed(r, 0, dist);
    lemma_reversed_start_distance(f, dist);
    assert forall|u: int, i: int| #[trigger] f.has_tr(u, i) implies no_worse(
        dist[u + 1],
        f.tr(u, i).weight.times_spec(dist[f.tr(u, i).nextstate + 1]),
    ) by {
        let tr = f.tr(u, i);
        let v = tr.nextstate as int;
        lemma_reversed_trs(f, v + 1);
        let j = lemma_incoming_has(f, v, n, u, i);
        assert(r.has_tr(v + 1, j));
        assert(r.tr(v + 1, j).nextstate == u + 1);
        assert(r.tr(v + 1, j).weight == tr.weight);
        assert(dist[v + 1].times_spec(tr.weight) == tr.weight.times_spec(dist[v + 1]));
    }
    assert forall|z: int| #[trigger] f.is_final(z) implies no_worse(
        dist[z + 1],
        f.states[z].final_weight->0,
    ) by {
        lemma_reversed_trs(f, 0);
        let j = lemma_to_finals_has(f, n, z);
        assert(r.has_tr(0, j));
        assert(r.tr(0, j).nextstate == z + 1);
        W::lemma_times_one(f.states[z].final_weight->0);
    }
}

/// The distance of a state is no worse than the weight of any path from it
/// to a final state, with the final weight.
pub proof fn lemma_distance_is_admissible<W: Semiring>(
    f: FstView<W>,
    dist: Seq<W>,
    v: int,
    p: Seq<Step>,
    to: int,
)
    requires
        f.graph_wf(),
        is_consistent(f, dist),
        f.is_path(v, p, to),
        f.is_final(to),
    ensures
        no_worse(dist[v + 1], total_weight(f, p, to)),
    decreases p.len(),
{
    if p.len() == 0 {
        W::lemma_times_one(final_weight_or_zero(f, to));
    } else {
        let tr = f.tr(p[0].0, p[0].1);
        let next = tr.nextstate as int;
        assert(f.has_tr(v, p[0].1));
        lemma_distance_is_admissible(f, dist, next, p.drop_first(), to);
        let rest = total_weight(f, p.drop_first(), to);
        lemma_times_keeps_order_left(tr.weight, dist[next + 1], rest);
        lemma_no_worse_trans(dist[v + 1], tr.weight.times_spec(dist[next + 1]), tr.weight.times_spec(rest));
        W::lemma_times_associative(
            tr.weight,
            f.path_weight(p.drop_first()),
            final_weight_or_zero(f, to),
        );
    }
}

} // verus!
