//! Shortest distances from one state to all states.
//!
//! The distance from `s` to `q` is the `⊕`-sum of the weights of all paths
//! from `s` to `q`. It is computed by relaxation with a queue, which works in
//! every semiring and ends where the transducer has no cycle or where the
//! semiring descends.

use std::collections::VecDeque;
use vstd::prelude::*;
use vstd::arithmetic::power::{lemma_pow_increases, lemma_pow_positive, pow};
use crate::error::FstError;
use crate::fst_traits::Fst;
use crate::fst_view::FstView;
use crate::semirings::semiring::{has_no_zero_divisors, is_zero_sum_free, Semiring};
use crate::tr::{StateId, Tr};

verus! {

/// The vector that is `1̄` at the source and `0̄` elsewhere.
pub open spec fn source_weight<W: Semiring>(source: int, q: int) -> W {
    if q == source {
        W::one_spec()
    } else {
        W::zero_spec()
    }
}

/// Whether `e` is closed under relaxation from `source`: it absorbs `1̄` at
/// the source and, along every transition, what the transition carries over.
pub open spec fn is_relaxation_closed<W: Semiring>(f: FstView<W>, source: int, e: Seq<W>) -> bool {
    &&& e.len() == f.states.len()
    &&& e[source].plus_spec(W::one_spec()) == e[source]
    &&& forall|u: int, i: int| #[trigger]
        f.has_tr(u, i) ==> e[f.tr(u, i).nextstate as int].plus_spec(
            e[u].times_spec(f.tr(u, i).weight),
        ) == e[f.tr(u, i).nextstate as int]
}

/// Whether each entry of `e` absorbs the entry of `d` at its place.
pub open spec fn absorbs<W: Semiring>(e: Seq<W>, d: Seq<W>) -> bool {
    forall|q: int| 0 <= q < d.len() ==> (#[trigger] e[q]).plus_spec(d[q]) == e[q]
}

/// The sum of the descent ranks of the entries of `d`.
pub open spec fn rank_sum<W: Semiring>(d: Seq<W>) -> nat
    decreases d.len(),
{
    if d.len() == 0 {
        0
    } else {
        rank_sum(d.drop_last()) + d.last().descent_rank()
    }
}

/// What a queued state of rank `rank` counts for: more than all states of
/// higher rank together.
pub open spec fn rank_weight(n: nat, rank: nat) -> nat {
    pow(n as int + 1, (n - rank) as nat) as nat
}

/// What the queued states count for together.
pub open spec fn queue_measure(n: nat, rank: Seq<nat>, queue: Seq<StateId>) -> nat
    decreases queue.len(),
{
    if queue.len() == 0 {
        0
    } else {
        queue_measure(n, rank, queue.drop_last()) + rank_weight(n, rank[queue.last() as int])
    }
}

proof fn lemma_rank_sum_update<W: Semiring>(d: Seq<W>, v: int, x: W)
    requires
        0 <= v < d.len(),
    ensures
        rank_sum(d.update(v, x)) + d[v].descent_rank() == rank_sum(d) + x.descent_rank(),
    decreases d.len(),
{
    let e = d.update(v, x);
    if v == d.len() - 1 {
        assert(e.drop_last() =~= d.drop_last());
    } else {
        lemma_rank_sum_update(d.drop_last(), v, x);
        assert(e.drop_last() =~= d.drop_last().update(v, x));
    }
}

proof fn lemma_queue_measure_pop(n: nat, rank: Seq<nat>, queue: Seq<StateId>)
    requires
        queue.len() > 0,
    ensures
        queue_measure(n, rank, queue) == rank_weight(n, rank[queue[0] as int]) + queue_measure(
            n,
            rank,
            queue.subrange(1, queue.len() as int),
        ),
    decreases queue.len(),
{
    let rest = queue.subrange(1, queue.len() as int);
    if queue.len() == 1 {
        assert(queue.drop_last() =~= Seq::<StateId>::empty());
        assert(rest =~= Seq::<StateId>::empty());
    } else {
        lemma_queue_measure_pop(n, rank, queue.drop_last());
        assert(queue.drop_last().subrange(1, queue.len() - 1) =~= rest.drop_last());
    }
}

/// A sequence of distinct states holds no more states than there are.
pub proof fn lemma_queue_len(n: nat, queue: Seq<StateId>)
    requires
        queue.no_duplicates(),
        forall|i: int| 0 <= i < queue.len() ==> queue[i] < n,
    ensures
        queue.len() <= n,
{
    let ints = queue.map_values(|x: StateId| x as int);
    assert(ints.no_duplicates()) by {
        assert forall|i: int, j: int| 0 <= i < ints.len() && 0 <= j < ints.len() && i != j implies ints[i]
            != ints[j] by {
            assert(queue[i] != queue[j]);
        }
    }
    ints.unique_seq_to_set();
    vstd::set_lib::lemma_int_range(0, n as int);
    assert(ints.to_set().subset_of(vstd::set_lib::set_int_range(0, n as int))) by {
        assert forall|x: int| ints.to_set().contains(x) implies 0 <= x < n by {
            let i = choose|i: int| 0 <= i < ints.len() && ints[i] == x;
            assert(queue[i] < n);
        }
    }
    vstd::set_lib::lemma_len_subset(ints.to_set(), vstd::set_lib::set_int_range(0, n as int));
}

/// A state of higher rank counts for so little that as many of them as
/// there are states count for less than one state of the lower rank.
proof fn lemma_rank_weight_step(n: nat, low: nat, high: nat)
    requires
        low < high <= n,
    ensures
        (n + 1) * rank_weight(n, high) <= rank_weight(n, low),
        rank_weight(n, low) >= 1,
{
    let b = n as int + 1;
    lemma_pow_positive(b, (n - high) as nat);
    lemma_pow_positive(b, (n - low) as nat);
    lemma_pow_increases(b as nat, (n - high + 1) as nat, (n - low) as nat);
    assert(pow(b, (n - high + 1) as nat) == b * pow(b, (n - high) as nat)) by {
        reveal(pow);
    }
}

/// What the transitions `trs` of a state that holds `x` carry into state
/// `q`: the `⊕`-sum of `x ⊗ w` over the transitions with weight `w` that lead
/// to `q`.
pub open spec fn carried_into<W: Semiring>(trs: Seq<Tr<W>>, x: W, q: int) -> W
    decreases trs.len(),
{
    if trs.len() == 0 {
        W::zero_spec()
    } else {
        carried_into(trs.drop_last(), x, q).plus_spec(carried_by(trs.last(), x, q))
    }
}

/// What one transition of a state that holds `x` carries into state `q`.
pub open spec fn carried_by<W: Semiring>(tr: Tr<W>, x: W, q: int) -> W {
    if tr.nextstate == q {
        x.times_spec(tr.weight)
    } else {
        W::zero_spec()
    }
}

/// What the first `n` states, holding `d`, carry into state `q`.
pub open spec fn inflow<W: Semiring>(f: FstView<W>, d: Seq<W>, q: int, n: nat) -> W
    decreases n,
{
    if n == 0 {
        W::zero_spec()
    } else {
        inflow(f, d, q, (n - 1) as nat).plus_spec(
            carried_into(f.states[n - 1].trs, d[n - 1], q),
        )
    }
}

/// Whether `d` solves the distance equations from `source`: each entry is
/// what the source contributes plus what all transitions carry into it.
pub open spec fn solves_distance_equations<W: Semiring>(
    f: FstView<W>,
    source: int,
    d: Seq<W>,
) -> bool {
    &&& d.len() == f.states.len()
    &&& forall|q: int|
        0 <= q < d.len() ==> #[trigger] d[q] == source_weight::<W>(source, q).plus_spec(
            inflow(f, d, q, f.states.len()),
        )
}

/// The `⊕`-sum of the weights of all paths from `source` to `q` that have at
/// most `k` transitions, taken by their last transition.
pub open spec fn distance_within<W: Semiring>(f: FstView<W>, source: int, q: int, k: nat) -> W
    decreases k, 0nat,
{
    if k == 0 {
        source_weight::<W>(source, q)
    } else {
        source_weight::<W>(source, q).plus_spec(
            inflow(f, distances_within(f, source, (k - 1) as nat), q, f.states.len()),
        )
    }
}

/// The vector of the sums over the paths with at most `k` transitions.
pub open spec fn distances_within<W: Semiring>(f: FstView<W>, source: int, k: nat) -> Seq<W>
    decreases k, 1nat,
{
    Seq::new(f.states.len(), |u: int| distance_within(f, source, u, k))
}

/// Whether no weight of the semiring is lost on the way: sums and products
/// of weights other than `0̄` are other than `0̄`, and each transition has
/// such a weight.
pub open spec fn keeps_weights_nonzero<W: Semiring>(f: FstView<W>) -> bool {
    &&& is_zero_sum_free::<W>()
    &&& has_no_zero_divisors::<W>()
    &&& W::one_spec() != W::zero_spec()
    &&& forall|u: int, i: int| #[trigger] f.has_tr(u, i) ==> f.tr(u, i).weight != W::zero_spec()
}

/// `(a ⊕ b) ⊕ (c ⊕ e) = (a ⊕ c) ⊕ (b ⊕ e)`.
proof fn lemma_plus_interchange<W: Semiring>(a: W, b: W, c: W, e: W)
    ensures
        a.plus_spec(b).plus_spec(c.plus_spec(e)) == a.plus_spec(c).plus_spec(b.plus_spec(e)),
{
    W::lemma_plus_associative(a, b, c.plus_spec(e));
    W::lemma_plus_associative(b, c, e);
    W::lemma_plus_commutative(b, c);
    W::lemma_plus_associative(c, b, e);
    W::lemma_plus_associative(a, c, b.plus_spec(e));
}

/// `(a ⊕ y) ⊕ t = (a ⊕ t) ⊕ y`.
proof fn lemma_plus_swap_last<W: Semiring>(a: W, y: W, t: W)
    ensures
        a.plus_spec(y).plus_spec(t) == a.plus_spec(t).plus_spec(y),
{
    W::lemma_plus_associative(a, y, t);
    W::lemma_plus_commutative(y, t);
    W::lemma_plus_associative(a, t, y);
}

/// What a state carries is additive in what it holds.
proof fn lemma_carried_into_sum<W: Semiring>(trs: Seq<Tr<W>>, x: W, y: W, q: int)
    ensures
        carried_into(trs, x.plus_spec(y), q) == carried_into(trs, x, q).plus_spec(
            carried_into(trs, y, q),
        ),
    decreases trs.len(),
{
    if trs.len() == 0 {
        W::lemma_plus_zero(W::zero_spec());
    } else {
        lemma_carried_into_sum(trs.drop_last(), x, y, q);
        let t = trs.last();
        if t.nextstate == q {
            W::lemma_distributive(t.weight, x, y);
        } else {
            W::lemma_plus_zero(W::zero_spec());
        }
        lemma_plus_interchange(
            carried_into(trs.drop_last(), x, q),
            carried_into(trs.drop_last(), y, q),
            carried_by(t, x, q),
            carried_by(t, y, q),
        );
    }
}

/// A state that holds `0̄` carries `0̄`.
pub proof fn lemma_carried_into_zero<W: Semiring>(trs: Seq<Tr<W>>, q: int)
    ensures
        carried_into(trs, W::zero_spec(), q) == W::zero_spec(),
    decreases trs.len(),
{
    if trs.len() > 0 {
        lemma_carried_into_zero(trs.drop_last(), q);
        W::lemma_times_zero(trs.last().weight);
        W::lemma_plus_zero(W::zero_spec());
    }
}

/// States that hold `0̄` carry `0̄`.
pub proof fn lemma_inflow_zero<W: Semiring>(f: FstView<W>, d: Seq<W>, q: int, n: nat)
    requires
        n <= d.len(),
        forall|u: int| 0 <= u < n ==> d[u] == W::zero_spec(),
    ensures
        inflow(f, d, q, n) == W::zero_spec(),
    decreases n,
{
    if n > 0 {
        lemma_inflow_zero(f, d, q, (n - 1) as nat);
        lemma_carried_into_zero(f.states[n - 1].trs, q);
        W::lemma_plus_zero(W::zero_spec());
    }
}

/// What the states carry when state `u` holds `y` more.
proof fn lemma_inflow_add<W: Semiring>(f: FstView<W>, d: Seq<W>, u: int, y: W, q: int, n: nat)
    requires
        0 <= u < d.len(),
        n <= d.len(),
    ensures
        inflow(f, d.update(u, d[u].plus_spec(y)), q, n) == inflow(f, d, q, n).plus_spec(
            if u < n {
                carried_into(f.states[u].trs, y, q)
            } else {
                W::zero_spec()
            },
        ),
    decreases n,
{
    let e = d.update(u, d[u].plus_spec(y));
    if n == 0 {
        W::lemma_plus_zero(W::zero_spec());
    } else {
        lemma_inflow_add(f, d, u, y, q, (n - 1) as nat);
        let a = inflow(f, d, q, (n - 1) as nat);
        let t = carried_into(f.states[n - 1].trs, d[n - 1], q);
        let cy = carried_into(f.states[u].trs, y, q);
        if u == n - 1 {
            lemma_carried_into_sum(f.states[u].trs, d[u], y, q);
            W::lemma_plus_zero(a);
            W::lemma_plus_associative(a, t, cy);
        } else if u < n - 1 {
            lemma_plus_swap_last(a, cy, t);
        } else {
            W::lemma_plus_zero(a);
            W::lemma_plus_zero(a.plus_spec(t));
        }
    }
}

/// What the states carry into `q` depends only on what the states with a
/// transition into `q` hold.
proof fn lemma_inflow_congruent<W: Semiring>(f: FstView<W>, d: Seq<W>, e: Seq<W>, q: int, n: nat)
    requires
        n <= f.states.len(),
        n <= d.len(),
        n <= e.len(),
        forall|u: int, i: int|
            0 <= u < n && #[trigger] f.has_tr(u, i) && f.tr(u, i).nextstate == q ==> d[u] == e[u],
    ensures
        inflow(f, d, q, n) == inflow(f, e, q, n),
    decreases n,
{
    if n > 0 {
        lemma_inflow_congruent(f, d, e, q, (n - 1) as nat);
        lemma_carried_into_congruent(f, n - 1, f.states[n - 1].trs.len(), d[n - 1], e[n - 1], q);
        assert(f.states[n - 1].trs.take(f.states[n - 1].trs.len() as int) =~= f.states[n - 1].trs);
    }
}

proof fn lemma_carried_into_congruent<W: Semiring>(
    f: FstView<W>,
    u: int,
    m: nat,
    x: W,
    y: W,
    q: int,
)
    requires
        0 <= u < f.states.len(),
        m <= f.states[u].trs.len(),
        forall|i: int| #[trigger] f.has_tr(u, i) && f.tr(u, i).nextstate == q ==> x == y,
    ensures
        carried_into(f.states[u].trs.take(m as int), x, q) == carried_into(
            f.states[u].trs.take(m as int),
            y,
            q,
        ),
    decreases m,
{
    let trs = f.states[u].trs;
    if m > 0 {
        lemma_carried_into_congruent(f, u, (m - 1) as nat, x, y, q);
        assert(trs.take(m as int).drop_last() =~= trs.take(m - 1));
        assert(trs.take(m as int).last() == trs[m - 1]);
        assert(f.has_tr(u, m - 1));
    }
}

/// What the first `j + 1` transitions carry.
proof fn lemma_carried_into_take<W: Semiring>(trs: Seq<Tr<W>>, j: int, x: W, q: int)
    requires
        0 <= j < trs.len(),
    ensures
        carried_into(trs.take(j + 1), x, q) == carried_into(trs.take(j), x, q).plus_spec(
            carried_by(trs[j], x, q),
        ),
{
    assert(trs.take(j + 1).drop_last() =~= trs.take(j));
}

/// On a transducer without cycles the distance equations have one solution:
/// at each state the sum over all paths from the source, which have fewer
/// transitions than there are states.
pub proof fn lemma_distance_on_acyclic<W: Semiring>(f: FstView<W>, source: int, d: Seq<W>, k: nat)
    requires
        f.graph_wf(),
        f.is_acyclic(),
        solves_distance_equations(f, source, d),
    ensures
        forall|q: int|
            0 <= q < d.len() && (choose|rank: Seq<nat>| f.is_topological_rank(rank))[q] <= k
                ==> d[q] == #[trigger] distance_within(f, source, q, k),
        k >= f.states.len() ==> forall|q: int|
            0 <= q < d.len() ==> d[q] == #[trigger] distance_within(f, source, q, k),
    decreases k,
{
    let rank = choose|rank: Seq<nat>| f.is_topological_rank(rank);
    let n = f.states.len();
    if k > 0 {
        lemma_distance_on_acyclic(f, source, d, (k - 1) as nat);
    }
    assert forall|q: int| 0 <= q < d.len() && rank[q] <= k implies d[q] == #[trigger]
        distance_within(f, source, q, k) by {
        if k == 0 {
            let z = Seq::new(n, |u: int| W::zero_spec());
            assert forall|u: int, i: int|
                0 <= u < n && #[trigger] f.has_tr(u, i) && f.tr(u, i).nextstate == q implies d[u]
                == z[u] by {
                assert(rank[u] < rank[q]);
            }
            lemma_inflow_congruent(f, d, z, q, n);
            lemma_inflow_zero(f, z, q, n);
            W::lemma_plus_zero(source_weight::<W>(source, q));
        } else {
            let prev = distances_within(f, source, (k - 1) as nat);
            assert forall|u: int, i: int|
                0 <= u < n && #[trigger] f.has_tr(u, i) && f.tr(u, i).nextstate == q implies d[u]
                == prev[u] by {
                assert(rank[u] < rank[q]);
                assert(prev[u] == distance_within(f, source, u, (k - 1) as nat));
            }
            lemma_inflow_congruent(f, d, prev, q, n);
        }
    }
    if k >= n {
        assert forall|q: int| 0 <= q < d.len() implies d[q] == #[trigger] distance_within(
            f,
            source,
            q,
            k,
        ) by {
            assert(rank[q] < n);
        }
    }
}

/// Whether `x` is in the queue.
fn queue_contains(queue: &VecDeque<StateId>, x: StateId) -> (b: bool)
    ensures
        b == queue@.contains(x),
{
    let mut i: usize = 0;
    while i < queue.len()
        invariant
            i <= queue.len(),
            forall|j: int| 0 <= j < i ==> queue@[j] != x,
        decreases queue.len() - i,
    {
        if queue[i] == x {
            return true;
        }
        i += 1;
    }
    false
}

/// A vector of `n` copies of `w`.
fn filled<W: Semiring>(n: usize, w: W) -> (v: Vec<W>)
    ensures
        v@ == Seq::new(n as nat, |i: int| w),
{
    let mut v: Vec<W> = Vec::new();
    let mut i: usize = 0;
    while i < n
        invariant
            i <= n,
            v@ =~= Seq::new(i as nat, |j: int| w),
        decreases n - i,
    {
        v.push(w);
        i += 1;
    }
    v
}

/// What relaxation from `source` leaves in `d`. Where the source is no state
/// of the transducer every distance is `0̄`. Otherwise:
/// - `d` solves the distance equations;
/// - every vector that is closed under relaxation absorbs `d`, so that in an
///   idempotent semiring `d` is the least solution;
/// - a state with a distance other than `0̄` can be reached from the source;
/// - where no weight is lost on the way, every state that can be reached
///   from the source has a distance other than `0̄`;
/// - where the transducer has no cycle, each distance is the sum over all
///   paths from the source.
pub open spec fn is_single_source_distance<W: Semiring>(
    f: FstView<W>,
    source: StateId,
    d: Seq<W>,
) -> bool {
    &&& d.len() == f.states.len()
    &&& source >= f.states.len() ==> forall|q: int| 0 <= q < d.len() ==> d[q] == W::zero_spec()
    &&& source < f.states.len() ==> {
        &&& solves_distance_equations(f, source as int, d)
        &&& forall|e: Seq<W>| #[trigger] is_relaxation_closed(f, source as int, e) ==> absorbs(e, d)
        &&& forall|q: int|
            0 <= q < d.len() && d[q] != W::zero_spec() ==> #[trigger] f.reachable(source as int, q)
        &&& keeps_weights_nonzero(f) ==> forall|q: int|
            0 <= q < d.len() && #[trigger] f.reachable(source as int, q) ==> d[q]
                != W::zero_spec()
        &&& f.is_acyclic() ==> forall|q: int|
            0 <= q < d.len() ==> #[trigger] d[q] == distance_within(
                f,
                source as int,
                q,
                f.states.len(),
            )
    }
}

/// One relaxation keeps a closed vector absorbing: if `e` absorbs `x` at `u`
/// then it absorbs `x ⊗ w` at the target of a transition from `u` with
/// weight `w`.
proof fn lemma_closed_absorbs_step<W: Semiring>(
    f: FstView<W>,
    source: int,
    e: Seq<W>,
    u: int,
    i: int,
    x: W,
)
    requires
        is_relaxation_closed(f, source, e),
        f.has_tr(u, i),
        e[u].plus_spec(x) == e[u],
    ensures
        e[f.tr(u, i).nextstate as int].plus_spec(x.times_spec(f.tr(u, i).weight)) == e[f.tr(
            u,
            i,
        ).nextstate as int],
{
    let w = f.tr(u, i).weight;
    let ev = e[f.tr(u, i).nextstate as int];
    let c = x.times_spec(w);
    // ev = ev + eu*w = ev + (eu + x)*w = ev + (eu*w + x*w) = (ev + eu*w) + c = ev + c
    W::lemma_distributive(w, e[u], x);
    W::lemma_plus_associative(ev, e[u].times_spec(w), c);
}

/// If `e` absorbs `a` and `c` it absorbs their sum.
proof fn lemma_absorbs_sum<W: Semiring>(e: W, a: W, c: W)
    requires
        e.plus_spec(a) == e,
        e.plus_spec(c) == e,
    ensures
        e.plus_spec(a.plus_spec(c)) == e,
{
    W::lemma_plus_associative(e, a, c);
}

/// Computes the shortest distance from the state `state_id` to every state.
///
/// The transducer must have no cycle unless the semiring descends: on other
/// inputs relaxation need not end.
pub fn single_source_shortest_distance<W: Semiring, F: Fst<W>>(fst: &F, state_id: StateId) -> (r:
    Result<Vec<W>, FstError>)
    requires
        fst@.wf(),
        state_id < fst@.states.len() ==> W::descends() || fst@.is_acyclic(),
    ensures
        r matches Ok(d) && is_single_source_distance(fst@, state_id, d@),
{
    let n = fst.num_states();
    let zero = W::zero();
    let one = W::one();
    let mut d = filled(n, zero);
    let mut r = filled(n, zero);
    let ghost f = fst@;
    let ghost src = state_id as int;

    if state_id < n {
        d[state_id] = one;
        r[state_id] = one;
        let mut queue: VecDeque<StateId> = VecDeque::new();
        queue.push_back(state_id);
        let ghost rank: Seq<nat> = if W::descends() {
            Seq::empty()
        } else {
            choose|rank: Seq<nat>| f.is_topological_rank(rank)
        };
        let ghost mut p: Seq<W> = Seq::new(n as nat, |q: int| W::zero_spec());
        proof {
            assert forall|q: int| 0 <= q < n implies #[trigger] d@[q] == source_weight::<W>(
                src,
                q,
            ).plus_spec(inflow(f, p, q, n as nat)) && d@[q] == p[q].plus_spec(r@[q]) by {
                lemma_inflow_zero(f, p, q, n as nat);
                W::lemma_plus_zero(source_weight::<W>(src, q));
                W::lemma_plus_zero(r@[q]);
            }
            assert(queue@ =~= seq![state_id]);
            assert(queue@[0] == state_id);
            assert(f.is_path(src, Seq::empty(), src));
            assert forall|e: Seq<W>| #[trigger] is_relaxation_closed(f, src, e) implies absorbs(
                e,
                d@,
            ) && absorbs(e, r@) by {
                assert forall|q: int| 0 <= q < n implies (#[trigger] e[q]).plus_spec(d@[q]) == e[q]
                    && e[q].plus_spec(r@[q]) == e[q] by {
                    W::lemma_plus_zero(e[q]);
                }
            }
        }
        while queue.len() > 0
            invariant
                f == fst@,
                f.wf(),
                n == f.states.len(),
                src == state_id,
                zero == W::zero_spec(),
                d.len() == n,
                r.len() == n,
                state_id < n,
                queue@.no_duplicates(),
                forall|i: int| 0 <= i < queue@.len() ==> queue@[i] < n,
                forall|u: int| 0 <= u < n && r@[u] != zero ==> queue@.contains(u as usize),
                !W::descends() ==> f.is_topological_rank(rank),
                forall|e: Seq<W>| #[trigger]
                    is_relaxation_closed(f, src, e) ==> absorbs(e, d@) && absorbs(e, r@),
                forall|q: int|
                    0 <= q < n && (d@[q] != zero || r@[q] != zero) ==> #[trigger] f.reachable(
                        src,
                        q,
                    ),
                p.len() == n,
                forall|q: int|
                    0 <= q < n ==> #[trigger] d@[q] == source_weight::<W>(src, q).plus_spec(
                        inflow(f, p, q, n as nat),
                    ),
                forall|q: int| 0 <= q < n ==> #[trigger] d@[q] == p[q].plus_spec(r@[q]),
                keeps_weights_nonzero(f) ==> d@[src] != zero,
                keeps_weights_nonzero(f) ==> forall|x: int|
                    0 <= x < n && #[trigger] r@[x] != zero ==> d@[x] != zero,
                keeps_weights_nonzero(f) ==> forall|x: int, i: int|
                    0 <= x < n && d@[x] != zero && r@[x] == zero && #[trigger] f.has_tr(x, i)
                        ==> d@[f.tr(x, i).nextstate as int] != zero,
            decreases
                    (if W::descends() {
                        rank_sum(d@)
                    } else {
                        0
                    }),
                    (if W::descends() {
                        queue@.len()
                    } else {
                        queue_measure(n as nat, rank, queue@)
                    }),
        {
            let ghost queue_start = queue@;
            let ghost d_start = d@;
            let ghost r_start = r@;
            let u = queue.pop_front().unwrap();
            let r2 = r[u];
            r[u] = zero;
            let trs = fst.get_trs_unchecked(u);
            let ghost queue_popped = queue@;
            let ghost p_old = p;
            proof {
                p = p_old.update(u as int, p_old[u as int].plus_spec(r2));
                assert forall|q: int| 0 <= q < n implies #[trigger] d@[q] == p[q].plus_spec(
                    r@[q],
                ) by {
                    if q == u {
                        W::lemma_plus_zero(p[q]);
                    } else {
                        assert(r_start[q] == r@[q]);
                    }
                }
                assert forall|q: int| 0 <= q < n implies #[trigger] d@[q] == source_weight::<W>(
                    src,
                    q,
                ).plus_spec(inflow(f, p_old, q, n as nat)).plus_spec(
                    carried_into(trs@.take(0), r2, q),
                ) by {
                    assert(trs@.take(0) =~= Seq::<Tr<W>>::empty());
                    W::lemma_plus_zero(
                        source_weight::<W>(src, q).plus_spec(inflow(f, p_old, q, n as nat)),
                    );
                }
                if keeps_weights_nonzero(f) {
                    assert forall|i: int|
                        d@[u as int] != zero && r2 == zero && 0 <= i < trs@.len() implies d@[(#[trigger] trs@[i]).nextstate as int]
                        != zero by {
                        assert(f.has_tr(u as int, i));
                        assert(r_start[u as int] == zero);
                    }
                    assert forall|x: int, i: int|
                        0 <= x < n && x != u && d@[x] != zero && r@[x] == zero
                            && #[trigger] f.has_tr(x, i) implies d@[f.tr(x, i).nextstate as int]
                        != zero by {
                        assert(r_start[x] == r@[x]);
                    }
                }
                lemma_queue_measure_pop(n as nat, rank, queue_start);
                assert(queue_start[0] == u);
                assert forall|x: int| 0 <= x < n && r@[x] != zero implies queue@.contains(
                    x as usize,
                ) by {
                    let i = choose|i: int| 0 <= i < queue_start.len() && queue_start[i] == x as usize;
                    assert(i != 0);
                    assert(queue@[i - 1] == x as usize);
                }
                assert forall|e: Seq<W>| #[trigger] is_relaxation_closed(f, src, e) implies absorbs(
                    e,
                    r@,
                ) && e[u as int].plus_spec(r2) == e[u as int] by {
                    assert(absorbs(e, r_start));
                    assert forall|q: int| 0 <= q < n implies (#[trigger] e[q]).plus_spec(r@[q])
                        == e[q] by {
                        if q == u {
                            W::lemma_plus_zero(e[q]);
                        } else {
                            assert(r_start[q] == r@[q]);
                        }
                    }
                    assert(r_start[u as int] == r2);
                }
            }
            let mut j: usize = 0;
            while j < trs.len()
                invariant
                    f == fst@,
                    f.wf(),
                    n == f.states.len(),
                    src == state_id,
                    zero == W::zero_spec(),
                    d.len() == n,
                    r.len() == n,
                    state_id < n,
                    u < n,
                    trs@ == f.states[u as int].trs,
                    j <= trs.len(),
                    queue@.no_duplicates(),
                    forall|i: int| 0 <= i < queue@.len() ==> queue@[i] < n,
                    forall|x: int| 0 <= x < n && r@[x] != zero ==> queue@.contains(x as usize),
                    !W::descends() ==> f.is_topological_rank(rank),
                    forall|e: Seq<W>| #[trigger]
                        is_relaxation_closed(f, src, e) ==> absorbs(e, d@) && absorbs(e, r@)
                            && e[u as int].plus_spec(r2) == e[u as int],
                    forall|q: int|
                        0 <= q < n && (d@[q] != zero || r@[q] != zero) ==> #[trigger] f.reachable(
                            src,
                            q,
                        ),
                    r2 != zero ==> f.reachable(src, u as int),
                    p.len() == n,
                    p_old.len() == n,
                    p == p_old.update(u as int, p_old[u as int].plus_spec(r2)),
                    forall|q: int|
                        0 <= q < n ==> #[trigger] d@[q] == source_weight::<W>(src, q).plus_spec(
                            inflow(f, p_old, q, n as nat),
                        ).plus_spec(carried_into(trs@.take(j as int), r2, q)),
                    forall|q: int| 0 <= q < n ==> #[trigger] d@[q] == p[q].plus_spec(r@[q]),
                    keeps_weights_nonzero(f) ==> d@[src] != zero,
                    keeps_weights_nonzero(f) ==> forall|x: int|
                        0 <= x < n && #[trigger] r@[x] != zero ==> d@[x] != zero,
                    keeps_weights_nonzero(f) ==> (r2 != zero ==> d@[u as int] != zero),
                    keeps_weights_nonzero(f) ==> forall|x: int, i: int|
                        0 <= x < n && x != u && d@[x] != zero && r@[x] == zero
                            && #[trigger] f.has_tr(x, i) ==> d@[f.tr(x, i).nextstate as int]
                            != zero,
                    keeps_weights_nonzero(f) ==> forall|i: int|
                        d@[u as int] != zero && r2 != zero && 0 <= i < j ==> d@[(#[trigger] trs@[i]).nextstate as int]
                            != zero,
                    keeps_weights_nonzero(f) ==> forall|i: int|
                        d@[u as int] != zero && r2 == zero && 0 <= i < trs@.len() ==> d@[(#[trigger] trs@[i]).nextstate as int]
                            != zero,
                    queue@.len() >= queue_popped.len(),
                    W::descends() ==> rank_sum(d@) <= rank_sum(d_start) && (rank_sum(d@)
                        == rank_sum(d_start) ==> queue@ == queue_popped),
                    !W::descends() ==> (n + 1) * (queue_measure(n as nat, rank, queue@)
                        - queue_measure(n as nat, rank, queue_popped)) <= (queue@.len()
                        - queue_popped.len()) * rank_weight(n as nat, rank[u as int]),
                decreases trs.len() - j,
            {
                let tr = trs[j];
                let v = tr.nextstate;
                assert(f.has_tr(u as int, j as int) && f.tr(u as int, j as int) == tr);
                let c = r2.times(&tr.weight);
                let nd = d[v].plus(&c);
                let ghost d_prev = d@;
                let ghost r_prev = r@;
                proof {
                    assert forall|q: int| 0 <= q < n implies #[trigger] d_prev[q].plus_spec(
                        carried_by(tr, r2, q),
                    ) == source_weight::<W>(src, q).plus_spec(
                        inflow(f, p_old, q, n as nat),
                    ).plus_spec(carried_into(trs@.take(j as int + 1), r2, q)) by {
                        lemma_carried_into_take(trs@, j as int, r2, q);
                        W::lemma_plus_associative(
                            source_weight::<W>(src, q).plus_spec(inflow(f, p_old, q, n as nat)),
                            carried_into(trs@.take(j as int), r2, q),
                            carried_by(tr, r2, q),
                        );
                    }
                    assert forall|q: int| 0 <= q < n && q != v implies #[trigger] d_prev[q].plus_spec(
                        carried_by(tr, r2, q),
                    ) == d_prev[q] by {
                        W::lemma_plus_zero(d_prev[q]);
                    }
                    if keeps_weights_nonzero(f) {
                        if r2 != zero {
                            assert(c != zero);
                            assert(nd != zero);
                        } else {
                            W::lemma_times_zero(tr.weight);
                            W::lemma_plus_zero(d_prev[v as int]);
                        }
                    }
                }
                if !d[v].is_equal(&nd) {
                    let ghost d_before = d@;
                    let ghost r_before = r@;
                    let ghost queue_before = queue@;
                    let nr = r[v].plus(&c);
                    d[v] = nd;
                    r[v] = nr;
                    let queued = queue_contains(&queue, v);
                    if !queued {
                        queue.push_back(v);
                    }
                    proof {
                        // membership
                        assert forall|x: int|
                            0 <= x < n && r@[x] != zero implies queue@.contains(x as usize) by {
                            if x == v {
                                if !queued {
                                    assert(queue@[queue@.len() - 1] == v);
                                }
                            } else {
                                assert(r_before[x] == r@[x]);
                                let i = choose|i: int|
                                    0 <= i < queue_before.len() && queue_before[i] == x as usize;
                                assert(queue@[i] == x as usize);
                            }
                        }
                        assert(queue@.no_duplicates()) by {
                            if !queued {
                                assert(queue@ =~= queue_before.push(v));
                            }
                        }
                        // absorbed by every closed vector
                        assert forall|e: Seq<W>| #[trigger]
                            is_relaxation_closed(f, src, e) implies absorbs(e, d@) && absorbs(
                            e,
                            r@,
                        ) && e[u as int].plus_spec(r2) == e[u as int] by {
                            assert(absorbs(e, d_before) && absorbs(e, r_before));
                            lemma_closed_absorbs_step(f, src, e, u as int, j as int, r2);
                            lemma_absorbs_sum(e[v as int], d_before[v as int], c);
                            lemma_absorbs_sum(e[v as int], r_before[v as int], c);
                            assert forall|q: int| 0 <= q < n implies (#[trigger] e[q]).plus_spec(
                                d@[q],
                            ) == e[q] && e[q].plus_spec(r@[q]) == e[q] by {
                                if q != v {
                                    assert(d_before[q] == d@[q] && r_before[q] == r@[q]);
                                }
                            }
                        }
                        // the distance equations
                        assert forall|q: int| 0 <= q < n implies #[trigger] d@[q]
                            == source_weight::<W>(src, q).plus_spec(
                            inflow(f, p_old, q, n as nat),
                        ).plus_spec(carried_into(trs@.take(j as int + 1), r2, q)) by {
                            assert(d_prev[q].plus_spec(carried_by(tr, r2, q))
                                == source_weight::<W>(src, q).plus_spec(
                                inflow(f, p_old, q, n as nat),
                            ).plus_spec(carried_into(trs@.take(j as int + 1), r2, q)));
                            if q != v {
                                assert(d_prev[q].plus_spec(carried_by(tr, r2, q)) == d_prev[q]);
                            }
                        }
                        assert forall|q: int| 0 <= q < n implies #[trigger] d@[q] == p[q].plus_spec(
                            r@[q],
                        ) by {
                            if q == v {
                                W::lemma_plus_associative(p[q], r_prev[q], c);
                            } else {
                                assert(d_prev[q] == p[q].plus_spec(r_prev[q]));
                            }
                        }
                        // no weight lost
                        if keeps_weights_nonzero(f) {
                            assert(c != zero) by {
                                if c == zero {
                                    W::lemma_plus_zero(d_prev[v as int]);
                                }
                            }
                            assert(nd != zero);
                            assert(nr != zero);
                            assert forall|x: int, i: int|
                                0 <= x < n && x != u && d@[x] != zero && r@[x] == zero
                                    && #[trigger] f.has_tr(x, i) implies d@[f.tr(
                                x,
                                i,
                            ).nextstate as int] != zero by {
                                assert(x != v);
                                assert(d_prev[x] == d@[x] && r_prev[x] == r@[x]);
                                let t = f.tr(x, i).nextstate as int;
                                if t != v {
                                    assert(d_prev[t] == d@[t]);
                                }
                            }
                            assert forall|i: int|
                                d@[u as int] != zero && r2 != zero && 0 <= i < j + 1 implies d@[(#[trigger] trs@[i]).nextstate as int]
                                != zero by {
                                let t = trs@[i].nextstate as int;
                                assert(f.has_tr(u as int, i));
                                if t != v {
                                    assert(d_prev[t] == d@[t]);
                                    if i < j {
                                        assert(d_prev[u as int] != zero);
                                    }
                                }
                            }
                            assert forall|i: int|
                                d@[u as int] != zero && r2 == zero && 0 <= i < trs@.len() implies d@[(#[trigger] trs@[i]).nextstate as int]
                                != zero by {
                                W::lemma_times_zero(tr.weight);
                                assert(false);
                            }
                        }
                        // reachable
                        if c == zero {
                            W::lemma_plus_zero(d_before[v as int]);
                            assert(false);
                        }
                        if r2 == zero {
                            W::lemma_times_zero(tr.weight);
                            assert(false);
                        }
                        assert(f.reachable(src, v as int)) by {
                            let p = choose|p: Seq<(int, int)>| f.is_path(src, p, u as int);
                            f.lemma_path_push(src, p, u as int, j as int);
                        }
                        assert forall|q: int|
                            0 <= q < n && (d@[q] != zero || r@[q] != zero) implies #[trigger]
                            f.reachable(src, q) by {
                            if q != v {
                                assert(d_before[q] == d@[q] && r_before[q] == r@[q]);
                            }
                        }
                        // termination
                        if W::descends() {
                            W::lemma_descent(d_before[v as int], c);
                            lemma_rank_sum_update(d_before, v as int, nd);
                            assert(d@ =~= d_before.update(v as int, nd));
                        } else {
                            if !queued {
                                assert(queue@.drop_last() =~= queue_before);
                                lemma_rank_weight_step(
                                    n as nat,
                                    rank[u as int],
                                    rank[v as int],
                                );
                                let m1 = queue_measure(n as nat, rank, queue@) as int;
                                let m0 = queue_measure(n as nat, rank, queue_before) as int;
                                let mp = queue_measure(n as nat, rank, queue_popped) as int;
                                let wv = rank_weight(n as nat, rank[v as int]) as int;
                                let wu = rank_weight(n as nat, rank[u as int]) as int;
                                let k = queue_before.len() - queue_popped.len();
                                assert(m1 == m0 + wv);
                                assert((n + 1) * (m1 - mp) <= (k + 1) * wu) by (nonlinear_arith)
                                    requires
                                        m1 == m0 + wv,
                                        (n + 1) * (m0 - mp) <= k * wu,
                                        (n + 1) * wv <= wu,
                                ;
                            }
                        }
                    }
                } else {
                    proof {
                        assert forall|q: int| 0 <= q < n implies #[trigger] d@[q]
                            == source_weight::<W>(src, q).plus_spec(
                            inflow(f, p_old, q, n as nat),
                        ).plus_spec(carried_into(trs@.take(j as int + 1), r2, q)) by {
                            assert(d_prev[q].plus_spec(carried_by(tr, r2, q))
                                == source_weight::<W>(src, q).plus_spec(
                                inflow(f, p_old, q, n as nat),
                            ).plus_spec(carried_into(trs@.take(j as int + 1), r2, q)));
                            if q != v {
                                assert(d_prev[q].plus_spec(carried_by(tr, r2, q)) == d_prev[q]);
                            }
                        }
                        if keeps_weights_nonzero(f) {
                            assert forall|i: int|
                                d@[u as int] != zero && r2 != zero && 0 <= i < j + 1 implies d@[(#[trigger] trs@[i]).nextstate as int]
                                != zero by {}
                        }
                    }
                }
                j += 1;
            }
            proof {
                assert(trs@.take(trs@.len() as int) =~= trs@);
                assert forall|q: int| 0 <= q < n implies #[trigger] d@[q] == source_weight::<W>(
                    src,
                    q,
                ).plus_spec(inflow(f, p, q, n as nat)) by {
                    lemma_inflow_add(f, p_old, u as int, r2, q, n as nat);
                    W::lemma_plus_associative(
                        source_weight::<W>(src, q),
                        inflow(f, p_old, q, n as nat),
                        carried_into(trs@, r2, q),
                    );
                }
                if keeps_weights_nonzero(f) {
                    assert forall|x: int, i: int|
                        0 <= x < n && d@[x] != zero && r@[x] == zero && #[trigger] f.has_tr(
                            x,
                            i,
                        ) implies d@[f.tr(x, i).nextstate as int] != zero by {
                        if x == u {
                            assert(trs@[i] == f.tr(x, i));
                        }
                    }
                }
                if !W::descends() {
                    lemma_queue_len(n as nat, queue@);
                    lemma_rank_weight_step(n as nat, rank[u as int], n as nat);
                    let m1 = queue_measure(n as nat, rank, queue@) as int;
                    let mp = queue_measure(n as nat, rank, queue_popped) as int;
                    let wu = rank_weight(n as nat, rank[u as int]) as int;
                    let k = queue@.len() - queue_popped.len();
                    assert(m1 - mp < wu) by (nonlinear_arith)
                        requires
                            (n + 1) * (m1 - mp) <= k * wu,
                            0 <= k <= n,
                            wu >= 1,
                    ;
                }
            }
        }
        proof {
            assert forall|q: int| 0 <= q < n implies r@[q] == zero by {
                if r@[q] != zero {
                    assert(queue@.contains(q as usize));
                }
            }
            assert forall|q: int| 0 <= q < n implies p[q] == d@[q] by {
                W::lemma_plus_zero(p[q]);
            }
            assert(p =~= d@);
            assert(solves_distance_equations(f, src, d@));
            if keeps_weights_nonzero(f) {
                let closed = Set::new(|q: int| 0 <= q < n && d@[q] != zero);
                assert forall|q: int| 0 <= q < n && #[trigger] f.reachable(src, q) implies d@[q]
                    != zero by {
                    let path = choose|path: Seq<(int, int)>| f.is_path(src, path, q);
                    assert forall|x: int, i: int|
                        closed.contains(x) && #[trigger] f.has_tr(x, i) implies closed.contains(
                        f.tr(x, i).nextstate as int,
                    ) by {}
                    f.lemma_closed_set_holds_reachable(closed, src, path, q);
                }
            }
            if f.is_acyclic() {
                lemma_distance_on_acyclic(f, src, d@, n as nat);
            }
        }
    } else {
        assert forall|q: int| 0 <= q < d@.len() implies d@[q] == W::zero_spec() by {}
    }
    Ok(d)
}

/// What the transitions of a state carry into state `q` is what one of them
/// carries and a rest.
pub proof fn lemma_carried_into_has_term<W: Semiring>(trs: Seq<Tr<W>>, x: W, q: int, i: int) -> (rest:
    W)
    requires
        0 <= i < trs.len(),
    ensures
        carried_into(trs, x, q) == carried_by(trs[i], x, q).plus_spec(rest),
    decreases trs.len(),
{
    let front = trs.drop_last();
    if i == trs.len() - 1 {
        W::lemma_plus_commutative(carried_into(front, x, q), carried_by(trs.last(), x, q));
        carried_into(front, x, q)
    } else {
        let r = lemma_carried_into_has_term(front, x, q, i);
        assert(front[i] == trs[i]);
        W::lemma_plus_associative(carried_by(trs[i], x, q), r, carried_by(trs.last(), x, q));
        r.plus_spec(carried_by(trs.last(), x, q))
    }
}

/// What the first `n` states carry into state `q` is what one transition of
/// one of them carries and a rest.
pub proof fn lemma_inflow_has_term<W: Semiring>(
    f: FstView<W>,
    d: Seq<W>,
    q: int,
    n: nat,
    u: int,
    i: int,
) -> (rest: W)
    requires
        0 <= u < n,
        n <= f.states.len(),
        0 <= i < f.states[u].trs.len(),
    ensures
        inflow(f, d, q, n) == carried_by(f.states[u].trs[i], d[u], q).plus_spec(rest),
    decreases n,
{
    let before = inflow(f, d, q, (n - 1) as nat);
    let here = carried_into(f.states[n - 1].trs, d[n - 1], q);
    let term = carried_by(f.states[u].trs[i], d[u], q);
    if u == n - 1 {
        let r = lemma_carried_into_has_term(f.states[u].trs, d[u], q, i);
        W::lemma_plus_commutative(before, term.plus_spec(r));
        W::lemma_plus_associative(term, r, before);
        r.plus_spec(before)
    } else {
        let r = lemma_inflow_has_term(f, d, q, (n - 1) as nat, u, i);
        W::lemma_plus_associative(term, r, here);
        r.plus_spec(here)
    }
}

/// In a semiring with idempotent `⊕`, a vector that solves the distance
/// equations is closed under relaxation.
pub proof fn lemma_solution_is_closed<W: Semiring>(f: FstView<W>, source: int, d: Seq<W>)
    requires
        f.graph_wf(),
        0 <= source < f.states.len(),
        solves_distance_equations(f, source, d),
        forall|a: W| #[trigger] a.plus_spec(a) == a,
    ensures
        is_relaxation_closed(f, source, d),
{
    let n = f.states.len();
    let one = W::one_spec();
    assert(d[source].plus_spec(one) == d[source]) by {
        let rest = inflow(f, d, source, n);
        assert(d[source] == one.plus_spec(rest));
        W::lemma_plus_commutative(one.plus_spec(rest), one);
        W::lemma_plus_associative(one, one, rest);
        assert(one.plus_spec(one) == one);
    }
    assert forall|u: int, i: int| #[trigger] f.has_tr(u, i) implies d[f.tr(
        u,
        i,
    ).nextstate as int].plus_spec(d[u].times_spec(f.tr(u, i).weight)) == d[f.tr(
        u,
        i,
    ).nextstate as int] by {
        let v = f.tr(u, i).nextstate as int;
        let term = d[u].times_spec(f.tr(u, i).weight);
        let rest = lemma_inflow_has_term(f, d, v, n, u, i);
        let src = source_weight::<W>(source, v);
        assert(inflow(f, d, v, n) == term.plus_spec(rest));
        assert(d[v] == src.plus_spec(term.plus_spec(rest)));
        // (src ⊕ (term ⊕ rest)) ⊕ term = src ⊕ (term ⊕ rest)
        W::lemma_plus_associative(src, term.plus_spec(rest), term);
        W::lemma_plus_commutative(term.plus_spec(rest), term);
        W::lemma_plus_associative(term, term, rest);
        assert(term.plus_spec(term) == term);
    }
}

/// The distances are fixed by what is said of them: two vectors of which
/// each is the distance from the source are the same, on a transducer
/// without cycle and in a semiring that descends.
pub proof fn lemma_distance_is_unique<W: Semiring>(
    f: FstView<W>,
    source: StateId,
    d1: Seq<W>,
    d2: Seq<W>,
)
    requires
        f.graph_wf(),
        is_single_source_distance(f, source, d1),
        is_single_source_distance(f, source, d2),
        W::descends() || f.is_acyclic(),
    ensures
        d1 == d2,
{
    if source >= f.states.len() {
        assert(d1 =~= d2);
    } else if f.is_acyclic() {
        assert(d1 =~= d2);
    } else {
        assert forall|a: W| #[trigger] a.plus_spec(a) == a by {
            W::lemma_descent_idempotent(a);
        }
        lemma_solution_is_closed(f, source as int, d1);
        lemma_solution_is_closed(f, source as int, d2);
        assert(absorbs(d1, d2));
        assert(absorbs(d2, d1));
        assert forall|q: int| 0 <= q < d1.len() implies d1[q] == d2[q] by {
            assert(d1[q].plus_spec(d2[q]) == d1[q]);
            assert(d2[q].plus_spec(d1[q]) == d2[q]);
            W::lemma_plus_commutative(d1[q], d2[q]);
        }
        assert(d1 =~= d2);
    }
}

/// Computes the shortest distance from the start state to every state. With
/// no start state every distance is `0̄`.
pub fn shortest_distance<W: Semiring, F: Fst<W>>(fst: &F) -> (r: Result<Vec<W>, FstError>)
    requires
        fst@.wf(),
        fst@.start is Some ==> W::descends() || fst@.is_acyclic(),
    ensures
        r matches Ok(d) && (match fst@.start {
            Some(start) => is_single_source_distance(fst@, start, d@),
            None => d@ == Seq::new(fst@.states.len(), |q: int| W::zero_spec()),
        }),
{
    if let Some(start_state) = fst.start() {
        return single_source_shortest_distance(fst, start_state);
    }
    Ok(filled(fst.num_states(), W::zero()))
}

} // verus!
