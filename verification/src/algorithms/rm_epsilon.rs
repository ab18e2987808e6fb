//! The removal of ε-transitions.
//!
//! A transition is an ε-transition where both its labels are ε. From each
//! state the states that ε-transitions alone lead to are found, each with
//! its shortest distance along such transitions. The state then gets the
//! other transitions of all these states, and their final weights, each
//! multiplied by the distance of the state it comes from.

use vstd::prelude::*;
use crate::algorithms::dfs::{compute_top_order, lemma_topological_order_is_rank};
use crate::algorithms::shortest_distance::{
    is_single_source_distance, single_source_shortest_distance,
};
use crate::error::FstError;
use crate::fst_properties::FstProperties;
use crate::fst_traits::{Fst, MutableFst};
use crate::fst_view::{FstView, StateView};
use crate::pair_weight::final_weight_or_zero;
use crate::semirings::semiring::Semiring;
use crate::symbol_table::share_symbol_table;
use crate::tr::{Tr, EPS_LABEL};

verus! {

/// Whether both labels of the transition are ε.
pub open spec fn is_eps_tr<W: Semiring>(tr: Tr<W>) -> bool {
    tr.ilabel == EPS_LABEL && tr.olabel == EPS_LABEL
}

/// The ε-transitions among the transitions, in the order they had.
pub open spec fn eps_trs<W: Semiring>(trs: Seq<Tr<W>>) -> Seq<Tr<W>>
    decreases trs.len(),
{
    if trs.len() == 0 {
        trs
    } else if is_eps_tr(trs.last()) {
        eps_trs(trs.drop_last()).push(trs.last())
    } else {
        eps_trs(trs.drop_last())
    }
}

/// The transitions that are no ε-transitions, in the order they had, each
/// with its weight multiplied by `c` from the left.
pub open spec fn scaled_visible_trs<W: Semiring>(trs: Seq<Tr<W>>, c: W) -> Seq<Tr<W>>
    decreases trs.len(),
{
    if trs.len() == 0 {
        trs
    } else if is_eps_tr(trs.last()) {
        scaled_visible_trs(trs.drop_last(), c)
    } else {
        scaled_visible_trs(trs.drop_last(), c).push(
            trs.last().with_weight(c.times_spec(trs.last().weight)),
        )
    }
}

/// The transducer of the ε-transitions alone: the states of `f`, none of
/// them final, with the ε-transitions of `f` between them.
pub open spec fn eps_graph<W: Semiring>(f: FstView<W>) -> FstView<W> {
    FstView {
        start: None,
        states: Seq::new(
            f.states.len(),
            |s: int| StateView { final_weight: None, trs: eps_trs(f.states[s].trs) },
        ),
        properties: Set::empty(),
        isymt: None,
        osymt: None,
    }
}

/// The transitions that a state gets from the first `n` states, which it
/// reaches along ε-transitions with the distances `d`: of each state with a
/// distance other than `0̄` the transitions that are no ε-transitions, with
/// the distance in front of their weight.
pub open spec fn closure_trs<W: Semiring>(f: FstView<W>, d: Seq<W>, n: nat) -> Seq<Tr<W>>
    decreases n,
{
    if n == 0 {
        Seq::empty()
    } else if d[n - 1] == W::zero_spec() {
        closure_trs(f, d, (n - 1) as nat)
    } else {
        closure_trs(f, d, (n - 1) as nat) + scaled_visible_trs(f.states[n - 1].trs, d[n - 1])
    }
}

/// The final weight that a state gets from the first `n` states, which it
/// reaches along ε-transitions with the distances `d`: the `⊕`-sum of their
/// final weights, each with the distance in front.
pub open spec fn closure_final<W: Semiring>(f: FstView<W>, d: Seq<W>, n: nat) -> W
    decreases n,
{
    if n == 0 {
        W::zero_spec()
    } else {
        closure_final(f, d, (n - 1) as nat).plus_spec(
            d[n - 1].times_spec(final_weight_or_zero(f, n - 1)),
        )
    }
}

/// State `p` without ε-transitions, where `d` holds the distances from `p`
/// along ε-transitions.
pub open spec fn eps_removed_state<W: Semiring>(f: FstView<W>, d: Seq<W>) -> StateView<W> {
    StateView {
        final_weight: FstView::<W>::kept_final(closure_final(f, d, f.states.len())),
        trs: closure_trs(f, d, f.states.len()),
    }
}

/// The transducer without ε-transitions, where `dist[p]` holds the
/// distances from state `p` along ε-transitions. It has the start state and
/// the symbol tables of `f`, and no property bit.
pub open spec fn eps_removed<W: Semiring>(f: FstView<W>, dist: Seq<Seq<W>>) -> FstView<W> {
    FstView {
        start: f.start,
        states: Seq::new(f.states.len(), |p: int| eps_removed_state(f, dist[p])),
        properties: Set::empty(),
        isymt: f.isymt,
        osymt: f.osymt,
    }
}

/// Whether `dist` holds, for each state, the shortest distances from it
/// along ε-transitions.
pub open spec fn are_eps_distances<W: Semiring>(f: FstView<W>, dist: Seq<Seq<W>>) -> bool {
    &&& dist.len() == f.states.len()
    &&& forall|p: int|
        0 <= p < dist.len() ==> is_single_source_distance(
            eps_graph(f),
            p as usize,
            #[trigger] dist[p],
        )
}

/// The ε-transitions lead where transitions led.
pub proof fn lemma_eps_trs_targets<W: Semiring>(trs: Seq<Tr<W>>, bound: nat)
    requires
        forall|i: int| 0 <= i < trs.len() ==> (#[trigger] trs[i]).nextstate < bound,
    ensures
        forall|k: int| 0 <= k < eps_trs(trs).len() ==> (#[trigger] eps_trs(trs)[k]).nextstate
            < bound,
    decreases trs.len(),
{
    if trs.len() > 0 {
        let front = trs.drop_last();
        assert forall|i: int| 0 <= i < front.len() implies (#[trigger] front[i]).nextstate
            < bound by {
            assert(front[i] == trs[i]);
        }
        lemma_eps_trs_targets(front, bound);
        assert(trs.last() == trs[trs.len() - 1]);
        assert forall|k: int| 0 <= k < eps_trs(trs).len() implies (#[trigger] eps_trs(
            trs,
        )[k]).nextstate < bound by {
            if k < eps_trs(front).len() {
                assert(eps_trs(trs)[k] == eps_trs(front)[k]);
            }
        }
    }
}

/// The other transitions lead where transitions led, and none of them is an
/// ε-transition.
pub proof fn lemma_scaled_visible_trs<W: Semiring>(trs: Seq<Tr<W>>, c: W, bound: nat)
    requires
        forall|i: int| 0 <= i < trs.len() ==> (#[trigger] trs[i]).nextstate < bound,
    ensures
        forall|k: int|
            0 <= k < scaled_visible_trs(trs, c).len() ==> (#[trigger] scaled_visible_trs(
                trs,
                c,
            )[k]).nextstate < bound && !is_eps_tr(scaled_visible_trs(trs, c)[k]),
    decreases trs.len(),
{
    if trs.len() > 0 {
        let front = trs.drop_last();
        assert forall|i: int| 0 <= i < front.len() implies (#[trigger] front[i]).nextstate
            < bound by {
            assert(front[i] == trs[i]);
        }
        lemma_scaled_visible_trs(front, c, bound);
        assert(trs.last() == trs[trs.len() - 1]);
        let all = scaled_visible_trs(trs, c);
        assert forall|k: int| 0 <= k < all.len() implies (#[trigger] all[k]).nextstate < bound
            && !is_eps_tr(all[k]) by {
            if k < scaled_visible_trs(front, c).len() {
                assert(all[k] == scaled_visible_trs(front, c)[k]);
            }
        }
    }
}

/// What a state gets from the states it reaches holds no ε-transition, and
/// leads to states that exist.
pub proof fn lemma_closure_trs<W: Semiring>(f: FstView<W>, d: Seq<W>, n: nat)
    requires
        f.graph_wf(),
        n <= f.states.len(),
    ensures
        forall|k: int|
            0 <= k < closure_trs(f, d, n).len() ==> (#[trigger] closure_trs(f, d, n)[k]).nextstate
                < f.states.len() && !is_eps_tr(closure_trs(f, d, n)[k]),
    decreases n,
{
    if n > 0 {
        lemma_closure_trs(f, d, (n - 1) as nat);
        assert forall|i: int| 0 <= i < f.states[n - 1].trs.len() implies (#[trigger] f.states[n
            - 1].trs[i]).nextstate < f.states.len() by {
            assert(f.has_tr(n - 1, i));
        }
        lemma_scaled_visible_trs(f.states[n - 1].trs, d[n - 1], f.states.len());
        let before = closure_trs(f, d, (n - 1) as nat);
        let here = scaled_visible_trs(f.states[n - 1].trs, d[n - 1]);
        let all = closure_trs(f, d, n);
        assert forall|k: int| 0 <= k < all.len() implies (#[trigger] all[k]).nextstate
            < f.states.len() && !is_eps_tr(all[k]) by {
            if k < before.len() {
                assert(all[k] == before[k]);
            } else {
                assert(all[k] == here[k - before.len()]);
            }
        }
    }
}

/// The transducer without ε-transitions holds none, whatever the
/// distances.
pub proof fn lemma_eps_removed_has_no_eps<W: Semiring>(f: FstView<W>, dist: Seq<Seq<W>>)
    requires
        f.graph_wf(),
    ensures
        eps_removed(f, dist).graph_wf(),
        forall|p: int, i: int| #[trigger]
            eps_removed(f, dist).has_tr(p, i) ==> !is_eps_tr(eps_removed(f, dist).tr(p, i)),
{
    let g = eps_removed(f, dist);
    assert forall|p: int, i: int| #[trigger] g.has_tr(p, i) implies !is_eps_tr(g.tr(p, i)) && g.tr(
        p,
        i,
    ).nextstate < g.states.len() by {
        lemma_closure_trs(f, dist[p], f.states.len());
    }
}

/// The ε-transitions among the transitions.
fn keep_eps_trs<W: Semiring>(trs: &[Tr<W>]) -> (kept: Vec<Tr<W>>)
    ensures
        kept@ == eps_trs(trs@),
{
    let mut kept: Vec<Tr<W>> = Vec::new();
    let mut i: usize = 0;
    assert(trs@.take(0) =~= Seq::<Tr<W>>::empty());
    while i < trs.len()
        invariant
            i <= trs.len(),
            kept@ == eps_trs(trs@.take(i as int)),
        decreases trs.len() - i,
    {
        assert(trs@.take(i + 1).drop_last() =~= trs@.take(i as int));
        if trs[i].ilabel == EPS_LABEL && trs[i].olabel == EPS_LABEL {
            kept.push(trs[i]);
        }
        i += 1;
    }
    assert(trs@.take(trs@.len() as int) =~= trs@);
    kept
}

/// Appends to `out` the transitions that are no ε-transitions, each with
/// `c` in front of its weight.
fn push_scaled_visible_trs<W: Semiring>(out: &mut Vec<Tr<W>>, trs: &[Tr<W>], c: &W)
    ensures
        final(out)@ == old(out)@ + scaled_visible_trs(trs@, *c),
{
    let ghost before = out@;
    let mut i: usize = 0;
    assert(trs@.take(0) =~= Seq::<Tr<W>>::empty());
    assert(out@ =~= before + scaled_visible_trs(trs@.take(0), *c));
    while i < trs.len()
        invariant
            i <= trs.len(),
            out@ == before + scaled_visible_trs(trs@.take(i as int), *c),
        decreases trs.len() - i,
    {
        assert(trs@.take(i + 1).drop_last() =~= trs@.take(i as int));
        let tr = trs[i];
        if !(tr.ilabel == EPS_LABEL && tr.olabel == EPS_LABEL) {
            out.push(Tr::new(tr.ilabel, tr.olabel, c.times(&tr.weight), tr.nextstate));
            assert(out@ =~= before + scaled_visible_trs(trs@.take(i + 1), *c));
        }
        i += 1;
    }
    assert(trs@.take(trs@.len() as int) =~= trs@);
}

/// The transducer of the ε-transitions of `fst` alone.
fn build_eps_graph<W: Semiring, F1: Fst<W>, F2: MutableFst<W>>(fst: &F1) -> (graph: F2)
    requires
        fst@.graph_wf(),
    ensures
        graph@ == eps_graph(fst@),
        graph@.wf(),
{
    let ghost f = fst@;
    let n = fst.num_states();
    let mut graph = F2::new();
    graph.add_states(n);
    proof {
        graph@.lemma_with_properties_wf(Set::empty());
    }
    graph.set_properties(FstProperties::empty());
    let mut s: usize = 0;
    while s < n
        invariant
            s <= n,
            f == fst@,
            f.graph_wf(),
            n == f.states.len(),
            graph@.wf(),
            graph@.start is None,
            graph@.isymt is None,
            graph@.osymt is None,
            graph@.properties == Set::<u64>::empty(),
            graph@.states.len() == n,
            forall|t: int| 0 <= t < s ==> #[trigger] graph@.states[t] == eps_graph(f).states[t],
            forall|t: int| s <= t < n ==> #[trigger] graph@.states[t] == StateView::<W>::empty(),
        decreases n - s,
    {
        let ghost before = graph@;
        let kept = keep_eps_trs(fst.get_trs_unchecked(s));
        proof {
            assert forall|i: int| 0 <= i < f.states[s as int].trs.len() implies (#[trigger] f.states[s as int].trs[i]).nextstate
                < n by {
                assert(f.has_tr(s as int, i));
            }
            lemma_eps_trs_targets(f.states[s as int].trs, n as nat);
        }
        graph.set_trs_unchecked(s, kept);
        proof {
            assert(before.states[s as int] == StateView::<W>::empty());
            assert forall|t: int| 0 <= t < s + 1 implies #[trigger] graph@.states[t] == eps_graph(
                f,
            ).states[t] by {
                if t < s {
                    assert(before.states[t] == eps_graph(f).states[t]);
                }
            }
            assert forall|t: int| s + 1 <= t < n implies #[trigger] graph@.states[t]
                == StateView::<W>::empty() by {
                assert(before.states[t] == StateView::<W>::empty());
            }
        }
        s += 1;
    }
    proof {
        assert(graph@.states =~= eps_graph(f).states);
        assert(graph@ =~= eps_graph(f));
    }
    graph
}

/// What a state gets from the states that it reaches along ε-transitions
/// with the distances `d`.
fn close_state<W: Semiring, F: Fst<W>>(fst: &F, d: &Vec<W>) -> (r: (Vec<Tr<W>>, W))
    requires
        d@.len() == fst@.states.len(),
    ensures
        r.0@ == closure_trs(fst@, d@, fst@.states.len()),
        r.1 == closure_final(fst@, d@, fst@.states.len()),
{
    let ghost f = fst@;
    let n = fst.num_states();
    let mut trs: Vec<Tr<W>> = Vec::new();
    let mut weight = W::zero();
    let mut q: usize = 0;
    while q < n
        invariant
            q <= n,
            f == fst@,
            n == f.states.len(),
            d@.len() == n,
            trs@ == closure_trs(f, d@, q as nat),
            weight == closure_final(f, d@, q as nat),
        decreases n - q,
    {
        let c = d[q];
        if !c.is_zero() {
            push_scaled_visible_trs(&mut trs, fst.get_trs_unchecked(q), &c);
        }
        let rho = match fst.final_weight_unchecked(q) {
            Some(w) => w,
            None => W::zero(),
        };
        weight = weight.plus(&c.times(&rho));
        q += 1;
    }
    (trs, weight)
}

/// The transducer without its ε-transitions: each state gets the other
/// transitions and the final weights of the states that ε-transitions
/// alone lead to from it, each with the shortest distance to that state in
/// front. States and start state stay as they are.
///
/// Where updates of a weight need not come to an end and the ε-transitions
/// form a cycle, the distances cannot be had: the transducer is refused.
pub fn rm_epsilon<W: Semiring, F1: Fst<W>, F2: MutableFst<W>>(ifst: &F1) -> (r: Result<
    F2,
    FstError,
>)
    requires
        ifst@.wf(),
    ensures
        match r {
            Ok(g) => g@.wf() && (exists|dist: Seq<Seq<W>>| #[trigger]
                are_eps_distances(ifst@, dist) && g@ == eps_removed(ifst@, dist)) && (forall|
                p: int,
                i: int,
            | #[trigger] g@.has_tr(p, i) ==> !is_eps_tr(g@.tr(p, i))),
            Err(e) => e == FstError::NotConvergent && !W::descends() && eps_graph(
                ifst@,
            ).has_cycle(),
        },
{
    let ghost f = ifst@;
    let n = ifst.num_states();
    let graph: F2 = build_eps_graph(ifst);
    if !W::is_descending() {
        match compute_top_order(&graph) {
            Some(order) => {
                proof {
                    lemma_topological_order_is_rank(graph@, order@);
                }
            },
            None => {
                return Err(FstError::NotConvergent);
            },
        }
    }
    let mut out = F2::new();
    out.add_states(n);
    match ifst.start() {
        Some(start) => {
            out.set_start_unchecked(start);
        },
        None => {},
    }
    match ifst.input_symbols() {
        Some(symt) => {
            out.set_input_symbols(share_symbol_table(symt));
        },
        None => {},
    }
    match ifst.output_symbols() {
        Some(symt) => {
            out.set_output_symbols(share_symbol_table(symt));
        },
        None => {},
    }
    proof {
        out@.lemma_with_properties_wf(Set::empty());
    }
    out.set_properties(FstProperties::empty());
    let ghost mut dist: Seq<Seq<W>> = Seq::empty();
    let mut p: usize = 0;
    while p < n
        invariant
            p <= n,
            f == ifst@,
            f.wf(),
            n == f.states.len(),
            graph@ == eps_graph(f),
            graph@.wf(),
            W::descends() || graph@.is_acyclic(),
            out@.wf(),
            out@.start == f.start,
            out@.isymt == f.isymt,
            out@.osymt == f.osymt,
            out@.properties == Set::<u64>::empty(),
            out@.states.len() == n,
            dist.len() == p,
            forall|t: int|
                0 <= t < p ==> is_single_source_distance(eps_graph(f), t as usize, #[trigger] dist[t]),
            forall|t: int| 0 <= t < p ==> #[trigger] out@.states[t] == eps_removed_state(f, dist[t]),
            forall|t: int| p <= t < n ==> #[trigger] out@.states[t] == StateView::<W>::empty(),
        decreases n - p,
    {
        let ghost before = out@;
        let d = match single_source_shortest_distance(&graph, p) {
            Ok(d) => d,
            Err(e) => {
                proof {
                    assert(false);
                }
                return Err(e);
            },
        };
        let (trs, weight) = close_state(ifst, &d);
        proof {
            lemma_closure_trs(f, d@, n as nat);
            assert(before.states[p as int] == StateView::<W>::empty());
        }
        out.set_trs_unchecked(p, trs);
        out.set_final_unchecked(p, weight);
        proof {
            out@.lemma_with_properties_wf(Set::empty());
        }
        out.set_properties(FstProperties::empty());
        proof {
            let ghost earlier = dist;
            dist = dist.push(d@);
            assert forall|t: int| 0 <= t < p + 1 implies is_single_source_distance(
                eps_graph(f),
                t as usize,
                #[trigger] dist[t],
            ) by {
                if t < p {
                    assert(dist[t] == earlier[t]);
                }
            }
            assert forall|t: int| 0 <= t < p + 1 implies #[trigger] out@.states[t]
                == eps_removed_state(f, dist[t]) by {
                if t < p {
                    assert(dist[t] == earlier[t]);
                    assert(before.states[t] == eps_removed_state(f, earlier[t]));
                }
            }
            assert forall|t: int| p + 1 <= t < n implies #[trigger] out@.states[t]
                == StateView::<W>::empty() by {
                assert(before.states[t] == StateView::<W>::empty());
            }
        }
        p += 1;
    }
    proof {
        assert(are_eps_distances(f, dist));
        assert(out@.states =~= eps_removed(f, dist).states);
        assert(out@ =~= eps_removed(f, dist));
        lemma_eps_removed_has_no_eps(f, dist);
    }
    Ok(out)
}

} // verus!
