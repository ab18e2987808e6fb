//! Trimming: removing the states that lie on no successful path.

use vstd::prelude::*;
use crate::error::FstError;
use crate::algorithms::shortest_distance::{is_single_source_distance, keeps_weights_nonzero};
use crate::fst_traits::{Fst, MutableFst};
use crate::fst_view::{FstView, Step};
use crate::fst_view_delete::{
    kept_below, kept_tr_index, lemma_kept_below_bound, lemma_kept_below_monotone,
    lemma_kept_states_index, lemma_kept_states_origin, lemma_kept_tr_at_index,
    lemma_kept_trs_origin, listed, moved_tr,
};
use crate::semirings::semiring::Semiring;
use crate::tr::StateId;

verus! {

/// The number of flags that are not set.
pub open spec fn count_unset(flags: Seq<bool>) -> nat
    decreases flags.len(),
{
    if flags.len() == 0 {
        0
    } else {
        count_unset(flags.drop_last()) + if flags.last() {
            0nat
        } else {
            1nat
        }
    }
}

/// Setting a flag that was not set leaves one unset flag less.
pub proof fn lemma_count_unset_update(flags: Seq<bool>, v: int)
    requires
        0 <= v < flags.len(),
        !flags[v],
    ensures
        count_unset(flags.update(v, true)) + 1 == count_unset(flags),
    decreases flags.len(),
{
    let g = flags.update(v, true);
    if v == flags.len() - 1 {
        assert(g.drop_last() =~= flags.drop_last());
    } else {
        lemma_count_unset_update(flags.drop_last(), v);
        assert(g.drop_last() =~= flags.drop_last().update(v, true));
    }
}

/// The states that lie on no path from the start state to a final state.
pub open spec fn unconnected<W: Semiring>(f: FstView<W>) -> Set<int> {
    Set::new(|s: int| 0 <= s < f.states.len() && !(f.accessible(s) && f.coaccessible(s)))
}

/// A vector of `n` flags, none of them set.
fn unset_flags(n: usize) -> (flags: Vec<bool>)
    ensures
        flags.len() == n,
        forall|s: int| 0 <= s < n ==> !flags@[s],
{
    let mut flags: Vec<bool> = Vec::new();
    let mut s: usize = 0;
    while s < n
        invariant
            s <= n,
            flags.len() == s,
            forall|t: int| 0 <= t < s ==> !flags@[t],
        decreases n - s,
    {
        flags.push(false);
        s += 1;
    }
    flags
}

/// For each state, whether it can be reached from the start state.
pub fn accessible_states<W: Semiring, F: Fst<W>>(fst: &F) -> (acc: Vec<bool>)
    requires
        fst@.graph_wf(),
    ensures
        acc.len() == fst@.states.len(),
        forall|s: int| 0 <= s < acc.len() ==> acc@[s] == fst@.accessible(s),
{
    let ghost f = fst@;
    let n = fst.num_states();
    let mut acc = unset_flags(n);
    let start = match fst.start() {
        Some(start) => start,
        None => {
            return acc;
        },
    };
    let ghost src = start as int;
    let mut stack: Vec<StateId> = Vec::new();
    acc[start] = true;
    stack.push(start);
    proof {
        assert(f.is_path(src, Seq::empty(), src));
        assert(stack@[0] == start);
    }
    while stack.len() > 0
        invariant
            f == fst@,
            f.graph_wf(),
            n == f.states.len(),
            acc.len() == n,
            f.start == Some(start),
            src == start,
            acc@[src],
            forall|s: int| 0 <= s < n && acc@[s] ==> #[trigger] f.reachable(src, s),
            forall|k: int|
                0 <= k < stack@.len() ==> (#[trigger] stack@[k]) < n && acc@[stack@[k] as int],
            forall|s: int, i: int|
                0 <= s < n && acc@[s] && !stack@.contains(s as usize) && #[trigger] f.has_tr(s, i)
                    ==> acc@[f.tr(s, i).nextstate as int],
        decreases stack@.len() + 2 * count_unset(acc@),
    {
        let ghost stack_before = stack@;
        let ghost acc_before = acc@;
        let u = stack.pop().unwrap();
        let trs = fst.get_trs_unchecked(u);
        let mut i: usize = 0;
        proof {
            assert(stack@ =~= stack_before.drop_last());
            assert forall|x: StateId| stack@.contains(x) implies stack_before.contains(x) by {
                let k = choose|k: int| 0 <= k < stack@.len() && stack@[k] == x;
                assert(stack_before[k] == x);
            }
            assert forall|x: StateId| stack_before.contains(x) && x != u implies stack@.contains(
                x,
            ) by {
                let k = choose|k: int| 0 <= k < stack_before.len() && stack_before[k] == x;
                assert(stack@[k] == x);
            }
            assert(stack_before[stack_before.len() - 1] == u);
        }
        while i < trs.len()
            invariant
                i <= trs.len(),
                f == fst@,
                f.graph_wf(),
                n == f.states.len(),
                acc.len() == n,
                u < n,
                src == start,
                trs@ == f.states[u as int].trs,
                acc@[src],
                acc@[u as int],
                forall|s: int| 0 <= s < n && acc@[s] ==> #[trigger] f.reachable(src, s),
                forall|k: int|
                    0 <= k < stack@.len() ==> (#[trigger] stack@[k]) < n && acc@[stack@[k] as int],
                forall|s: int, j: int|
                    0 <= s < n && s != u && acc@[s] && !stack@.contains(s as usize)
                        && #[trigger] f.has_tr(s, j) ==> acc@[f.tr(s, j).nextstate as int],
                forall|j: int| 0 <= j < i ==> acc@[(#[trigger] trs@[j]).nextstate as int],
                stack@.len() + 2 * count_unset(acc@) + 1 <= stack_before.len() + 2 * count_unset(
                    acc_before,
                ),
            decreases trs.len() - i,
        {
            let v = trs[i].nextstate;
            assert(f.has_tr(u as int, i as int) && f.tr(u as int, i as int).nextstate == v);
            assert(f.reachable(src, u as int));
            if !acc[v] {
                let ghost acc0 = acc@;
                let ghost stack0 = stack@;
                acc[v] = true;
                stack.push(v);
                proof {
                    lemma_count_unset_update(acc0, v as int);
                    assert(acc@ =~= acc0.update(v as int, true));
                    assert(stack@[stack@.len() - 1] == v);
                    assert(f.reachable(src, v as int)) by {
                        let p = choose|p: Seq<Step>| f.is_path(src, p, u as int);
                        f.lemma_path_push(src, p, u as int, i as int);
                    }
                    assert forall|x: StateId| stack0.contains(x) implies stack@.contains(x) by {
                        let k = choose|k: int| 0 <= k < stack0.len() && stack0[k] == x;
                        assert(stack@[k] == x);
                    }
                    assert forall|k: int| 0 <= k < stack@.len() implies (#[trigger] stack@[k]) < n
                        && acc@[stack@[k] as int] by {
                        if k < stack0.len() {
                            assert(stack@[k] == stack0[k]);
                            assert(acc0[stack0[k] as int]);
                        }
                    }
                    assert forall|j: int| 0 <= j < i + 1 implies acc@[(#[trigger] trs@[j]).nextstate as int] by {
                        assert(f.has_tr(u as int, j));
                        if j < i {
                            assert(acc0[trs@[j].nextstate as int]);
                        }
                    }
                    assert forall|s: int, j: int|
                        0 <= s < n && s != u && acc@[s] && !stack@.contains(s as usize)
                            && #[trigger] f.has_tr(s, j) implies acc@[f.tr(
                        s,
                        j,
                    ).nextstate as int] by {
                        assert(s != v);
                        assert(acc0[s]);
                        assert(!stack0.contains(s as usize));
                        assert(acc0[f.tr(s, j).nextstate as int]);
                    }
                }
            }
            i += 1;
        }
        proof {
            assert forall|s: int, j: int|
                0 <= s < n && acc@[s] && !stack@.contains(s as usize) && #[trigger] f.has_tr(
                    s,
                    j,
                ) implies acc@[f.tr(s, j).nextstate as int] by {
                if s == u {
                    assert(trs@[j] == f.tr(s, j));
                }
            }
        }
    }
    proof {
        let closed = Set::new(|s: int| 0 <= s < n && acc@[s]);
        assert forall|s: int| 0 <= s < n && f.accessible(s) implies acc@[s] by {
            let p = choose|p: Seq<Step>| f.is_path(src, p, s);
            assert forall|x: int, j: int|
                closed.contains(x) && #[trigger] f.has_tr(x, j) implies closed.contains(
                f.tr(x, j).nextstate as int,
            ) by {
                assert(!stack@.contains(x as usize));
            }
            f.lemma_closed_set_holds_reachable(closed, src, p, s);
        }
    }
    acc
}

/// For each state, whether a final state can be reached from it.
pub fn coaccessible_states<W: Semiring, F: Fst<W>>(fst: &F) -> (co: Vec<bool>)
    requires
        fst@.graph_wf(),
    ensures
        co.len() == fst@.states.len(),
        forall|s: int| 0 <= s < co.len() ==> co@[s] == fst@.coaccessible(s),
{
    let ghost f = fst@;
    let n = fst.num_states();
    let mut co: Vec<bool> = Vec::new();
    let mut s: usize = 0;
    while s < n
        invariant
            s <= n,
            f == fst@,
            n == f.states.len(),
            co.len() == s,
            forall|t: int| 0 <= t < s ==> co@[t] == f.is_final(t),
        decreases n - s,
    {
        co.push(fst.final_weight_unchecked(s).is_some());
        s += 1;
    }
    proof {
        assert forall|t: int| 0 <= t < n && co@[t] implies #[trigger] f.coaccessible(t) by {
            assert(f.is_path(t, Seq::empty(), t));
            assert(f.reachable(t, t));
        }
    }
    let mut changed = true;
    while changed
        invariant
            f == fst@,
            f.graph_wf(),
            n == f.states.len(),
            co.len() == n,
            forall|t: int| 0 <= t < n && co@[t] ==> #[trigger] f.coaccessible(t),
            forall|t: int| 0 <= t < n && f.is_final(t) ==> co@[t],
            !changed ==> forall|t: int, i: int|
                #[trigger] f.has_tr(t, i) && co@[f.tr(t, i).nextstate as int] ==> co@[t],
        decreases count_unset(co@) + if changed { 1nat } else { 0nat },
    {
        changed = false;
        let ghost co0 = co@;
        let mut s: usize = n;
        while s > 0
            invariant
                s <= n,
                f == fst@,
                f.graph_wf(),
                n == f.states.len(),
                co.len() == n,
                forall|t: int| 0 <= t < n && co@[t] ==> #[trigger] f.coaccessible(t),
                forall|t: int| 0 <= t < n && f.is_final(t) ==> co@[t],
                forall|t: int| 0 <= t < n && co0[t] ==> co@[t],
                !changed ==> co@ == co0,
                changed ==> count_unset(co@) < count_unset(co0),
                !changed ==> forall|t: int, i: int|
                    s <= t && #[trigger] f.has_tr(t, i) && co@[f.tr(t, i).nextstate as int]
                        ==> co@[t],
            decreases s,
        {
            s -= 1;
            if !co[s] {
                let trs = fst.get_trs_unchecked(s);
                let mut found = false;
                let mut i: usize = 0;
                while i < trs.len() && !found
                    invariant
                        i <= trs.len(),
                        n == f.states.len(),
                        co.len() == n,
                        s < n,
                        f.graph_wf(),
                        trs@ == f.states[s as int].trs,
                        !found ==> forall|j: int|
                            0 <= j < i ==> !co@[(#[trigger] trs@[j]).nextstate as int],
                        found ==> exists|j: int|
                            0 <= j < trs@.len() && co@[(#[trigger] trs@[j]).nextstate as int],
                    decreases trs.len() - i + if found { 0nat } else { 1nat },
                {
                    assert(f.has_tr(s as int, i as int));
                    if co[trs[i].nextstate] {
                        found = true;
                    } else {
                        i += 1;
                    }
                }
                if found {
                    let ghost before = co@;
                    co[s] = true;
                    changed = true;
                    proof {
                        lemma_count_unset_update(before, s as int);
                        assert(co@ =~= before.update(s as int, true));
                        let j = choose|j: int|
                            0 <= j < trs@.len() && before[(#[trigger] trs@[j]).nextstate as int];
                        assert(f.has_tr(s as int, j));
                        let v = f.tr(s as int, j).nextstate as int;
                        assert(f.coaccessible(v));
                        let t = choose|t: int| f.reachable(v, t) && f.is_final(t);
                        let p = choose|p: Seq<Step>| f.is_path(v, p, t);
                        let q = seq![(s as int, j)] + p;
                        assert(q.drop_first() =~= p);
                        assert(f.is_path(s as int, q, t));
                        assert(f.reachable(s as int, t));
                        assert(f.coaccessible(s as int));
                    }
                } else {
                    proof {
                        if !changed {
                            assert forall|t: int, i: int|
                                s <= t && #[trigger] f.has_tr(t, i) && co@[f.tr(
                                    t,
                                    i,
                                ).nextstate as int] implies co@[t] by {
                                if t == s {
                                    assert(trs@[i] == f.tr(t, i));
                                }
                            }
                        }
                    }
                }
            }
        }
    }
    proof {
        let open = Set::new(|x: int| 0 <= x < n && !co@[x]);
        assert forall|x: int| 0 <= x < n && f.coaccessible(x) implies co@[x] by {
            if !co@[x] {
                let t = choose|t: int| f.reachable(x, t) && f.is_final(t);
                let p = choose|p: Seq<Step>| f.is_path(x, p, t);
                assert forall|y: int, j: int|
                    open.contains(y) && #[trigger] f.has_tr(y, j) implies open.contains(
                    f.tr(y, j).nextstate as int,
                ) by {}
                f.lemma_closed_set_holds_reachable(open, x, p, t);
                assert(false);
            }
        }
    }
    co
}

/// Removes the states that lie on no path from the start state to a final
/// state, and with them the transitions that lead to them. The states that
/// stay keep their order, so that a transducer without cycle has none
/// afterwards, and a sorted one stays sorted.
pub fn connect<W: Semiring, F: MutableFst<W>>(fst: &mut F) -> (r: Result<(), FstError>)
    requires
        old(fst)@.wf(),
    ensures
        r is Ok,
        final(fst)@.wf(),
        final(fst)@ == old(fst)@.del_states(unconnected(old(fst)@)),
        old(fst)@.is_acyclic() ==> final(fst)@.is_acyclic(),
{
    let ghost f = fst@;
    let n = fst.num_states();
    proof {
        if f.is_acyclic() {
            crate::fst_view_delete::lemma_del_states_keeps_acyclic(f, unconnected(f));
        }
    }
    let acc = accessible_states(&*fst);
    let co = coaccessible_states(&*fst);
    let mut dead: Vec<StateId> = Vec::new();
    let mut s: usize = 0;
    while s < n
        invariant
            s <= n,
            n == f.states.len(),
            acc.len() == n,
            co.len() == n,
            forall|t: int| 0 <= t < n ==> acc@[t] == f.accessible(t),
            forall|t: int| 0 <= t < n ==> co@[t] == f.coaccessible(t),
            forall|k: int| 0 <= k < dead@.len() ==> (#[trigger] dead@[k]) < s && unconnected(
                f,
            ).contains(dead@[k] as int),
            forall|t: int| 0 <= t < s && unconnected(f).contains(t) ==> dead@.contains(t as usize),
        decreases n - s,
    {
        if !(acc[s] && co[s]) {
            let ghost before = dead@;
            dead.push(s);
            proof {
                assert(dead@[dead@.len() - 1] == s);
                assert forall|t: int|
                    0 <= t < s + 1 && unconnected(f).contains(t) implies dead@.contains(
                    t as usize,
                ) by {
                    if t < s {
                        let k = choose|k: int| 0 <= k < before.len() && before[k] == t as usize;
                        assert(dead@[k] == t as usize);
                    }
                }
            }
        }
        s += 1;
    }
    proof {
        assert forall|t: int| listed(dead@).contains(t) == unconnected(f).contains(t) by {
            if listed(dead@).contains(t) {
                let k = choose|k: int| 0 <= k < dead@.len() && dead@[k] == t;
                assert(unconnected(f).contains(dead@[k] as int));
            }
            if unconnected(f).contains(t) {
                assert(dead@.contains(t as usize));
                let k = choose|k: int| 0 <= k < dead@.len() && dead@[k] == t as usize;
                assert(dead@[k] == t);
            }
        }
        assert(listed(dead@) =~= unconnected(f));
    }
    match fst.del_states(dead.as_slice()) {
        Ok(_) => Ok(()),
        Err(_) => {
            proof {
                assert(false);
            }
            Ok(())
        },
    }
}

/// The steps of a path as they are found after the states in `dead` were
/// removed.
pub open spec fn kept_steps<W: Semiring>(f: FstView<W>, dead: Set<int>, p: Seq<Step>) -> Seq<Step> {
    Seq::new(
        p.len(),
        |j: int|
            (
                kept_below(dead, p[j].0) as int,
                kept_tr_index(f.states[p[j].0].trs, dead, p[j].1),
            ),
    )
}

/// A path can be cut at any of its states.
pub proof fn lemma_path_split<W: Semiring>(f: FstView<W>, from: int, p: Seq<Step>, to: int, j: int)
    requires
        f.graph_wf(),
        f.is_path(from, p, to),
        0 <= j <= p.len(),
    ensures
        f.is_path(
            from,
            p.take(j),
            if j < p.len() {
                p[j].0
            } else {
                to
            },
        ),
        f.is_path(
            if j < p.len() {
                p[j].0
            } else {
                to
            },
            p.skip(j),
            to,
        ),
    decreases p.len(),
{
    f.lemma_path_ends(from, p, to);
    if j == 0 {
        assert(p.take(0) =~= Seq::<Step>::empty());
        assert(p.skip(0) =~= p);
    } else {
        let next = f.tr(p[0].0, p[0].1).nextstate as int;
        lemma_path_split(f, next, p.drop_first(), to, j - 1);
        assert(p.take(j).drop_first() =~= p.drop_first().take(j - 1));
        assert(p.skip(j) =~= p.drop_first().skip(j - 1));
        if j < p.len() {
            assert(p.drop_first()[j - 1] == p[j]);
        }
    }
}

/// Every state of a successful path lies on a successful path.
pub proof fn lemma_accepting_path_is_connected<W: Semiring>(
    f: FstView<W>,
    p: Seq<Step>,
    to: int,
    j: int,
)
    requires
        f.graph_wf(),
        f.is_accepting_path(p, to),
        0 <= j <= p.len(),
    ensures
        !unconnected(f).contains(
            if j < p.len() {
                p[j].0
            } else {
                to
            },
        ),
{
    let start = f.start->0 as int;
    lemma_path_split(f, start, p, to, j);
    let mid = if j < p.len() {
        p[j].0
    } else {
        to
    };
    assert(f.reachable(start, mid));
    assert(f.reachable(mid, to));
}

/// A path whose states all stay is a path of the trimmed transducer, step
/// for step, with the same labels and the same weight.
pub proof fn lemma_kept_path<W: Semiring>(
    f: FstView<W>,
    dead: Set<int>,
    from: int,
    p: Seq<Step>,
    to: int,
)
    requires
        f.graph_wf(),
        f.is_path(from, p, to),
        !dead.contains(from),
        forall|j: int| 0 <= j < p.len() ==> !dead.contains(#[trigger] p[j].0),
        !dead.contains(to),
    ensures
        f.del_states(dead).is_path(
            kept_below(dead, from) as int,
            kept_steps(f, dead, p),
            kept_below(dead, to) as int,
        ),
        f.del_states(dead).path_ilabels(kept_steps(f, dead, p)) == f.path_ilabels(p),
        f.del_states(dead).path_olabels(kept_steps(f, dead, p)) == f.path_olabels(p),
        f.del_states(dead).path_weight(kept_steps(f, dead, p)) == f.path_weight(p),
    decreases p.len(),
{
    let g = f.del_states(dead);
    let q = kept_steps(f, dead, p);
    f.lemma_path_ends(from, p, to);
    lemma_kept_states_index(f.states, dead, from);
    lemma_kept_states_index(f.states, dead, to);
    if p.len() > 0 {
        let s = p[0].0;
        let i = p[0].1;
        let next = f.tr(s, i).nextstate as int;
        assert(f.has_tr(s, i));
        assert(!dead.contains(next)) by {
            f.lemma_path_start(next, p.drop_first(), to);
            if p.len() > 1 {
                assert(p.drop_first()[0] == p[1]);
                assert(!dead.contains(p[1].0));
            }
        }
        assert forall|j: int| 0 <= j < p.drop_first().len() implies !dead.contains(
            #[trigger] p.drop_first()[j].0,
        ) by {
            assert(p.drop_first()[j] == p[j + 1]);
        }
        lemma_kept_path(f, dead, next, p.drop_first(), to);
        lemma_kept_tr_at_index(f.states[s].trs, dead, i);
        assert(q.drop_first() =~= kept_steps(f, dead, p.drop_first()));
        assert(g.has_tr(q[0].0, q[0].1));
        assert(g.tr(q[0].0, q[0].1) == moved_tr(f.tr(s, i), dead));
        lemma_kept_below_bound(dead, next);
        f.lemma_path_steps_valid(from, p, to);
        assert forall|j: int| 0 <= j < p.len() implies g.tr(q[j].0, q[j].1).ilabel == f.tr(
            p[j].0,
            p[j].1,
        ).ilabel && g.tr(q[j].0, q[j].1).olabel == f.tr(p[j].0, p[j].1).olabel by {
            assert(f.has_tr(p[j].0, p[j].1));
            lemma_kept_states_index(f.states, dead, p[j].0);
            let target = f.tr(p[j].0, p[j].1).nextstate as int;
            assert(!dead.contains(target)) by {
                lemma_path_split(f, from, p, to, j);
                assert(p.skip(j)[0] == p[j]);
                assert(p.skip(j).drop_first() =~= p.skip(j + 1));
                f.lemma_path_start(p[j].0, p.skip(j), to);
                f.lemma_path_start(target, p.skip(j + 1), to);
                if j + 1 < p.len() {
                    assert(p.skip(j + 1)[0] == p[j + 1]);
                }
            }
            lemma_kept_tr_at_index(f.states[p[j].0].trs, dead, p[j].1);
        }
        assert(g.path_ilabels(q) =~= f.path_ilabels(p));
        assert(g.path_olabels(q) =~= f.path_olabels(p));
    } else {
        assert(g.path_ilabels(q) =~= f.path_ilabels(p));
        assert(g.path_olabels(q) =~= f.path_olabels(p));
    }
}

/// Trimming keeps the successful paths: each is a successful path of the
/// trimmed transducer, step for step, with the same labels, the same weight
/// and the same final weight.
pub proof fn lemma_connect_keeps_accepting_path<W: Semiring>(f: FstView<W>, p: Seq<Step>, to: int)
    requires
        f.graph_wf(),
        f.states.len() <= usize::MAX,
        f.is_accepting_path(p, to),
    ensures
        f.del_states(unconnected(f)).is_accepting_path(
            kept_steps(f, unconnected(f), p),
            kept_below(unconnected(f), to) as int,
        ),
        f.del_states(unconnected(f)).path_ilabels(kept_steps(f, unconnected(f), p))
            == f.path_ilabels(p),
        f.del_states(unconnected(f)).path_olabels(kept_steps(f, unconnected(f), p))
            == f.path_olabels(p),
        f.del_states(unconnected(f)).path_weight(kept_steps(f, unconnected(f), p))
            == f.path_weight(p),
        f.del_states(unconnected(f)).states[kept_below(unconnected(f), to) as int].final_weight
            == f.states[to].final_weight,
{
    let dead = unconnected(f);
    let start = f.start->0 as int;
    lemma_accepting_path_is_connected(f, p, to, 0);
    lemma_accepting_path_is_connected(f, p, to, p.len() as int);
    f.lemma_path_ends(start, p, to);
    assert(!dead.contains(start)) by {
        if p.len() > 0 {
            assert(p[0].0 == start);
        }
    }
    assert forall|j: int| 0 <= j < p.len() implies !dead.contains(#[trigger] p[j].0) by {
        lemma_accepting_path_is_connected(f, p, to, j);
    }
    lemma_kept_path(f, dead, start, p, to);
    lemma_kept_states_index(f.states, dead, to);
    lemma_kept_below_bound(dead, start);
}

/// After trimming every state lies on a successful path.
pub proof fn lemma_connect_leaves_connected<W: Semiring>(f: FstView<W>, t: int)
    requires
        f.graph_wf(),
        f.states.len() <= usize::MAX,
        0 <= t < f.del_states(unconnected(f)).states.len(),
    ensures
        f.del_states(unconnected(f)).accessible(t),
        f.del_states(unconnected(f)).coaccessible(t),
{
    let dead = unconnected(f);
    let g = f.del_states(dead);
    let s = lemma_kept_states_origin(f.states, dead, t);
    let start = f.start->0 as int;
    assert(f.accessible(s) && f.coaccessible(s));
    let p1 = choose|p1: Seq<Step>| f.is_path(start, p1, s);
    let fin = choose|fin: int| f.reachable(s, fin) && f.is_final(fin);
    let p2 = choose|p2: Seq<Step>| f.is_path(s, p2, fin);
    f.lemma_path_concat(start, p1, s, p2, fin);
    let p = p1 + p2;
    assert(f.is_accepting_path(p, fin));
    lemma_accepting_path_is_connected(f, p, fin, 0);
    lemma_accepting_path_is_connected(f, p, fin, p.len() as int);
    f.lemma_path_ends(start, p, fin);
    assert(!dead.contains(start)) by {
        if p.len() > 0 {
            assert(p[0].0 == start);
        }
    }
    assert forall|j: int| 0 <= j < p1.len() implies !dead.contains(#[trigger] p1[j].0) by {
        assert(p[j] == p1[j]);
        lemma_accepting_path_is_connected(f, p, fin, j);
    }
    assert forall|j: int| 0 <= j < p2.len() implies !dead.contains(#[trigger] p2[j].0) by {
        assert(p[p1.len() + j] == p2[j]);
        lemma_accepting_path_is_connected(f, p, fin, p1.len() + j);
    }
    lemma_kept_path(f, dead, start, p1, s);
    lemma_kept_path(f, dead, s, p2, fin);
    lemma_kept_below_bound(dead, start);
    lemma_kept_states_index(f.states, dead, fin);
    assert(g.reachable(kept_below(dead, start) as int, t));
    assert(g.reachable(t, kept_below(dead, fin) as int));
    assert(g.is_final(kept_below(dead, fin) as int));
}

/// Each path of the trimmed transducer comes from a path of the given transducer
/// whose states all stay.
pub proof fn lemma_kept_path_origin<W: Semiring>(
    f: FstView<W>,
    dead: Set<int>,
    from: int,
    q: Seq<Step>,
    to: int,
) -> (r: (int, Seq<Step>, int))
    requires
        f.graph_wf(),
        f.del_states(dead).is_path(from, q, to),
    ensures
        f.is_path(r.0, r.1, r.2),
        !dead.contains(r.0),
        !dead.contains(r.2),
        forall|j: int| 0 <= j < r.1.len() ==> !dead.contains(#[trigger] r.1[j].0),
        kept_below(dead, r.0) == from,
        kept_below(dead, r.2) == to,
        kept_steps(f, dead, r.1) == q,
        0 <= r.0 < f.states.len(),
        0 <= r.2 < f.states.len(),
    decreases q.len(),
{
    let g = f.del_states(dead);
    if q.len() == 0 {
        let s = lemma_kept_states_origin(f.states, dead, from);
        assert(f.is_path(s, Seq::empty(), s));
        assert(kept_steps(f, dead, Seq::<Step>::empty()) =~= q);
        (s, Seq::empty(), s)
    } else {
        let t = q[0].0;
        let i = q[0].1;
        let s = lemma_kept_states_origin(f.states, dead, t);
        let j = lemma_kept_trs_origin(f.states[s].trs, dead, i);
        let next_new = g.tr(t, i).nextstate as int;
        let rest = lemma_kept_path_origin(f, dead, next_new, q.drop_first(), to);
        let target = f.tr(s, j).nextstate as int;
        assert(f.has_tr(s, j));
        // the path found for the rest starts at the target of the transition
        lemma_kept_below_bound(dead, target);
        assert(kept_below(dead, target) == next_new);
        assert(rest.0 == target) by {
            if rest.0 < target {
                lemma_kept_below_monotone(dead, rest.0, target);
            } else if target < rest.0 {
                lemma_kept_below_monotone(dead, target, rest.0);
            }
        }
        let p = seq![(s, j)] + rest.1;
        assert(p.drop_first() =~= rest.1);
        assert(f.is_path(s, p, rest.2));
        assert(kept_steps(f, dead, rest.1).len() == rest.1.len());
        assert(q.drop_first().len() == q.len() - 1);
        assert(p.len() == q.len());
        assert(p[0] == (s, j));
        assert forall|k: int| 0 <= k < p.len() implies !dead.contains(#[trigger] p[k].0) by {
            if k > 0 {
                assert(p[k] == rest.1[k - 1]);
            }
        }
        assert(kept_steps(f, dead, p) =~= q) by {
            assert forall|k: int| 0 <= k < q.len() implies kept_steps(f, dead, p)[k] == q[k] by {
                if k > 0 {
                    assert(p[k] == rest.1[k - 1]);
                    assert(kept_steps(f, dead, rest.1)[k - 1] == q.drop_first()[k - 1]);
                }
            }
        }
        (s, p, rest.2)
    }
}

/// Each successful path of the trimmed transducer comes from a successful
/// path of the given transducer: the correspondence of the two lemmas before this
/// one reaches every successful path of the trimmed transducer.
pub proof fn lemma_connect_accepting_path_origin<W: Semiring>(
    f: FstView<W>,
    q: Seq<Step>,
    to: int,
) -> (r: (Seq<Step>, int))
    requires
        f.graph_wf(),
        f.states.len() <= usize::MAX,
        f.del_states(unconnected(f)).is_accepting_path(q, to),
    ensures
        f.is_accepting_path(r.0, r.1),
        kept_steps(f, unconnected(f), r.0) == q,
        kept_below(unconnected(f), r.1) == to,
{
    let dead = unconnected(f);
    let g = f.del_states(dead);
    let from = g.start->0 as int;
    let r = lemma_kept_path_origin(f, dead, from, q, to);
    let start = f.start->0 as int;
    lemma_kept_below_bound(dead, start);
    assert(r.0 == start) by {
        if r.0 < start {
            lemma_kept_below_monotone(dead, r.0, start);
        } else if start < r.0 {
            lemma_kept_below_monotone(dead, start, r.0);
        }
    }
    lemma_kept_states_index(f.states, dead, r.2);
    (r.1, r.2)
}

/// No weight is lost on the way in the trimmed transducer where none is
/// lost in the transducer: its transitions are transitions of the
/// transducer.
pub proof fn lemma_connect_keeps_weights_nonzero<W: Semiring>(f: FstView<W>)
    requires
        f.graph_wf(),
        f.states.len() <= usize::MAX,
        keeps_weights_nonzero(f),
    ensures
        keeps_weights_nonzero(f.del_states(unconnected(f))),
{
    let dead = unconnected(f);
    let g = f.del_states(dead);
    assert forall|t: int, i: int| #[trigger] g.has_tr(t, i) implies g.tr(t, i).weight
        != W::zero_spec() by {
        let s = lemma_kept_states_origin(f.states, dead, t);
        let j = lemma_kept_trs_origin(f.states[s].trs, dead, i);
        assert(f.has_tr(s, j));
    }
}

/// In the trimmed transducer every state has a distance other than `0̄` from
/// the start state, where no weight is lost on the way: every state that
/// stays can be reached. And where the trimmed transducer has a state at
/// all, one of its final states has such a distance: from every state that
/// stays a final state can be reached.
pub proof fn lemma_connect_distances_nonzero<W: Semiring>(f: FstView<W>, d: Seq<W>)
    requires
        f.graph_wf(),
        f.states.len() <= usize::MAX,
        keeps_weights_nonzero(f),
        f.del_states(unconnected(f)).start matches Some(start) && is_single_source_distance(
            f.del_states(unconnected(f)),
            start,
            d,
        ),
    ensures
        d.len() == f.del_states(unconnected(f)).states.len(),
        forall|t: int| 0 <= t < d.len() ==> #[trigger] d[t] != W::zero_spec(),
        d.len() > 0 ==> exists|t: int|
            0 <= t < d.len() && f.del_states(unconnected(f)).is_final(t) && #[trigger] d[t]
                != W::zero_spec(),
{
    let g = f.del_states(unconnected(f));
    let start = g.start->0;
    crate::fst_view_delete::lemma_del_states_graph_wf(f, unconnected(f));
    lemma_connect_keeps_weights_nonzero(f);
    assert forall|t: int| 0 <= t < d.len() implies #[trigger] d[t] != W::zero_spec() by {
        lemma_connect_leaves_connected(f, t);
        assert(g.reachable(start as int, t));
    }
    if d.len() > 0 {
        lemma_connect_leaves_connected(f, 0);
        let t = choose|t: int| g.reachable(0, t) && g.is_final(t);
        assert(d[t] != W::zero_spec());
    }
}

/// In the trimmed transducer some final state has a distance other than
/// `0̄` from each state, where no weight is lost on the way: from every
/// state that stays a final state can be reached.
pub proof fn lemma_connect_final_distance_nonzero<W: Semiring>(
    f: FstView<W>,
    source: StateId,
    d: Seq<W>,
)
    requires
        f.graph_wf(),
        f.states.len() <= usize::MAX,
        keeps_weights_nonzero(f),
        source < f.del_states(unconnected(f)).states.len(),
        is_single_source_distance(f.del_states(unconnected(f)), source, d),
    ensures
        exists|t: int|
            0 <= t < d.len() && f.del_states(unconnected(f)).is_final(t) && #[trigger] d[t]
                != W::zero_spec(),
{
    let g = f.del_states(unconnected(f));
    crate::fst_view_delete::lemma_del_states_graph_wf(f, unconnected(f));
    lemma_connect_keeps_weights_nonzero(f);
    lemma_connect_leaves_connected(f, source as int);
    let t = choose|t: int| g.reachable(source as int, t) && g.is_final(t);
    assert(d[t] != W::zero_spec());
}

} // verus!
