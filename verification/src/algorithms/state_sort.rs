//! Renumbering the states of a transducer.

use vstd::prelude::*;
use crate::error::FstError;
use crate::fst_properties::{
    FstProperties, ACYCLIC_BIT, CYCLIC_BIT, NOT_TOP_SORTED_BIT, TOP_SORTED_BIT,
};
use crate::fst_traits::MutableFst;
use crate::fst_view::{
    final_meets, is_every_tr_bit, is_some_tr_bit, opposite_bit, tr_meets, FstView, StateView, Step,
};
use crate::semirings::semiring::Semiring;
use crate::tr::{StateId, Tr};

verus! {

/// Whether `order` and `inverse` are permutations of the states that undo
/// each other.
pub open spec fn are_inverse_orders(order: Seq<StateId>, inverse: Seq<StateId>) -> bool {
    &&& order.len() == inverse.len()
    &&& forall|s: int|
        0 <= s < order.len() ==> (#[trigger] order[s]) < order.len() && inverse[order[s] as int]
            == s
    &&& forall|t: int|
        0 <= t < inverse.len() ==> (#[trigger] inverse[t]) < inverse.len()
            && order[inverse[t] as int] == t
}

/// The transitions, each leading to the new place of its target.
pub open spec fn renumbered_trs<W: Semiring>(trs: Seq<Tr<W>>, order: Seq<StateId>) -> Seq<Tr<W>> {
    Seq::new(trs.len(), |i: int| trs[i].with_nextstate(order[trs[i].nextstate as int]))
}

/// The state with its transitions leading to the new places.
pub open spec fn renumbered_state<W: Semiring>(state: StateView<W>, order: Seq<StateId>) -> StateView<
    W,
> {
    StateView { final_weight: state.final_weight, trs: renumbered_trs(state.trs, order) }
}

/// The transducer with each state `s` moved to the place `order[s]`, and
/// with the given property bits.
pub open spec fn renumbered<W: Semiring>(
    f: FstView<W>,
    order: Seq<StateId>,
    inverse: Seq<StateId>,
    properties: Set<u64>,
) -> FstView<W> {
    FstView {
        start: match f.start {
            Some(s) => Some(order[s as int]),
            None => None,
        },
        states: Seq::new(
            f.states.len(),
            |t: int| renumbered_state(f.states[inverse[t] as int], order),
        ),
        properties,
        isymt: f.isymt,
        osymt: f.osymt,
    }
}

/// The steps of a path, each taken from the new place of its state.
pub open spec fn renumbered_steps(p: Seq<Step>, order: Seq<StateId>) -> Seq<Step> {
    Seq::new(p.len(), |i: int| (order[p[i].0] as int, p[i].1))
}

/// The bits that stay true when the states change their places: all but
/// those that speak of the places.
pub open spec fn state_sort_kept_properties(bits: Set<u64>) -> Set<u64> {
    bits.remove(TOP_SORTED_BIT).remove(NOT_TOP_SORTED_BIT)
}

/// A renumbered well-formed graph is a well-formed graph.
pub proof fn lemma_renumbered_graph_wf<W: Semiring>(
    f: FstView<W>,
    order: Seq<StateId>,
    inverse: Seq<StateId>,
    properties: Set<u64>,
)
    requires
        f.graph_wf(),
        order.len() == f.states.len(),
        are_inverse_orders(order, inverse),
    ensures
        renumbered(f, order, inverse, properties).graph_wf(),
{
    let g = renumbered(f, order, inverse, properties);
    assert forall|t: int, i: int| #[trigger] g.has_tr(t, i) implies g.tr(t, i).nextstate
        < g.states.len() by {
        assert(f.has_tr(inverse[t] as int, i));
    }
    assert forall|t: int| #[trigger] g.has_state(t) implies g.states[t].final_weight != Some(
        W::zero_spec(),
    ) by {
        assert(f.has_state(inverse[t] as int));
    }
}

/// Renumbering back gives the transducer back.
pub proof fn lemma_renumbered_back<W: Semiring>(
    f: FstView<W>,
    order: Seq<StateId>,
    inverse: Seq<StateId>,
    properties: Set<u64>,
)
    requires
        f.graph_wf(),
        order.len() == f.states.len(),
        are_inverse_orders(order, inverse),
    ensures
        renumbered(renumbered(f, order, inverse, properties), inverse, order, f.properties) == f,
{
    let g = renumbered(f, order, inverse, properties);
    let h = renumbered(g, inverse, order, f.properties);
    assert forall|s: int| 0 <= s < f.states.len() implies h.states[s] == f.states[s] by {
        let t = order[s] as int;
        assert(inverse[t] == s);
        assert(g.states[t] == renumbered_state(f.states[s], order));
        assert forall|i: int| 0 <= i < f.states[s].trs.len() implies h.states[s].trs[i]
            == f.states[s].trs[i] by {
            assert(f.has_tr(s, i));
            let next = f.states[s].trs[i].nextstate as int;
            assert(inverse[order[next] as int] == next);
        }
        assert(h.states[s].trs =~= f.states[s].trs);
    }
    assert(h.states =~= f.states);
    assert(h =~= f);
}

/// A path of a transducer is a path of the renumbered one, from the new
/// place of its first state to the new place of its last, with the same
/// labels and the same weight.
pub proof fn lemma_renumbered_path<W: Semiring>(
    f: FstView<W>,
    order: Seq<StateId>,
    inverse: Seq<StateId>,
    properties: Set<u64>,
    from: int,
    p: Seq<Step>,
    to: int,
)
    requires
        f.graph_wf(),
        order.len() == f.states.len(),
        are_inverse_orders(order, inverse),
        f.is_path(from, p, to),
    ensures
        renumbered(f, order, inverse, properties).is_path(
            order[from] as int,
            renumbered_steps(p, order),
            order[to] as int,
        ),
        renumbered(f, order, inverse, properties).path_ilabels(renumbered_steps(p, order))
            == f.path_ilabels(p),
        renumbered(f, order, inverse, properties).path_olabels(renumbered_steps(p, order))
            == f.path_olabels(p),
        renumbered(f, order, inverse, properties).path_weight(renumbered_steps(p, order))
            == f.path_weight(p),
    decreases p.len(),
{
    let g = renumbered(f, order, inverse, properties);
    let q = renumbered_steps(p, order);
    if p.len() > 0 {
        let next = f.tr(p[0].0, p[0].1).nextstate as int;
        lemma_renumbered_path(f, order, inverse, properties, next, p.drop_first(), to);
        assert(q.drop_first() =~= renumbered_steps(p.drop_first(), order));
        assert(inverse[order[from] as int] == from);
        assert(g.has_tr(q[0].0, q[0].1));
        assert(g.tr(q[0].0, q[0].1) == f.tr(p[0].0, p[0].1).with_nextstate(order[next]));
        f.lemma_path_steps_valid(from, p, to);
        assert forall|i: int| 0 <= i < p.len() implies g.tr(q[i].0, q[i].1).ilabel == f.tr(
            p[i].0,
            p[i].1,
        ).ilabel && g.tr(q[i].0, q[i].1).olabel == f.tr(p[i].0, p[i].1).olabel by {
            assert(f.has_tr(p[i].0, p[i].1));
            assert(inverse[order[p[i].0] as int] == p[i].0);
        }
        assert(g.path_ilabels(q) =~= f.path_ilabels(p));
        assert(g.path_olabels(q) =~= f.path_olabels(p));
    } else {
        assert(g.path_ilabels(q) =~= f.path_ilabels(p));
        assert(g.path_olabels(q) =~= f.path_olabels(p));
    }
}

/// Each fact that does not speak of the places of the states holds of the
/// renumbered transducer as it does of the given transducer.
pub proof fn lemma_renumbered_fact<W: Semiring>(
    f: FstView<W>,
    order: Seq<StateId>,
    inverse: Seq<StateId>,
    properties: Set<u64>,
    k: u64,
)
    requires
        f.graph_wf(),
        order.len() == f.states.len(),
        are_inverse_orders(order, inverse),
        k != TOP_SORTED_BIT,
        k != NOT_TOP_SORTED_BIT,
        f.property_fact(k),
    ensures
        renumbered(f, order, inverse, properties).property_fact(k),
{
    let g = renumbered(f, order, inverse, properties);
    assert forall|t: int, i: int| #[trigger] g.has_tr(t, i) implies f.has_tr(inverse[t] as int, i)
        && g.tr(t, i) == f.tr(inverse[t] as int, i).with_nextstate(
        order[f.tr(inverse[t] as int, i).nextstate as int],
    ) by {}
    assert forall|s: int, i: int| #[trigger] f.has_tr(s, i) implies g.has_tr(order[s] as int, i)
        && g.tr(order[s] as int, i) == f.tr(s, i).with_nextstate(
        order[f.tr(s, i).nextstate as int],
    ) by {
        assert(inverse[order[s] as int] == s);
    }
    assert forall|t: int| #[trigger] g.is_final(t) implies f.is_final(inverse[t] as int)
        && g.states[t].final_weight == f.states[inverse[t] as int].final_weight by {}
    assert forall|s: int| #[trigger] f.is_final(s) implies g.is_final(order[s] as int)
        && g.states[order[s] as int].final_weight == f.states[s].final_weight by {
        assert(inverse[order[s] as int] == s);
    }
    if is_every_tr_bit(k) {
        assert forall|t: int, i: int| #[trigger] g.has_tr(t, i) implies tr_meets(
            k,
            t,
            g.tr(t, i),
        ) by {
            assert(f.has_tr(inverse[t] as int, i));
            assert(tr_meets(k, inverse[t] as int, f.tr(inverse[t] as int, i)));
        }
        assert forall|t: int| #[trigger] g.is_final(t) implies final_meets(
            k,
            g.states[t].final_weight->0,
        ) by {
            assert(f.is_final(inverse[t] as int));
        }
    } else if is_some_tr_bit(k) {
        let j = opposite_bit(k);
        if g.every_tr_meets(j) {
            assert forall|s: int, i: int| #[trigger] f.has_tr(s, i) implies tr_meets(
                j,
                s,
                f.tr(s, i),
            ) by {
                assert(g.has_tr(order[s] as int, i));
                assert(tr_meets(j, order[s] as int, g.tr(order[s] as int, i)));
            }
            assert forall|s: int| #[trigger] f.is_final(s) implies final_meets(
                j,
                f.states[s].final_weight->0,
            ) by {
                assert(g.is_final(order[s] as int));
            }
            assert(false);
        }
    } else if k == CYCLIC_BIT {
        let (s, p) = choose|s: int, p: Seq<Step>| p.len() > 0 && f.is_path(s, p, s);
        lemma_renumbered_path(f, order, inverse, properties, s, p, s);
        assert(renumbered_steps(p, order).len() > 0);
    } else if k == ACYCLIC_BIT {
        let rank = choose|rank: Seq<nat>| f.is_topological_rank(rank);
        let rank2 = Seq::new(g.states.len(), |t: int| rank[inverse[t] as int]);
        assert forall|t: int, i: int| #[trigger] g.has_tr(t, i) implies rank2[t] < rank2[g.tr(
            t,
            i,
        ).nextstate as int] by {
            let s = inverse[t] as int;
            assert(f.has_tr(s, i));
            let next = f.tr(s, i).nextstate as int;
            assert(inverse[order[next] as int] == next);
        }
        assert(g.is_topological_rank(rank2));
    } else {
        assert(g.i_deterministic() == f.i_deterministic()) by {
            if f.i_deterministic() {
                assert forall|t: int, i: int, j: int|
                    #![trigger g.tr(t, i), g.tr(t, j)]
                    g.has_tr(t, i) && g.has_tr(t, j) && i != j implies g.tr(t, i).ilabel != g.tr(
                        t,
                        j,
                    ).ilabel by {
                    let s = inverse[t] as int;
                    assert(f.has_tr(s, i) && f.has_tr(s, j));
                    assert(f.tr(s, i).ilabel != f.tr(s, j).ilabel);
                }
            }
            if g.i_deterministic() {
                assert forall|s: int, i: int, j: int|
                    #![trigger f.tr(s, i), f.tr(s, j)]
                    f.has_tr(s, i) && f.has_tr(s, j) && i != j implies f.tr(s, i).ilabel != f.tr(
                        s,
                        j,
                    ).ilabel by {
                    let t = order[s] as int;
                    assert(g.has_tr(t, i) && g.has_tr(t, j));
                    assert(g.tr(t, i).ilabel != g.tr(t, j).ilabel);
                }
            }
        }
        assert(g.o_deterministic() == f.o_deterministic()) by {
            if f.o_deterministic() {
                assert forall|t: int, i: int, j: int|
                    #![trigger g.tr(t, i), g.tr(t, j)]
                    g.has_tr(t, i) && g.has_tr(t, j) && i != j implies g.tr(t, i).olabel != g.tr(
                        t,
                        j,
                    ).olabel by {
                    let s = inverse[t] as int;
                    assert(f.has_tr(s, i) && f.has_tr(s, j));
                    assert(f.tr(s, i).olabel != f.tr(s, j).olabel);
                }
            }
            if g.o_deterministic() {
                assert forall|s: int, i: int, j: int|
                    #![trigger f.tr(s, i), f.tr(s, j)]
                    f.has_tr(s, i) && f.has_tr(s, j) && i != j implies f.tr(s, i).olabel != f.tr(
                        s,
                        j,
                    ).olabel by {
                    let t = order[s] as int;
                    assert(g.has_tr(t, i) && g.has_tr(t, j));
                    assert(g.tr(t, i).olabel != g.tr(t, j).olabel);
                }
            }
        }
        assert(g.i_label_sorted() == f.i_label_sorted()) by {
            if f.i_label_sorted() {
                assert forall|t: int, i: int, j: int|
                    #![trigger g.tr(t, i), g.tr(t, j)]
                    g.has_tr(t, i) && g.has_tr(t, j) && i < j implies g.tr(t, i).ilabel <= g.tr(
                        t,
                        j,
                    ).ilabel by {
                    let s = inverse[t] as int;
                    assert(f.has_tr(s, i) && f.has_tr(s, j));
                    assert(f.tr(s, i).ilabel <= f.tr(s, j).ilabel);
                }
            }
            if g.i_label_sorted() {
                assert forall|s: int, i: int, j: int|
                    #![trigger f.tr(s, i), f.tr(s, j)]
                    f.has_tr(s, i) && f.has_tr(s, j) && i < j implies f.tr(s, i).ilabel <= f.tr(
                        s,
                        j,
                    ).ilabel by {
                    let t = order[s] as int;
                    assert(g.has_tr(t, i) && g.has_tr(t, j));
                    assert(g.tr(t, i).ilabel <= g.tr(t, j).ilabel);
                }
            }
        }
        assert(g.o_label_sorted() == f.o_label_sorted()) by {
            if f.o_label_sorted() {
                assert forall|t: int, i: int, j: int|
                    #![trigger g.tr(t, i), g.tr(t, j)]
                    g.has_tr(t, i) && g.has_tr(t, j) && i < j implies g.tr(t, i).olabel <= g.tr(
                        t,
                        j,
                    ).olabel by {
                    let s = inverse[t] as int;
                    assert(f.has_tr(s, i) && f.has_tr(s, j));
                    assert(f.tr(s, i).olabel <= f.tr(s, j).olabel);
                }
            }
            if g.o_label_sorted() {
                assert forall|s: int, i: int, j: int|
                    #![trigger f.tr(s, i), f.tr(s, j)]
                    f.has_tr(s, i) && f.has_tr(s, j) && i < j implies f.tr(s, i).olabel <= f.tr(
                        s,
                        j,
                    ).olabel by {
                    let t = order[s] as int;
                    assert(g.has_tr(t, i) && g.has_tr(t, j));
                    assert(g.tr(t, i).olabel <= g.tr(t, j).olabel);
                }
            }
        }
    }
}

/// A renumbered well-formed transducer whose property bits are among those
/// of the given transducer that do not speak of places is well formed.
pub proof fn lemma_renumbered_wf<W: Semiring>(
    f: FstView<W>,
    order: Seq<StateId>,
    inverse: Seq<StateId>,
    properties: Set<u64>,
)
    requires
        f.wf(),
        order.len() == f.states.len(),
        are_inverse_orders(order, inverse),
        properties.subset_of(state_sort_kept_properties(f.properties)),
    ensures
        renumbered(f, order, inverse, properties).wf(),
{
    let g = renumbered(f, order, inverse, properties);
    lemma_renumbered_graph_wf(f, order, inverse, properties);
    assert forall|k: u64| g.properties.contains(k) implies #[trigger] g.property_fact(k) by {
        assert(f.properties.contains(k));
        assert(f.property_fact(k));
        lemma_renumbered_fact(f, order, inverse, properties, k);
    }
}

/// Every place below the number of states is the place of a state, where no
/// two states share a place.
pub proof fn lemma_order_is_onto(order: Seq<StateId>, t: int) -> (s: int)
    requires
        forall|s: int| 0 <= s < order.len() ==> (#[trigger] order[s]) < order.len(),
        forall|a: int, b: int|
            0 <= a < order.len() && 0 <= b < order.len() && a != b ==> #[trigger] order[a]
                != #[trigger] order[b],
        0 <= t < order.len(),
    ensures
        0 <= s < order.len(),
        order[s] == t,
{
    let n = order.len() as int;
    let ints = order.map_values(|x: StateId| x as int);
    assert(ints.no_duplicates()) by {
        assert forall|i: int, j: int|
            0 <= i < ints.len() && 0 <= j < ints.len() && i != j implies ints[i] != ints[j] by {
            assert(order[i] != order[j]);
        }
    }
    ints.unique_seq_to_set();
    vstd::set_lib::lemma_int_range(0, n);
    let range = vstd::set_lib::set_int_range(0, n);
    assert(ints.to_set().subset_of(range)) by {
        assert forall|x: int| ints.to_set().contains(x) implies range.contains(x) by {
            let i = choose|i: int| 0 <= i < ints.len() && ints[i] == x;
            assert(order[i] < n);
        }
    }
    vstd::set_lib::lemma_set_subset_finite(range, ints.to_set());
    vstd::set_lib::lemma_subset_equality(ints.to_set(), range);
    assert(range.contains(t));
    assert(ints.to_set().contains(t));
    let s = choose|s: int| 0 <= s < ints.len() && ints[s] == t;
    s
}

/// Whether `order` gives each state a place of its own below the number of
/// states.
pub open spec fn is_permutation(order: Seq<StateId>) -> bool {
    &&& forall|s: int| 0 <= s < order.len() ==> (#[trigger] order[s]) < order.len()
    &&& forall|a: int, b: int|
        0 <= a < order.len() && 0 <= b < order.len() && a != b ==> #[trigger] order[a]
            != #[trigger] order[b]
}

/// The permutation that undoes `order`, where `order` is a permutation.
pub fn invert_order(order: &[StateId]) -> (r: Option<Vec<StateId>>)
    ensures
        match r {
            Some(inverse) => are_inverse_orders(order@, inverse@),
            None => !is_permutation(order@),
        },
{
    let n = order.len();
    let mut inverse: Vec<StateId> = Vec::new();
    let mut t: usize = 0;
    while t < n
        invariant
            t <= n,
            inverse.len() == t,
            forall|x: int| 0 <= x < t ==> inverse@[x] == n,
        decreases n - t,
    {
        inverse.push(n);
        t += 1;
    }
    let mut s: usize = 0;
    while s < n
        invariant
            s <= n,
            n == order@.len(),
            inverse.len() == n,
            forall|a: int| 0 <= a < s ==> (#[trigger] order@[a]) < n && inverse@[order@[a] as int] == a,
            forall|x: int|
                0 <= x < n && (#[trigger] inverse@[x]) != n ==> inverse@[x] < s
                    && order@[inverse@[x] as int] == x,
        decreases n - s,
    {
        let place = order[s];
        if place >= n {
            return None;
        }
        if inverse[place] != n {
            proof {
                let a = inverse@[place as int] as int;
                assert(order@[a] == place && a != s);
            }
            return None;
        }
        inverse[place] = s;
        s += 1;
    }
    proof {
        assert(is_permutation(order@)) by {
            assert forall|a: int, b: int|
                0 <= a < order@.len() && 0 <= b < order@.len() && a != b implies #[trigger] order@[a]
                != #[trigger] order@[b] by {
                assert(inverse@[order@[a] as int] == a);
                assert(inverse@[order@[b] as int] == b);
            }
        }
        assert forall|x: int| 0 <= x < inverse@.len() implies (#[trigger] inverse@[x]) < inverse@.len()
            && order@[inverse@[x] as int] == x by {
            let a = lemma_order_is_onto(order@, x);
            assert(inverse@[order@[a] as int] == a);
        }
    }
    Some(inverse)
}

/// The transitions, each leading to the new place of its target.
fn renumber_trs<W: Semiring>(trs: &Vec<Tr<W>>, order: &[StateId]) -> (r: Vec<Tr<W>>)
    requires
        forall|i: int| 0 <= i < trs@.len() ==> (#[trigger] trs@[i]).nextstate < order@.len(),
    ensures
        r@ == renumbered_trs(trs@, order@),
{
    let mut r: Vec<Tr<W>> = Vec::new();
    let mut i: usize = 0;
    while i < trs.len()
        invariant
            i <= trs.len(),
            forall|j: int| 0 <= j < trs@.len() ==> (#[trigger] trs@[j]).nextstate < order@.len(),
            r@ =~= renumbered_trs(trs@.take(i as int), order@),
        decreases trs.len() - i,
    {
        let t = trs[i];
        r.push(Tr::new(t.ilabel, t.olabel, t.weight, order[t.nextstate]));
        i += 1;
    }
    proof {
        assert(trs@.take(trs@.len() as int) =~= trs@);
    }
    r
}

/// The transducer with the final weights and the transitions taken out of its
/// first `n` states, and no property bit.
pub open spec fn emptied_upto<W: Semiring>(f: FstView<W>, n: int) -> FstView<W> {
    f.with_states(
        Seq::new(
            f.states.len(),
            |s: int|
                if s < n {
                    StateView::<W>::empty()
                } else {
                    f.states[s]
                },
        ),
    )
}

/// The transducer with its first `n` states taken from the renumbered one,
/// the others empty, and the start state of the given transducer.
pub open spec fn filled_upto<W: Semiring>(
    f: FstView<W>,
    order: Seq<StateId>,
    inverse: Seq<StateId>,
    n: int,
) -> FstView<W> {
    f.with_states(
        Seq::new(
            f.states.len(),
            |t: int|
                if t < n {
                    renumbered_state(f.states[inverse[t] as int], order)
                } else {
                    StateView::<W>::empty()
                },
        ),
    ).with_properties(Set::empty())
}

/// Moves each state `s` to the place `order[s]`. The property bits stay but
/// for those that speak of the places. An `order` that is no permutation of
/// the states is refused, and nothing is changed.
pub fn state_sort<W: Semiring, F: MutableFst<W>>(fst: &mut F, order: &[StateId]) -> (r: Result<
    (),
    FstError,
>)
    requires
        old(fst)@.wf(),
    ensures
        final(fst)@.wf(),
        match r {
            Ok(_) => order@.len() == old(fst)@.states.len() && exists|inverse: Seq<StateId>|
                are_inverse_orders(order@, inverse) && final(fst)@ == #[trigger] renumbered(
                    old(fst)@,
                    order@,
                    inverse,
                    state_sort_kept_properties(old(fst)@.properties),
                ),
            Err(e) => e == FstError::InvalidInput && final(fst)@ == old(fst)@ && !(order@.len()
                == old(fst)@.states.len() && is_permutation(order@)),
        },
{
    let ghost f = fst@;
    let n = fst.num_states();
    if order.len() != n {
        return Err(FstError::InvalidInput);
    }
    let inverse = match invert_order(order) {
        Some(inverse) => inverse,
        None => {
            return Err(FstError::InvalidInput);
        },
    };
    let props = fst.properties();
    let start = fst.start();
    let mut finals: Vec<Option<W>> = Vec::new();
    let mut all_trs: Vec<Vec<Tr<W>>> = Vec::new();
    let mut s: usize = 0;
    proof {
        f.lemma_with_properties_wf(Set::empty());
        assert(f.with_properties(Set::empty()) =~= emptied_upto(f, 0).with_properties(
            Set::empty(),
        ));
    }
    fst.set_properties(FstProperties::empty());
    while s < n
        invariant
            s <= n,
            n == f.states.len(),
            f.wf(),
            fst@.wf(),
            fst@ == emptied_upto(f, s as int).with_properties(Set::empty()),
            finals.len() == s,
            all_trs.len() == s,
            forall|t: int| 0 <= t < s ==> finals@[t] == f.states[t].final_weight,
            forall|t: int| 0 <= t < s ==> (#[trigger] all_trs@[t])@ == f.states[t].trs,
        decreases n - s,
    {
        let w = fst.take_final_weight_unchecked(s);
        let trs = fst.pop_trs_unchecked(s);
        finals.push(w);
        all_trs.push(trs);
        proof {
            let target = emptied_upto(f, s + 1).with_properties(Set::empty());
            assert(fst@.states =~= target.states);
            assert(fst@.properties =~= target.properties);
            assert(fst@ =~= target);
        }
        s += 1;
    }
    proof {
        assert(fst@.states =~= filled_upto(f, order@, inverse@, 0).states);
        assert(fst@ =~= filled_upto(f, order@, inverse@, 0));
    }
    let mut t: usize = 0;
    while t < n
        invariant
            t <= n,
            n == f.states.len(),
            n == order@.len(),
            f.wf(),
            fst@.wf(),
            are_inverse_orders(order@, inverse@),
            fst@ == filled_upto(f, order@, inverse@, t as int),
            finals.len() == n,
            all_trs.len() == n,
            forall|x: int| 0 <= x < n ==> finals@[x] == f.states[x].final_weight,
            forall|x: int| 0 <= x < n ==> (#[trigger] all_trs@[x])@ == f.states[x].trs,
        decreases n - t,
    {
        let old_place = inverse[t];
        proof {
            assert forall|i: int| 0 <= i < all_trs@[old_place as int]@.len() implies (#[trigger] all_trs@[old_place as int]@[i]).nextstate
                < order@.len() by {
                assert(f.has_tr(old_place as int, i));
            }
        }
        let trs = renumber_trs(&all_trs[old_place], order);
        proof {
            assert forall|i: int| 0 <= i < trs@.len() implies (#[trigger] trs@[i]).nextstate
                < fst@.states.len() by {
                assert(f.has_tr(old_place as int, i));
            }
        }
        fst.set_trs_unchecked(t, trs);
        match finals[old_place] {
            Some(w) => {
                proof {
                    assert(f.has_state(old_place as int));
                }
                fst.set_final_unchecked(t, w);
                proof {
                    f.lemma_with_properties_wf(Set::empty());
                }
                let ghost before = fst@;
                proof {
                    before.lemma_with_properties_wf(Set::empty());
                }
                fst.set_properties(FstProperties::empty());
            },
            None => {},
        }
        proof {
            let target = filled_upto(f, order@, inverse@, t + 1);
            assert(fst@.states =~= target.states);
            assert(fst@.properties =~= target.properties);
            assert(fst@ =~= target);
        }
        t += 1;
    }
    match start {
        Some(st) => {
            fst.set_start_unchecked(order[st]);
        },
        None => {},
    }
    let kept = props.remove_bit(TOP_SORTED_BIT).remove_bit(NOT_TOP_SORTED_BIT);
    proof {
        let g = renumbered(f, order@, inverse@, state_sort_kept_properties(f.properties));
        lemma_renumbered_wf(f, order@, inverse@, state_sort_kept_properties(f.properties));
        assert(fst@.states =~= g.states);
        fst@.lemma_same_states_same_facts(g);
        assert(fst@.properties_hold(kept@));
    }
    fst.set_properties(kept);
    proof {
        let g = renumbered(f, order@, inverse@, state_sort_kept_properties(f.properties));
        assert(fst@ =~= g);
    }
    Ok(())
}

} // verus!
