//! Topological sorting: renumbering the states so that every transition
//! leads to a state with a higher index.

use vstd::prelude::*;
use crate::algorithms::dfs::{compute_top_order, is_topological_order};
use crate::algorithms::state_sort::{
    are_inverse_orders, lemma_renumbered_back, lemma_renumbered_graph_wf, lemma_renumbered_path,
    renumbered, renumbered_steps, state_sort, state_sort_kept_properties,
};
use crate::error::FstError;
use crate::fst_properties::{
    FstProperties, ACYCLIC_BIT, CYCLIC_BIT, NOT_TOP_SORTED_BIT, TOP_SORTED_BIT,
};
use crate::fst_traits::{Fst, MutableFst};
use crate::fst_view::{tr_meets, FstView, Step};
use crate::semirings::semiring::Semiring;
use crate::tr::StateId;

verus! {

/// The property bits after a topological sort: what was known, and that the
/// transducer is sorted and has no cycle.
pub open spec fn top_sort_properties(bits: Set<u64>) -> Set<u64> {
    bits.remove(NOT_TOP_SORTED_BIT).remove(CYCLIC_BIT).insert(TOP_SORTED_BIT).insert(ACYCLIC_BIT)
}

/// Whether `sorted` is what a topological sort makes of `given`: the
/// given transducer itself where it is sorted, and else the given transducer with its states
/// renumbered in a topological order. Either way the bits that say so are set.
pub open spec fn is_top_sort_of<W: Semiring>(sorted: FstView<W>, given: FstView<W>) -> bool {
    if given.every_tr_meets(TOP_SORTED_BIT) {
        sorted == given.with_properties(top_sort_properties(given.properties))
    } else {
        exists|order: Seq<StateId>, inverse: Seq<StateId>|
            is_topological_order(given, order) && are_inverse_orders(order, inverse) && sorted
                == #[trigger] renumbered(
                given,
                order,
                inverse,
                top_sort_properties(given.properties),
            )
    }
}

/// Whether every transition leads to a state with a higher index.
pub fn is_top_sorted<W: Semiring, F: Fst<W>>(fst: &F) -> (b: bool)
    ensures
        b == fst@.every_tr_meets(TOP_SORTED_BIT),
{
    let ghost f = fst@;
    let n = fst.num_states();
    let mut s: usize = 0;
    while s < n
        invariant
            s <= n,
            f == fst@,
            n == f.states.len(),
            forall|t: int, i: int| t < s && #[trigger] f.has_tr(t, i) ==> f.tr(t, i).nextstate > t,
        decreases n - s,
    {
        let trs = fst.get_trs_unchecked(s);
        let mut i: usize = 0;
        while i < trs.len()
            invariant
                i <= trs.len(),
                s < n,
                f == fst@,
                n == f.states.len(),
                trs@ == f.states[s as int].trs,
                forall|t: int, j: int|
                    t < s && #[trigger] f.has_tr(t, j) ==> f.tr(t, j).nextstate > t,
                forall|j: int| 0 <= j < i ==> (#[trigger] trs@[j]).nextstate > s,
            decreases trs.len() - i,
        {
            if trs[i].nextstate <= s {
                proof {
                    assert(f.has_tr(s as int, i as int));
                    assert(trs@[i as int] == f.tr(s as int, i as int));
                    assert(!tr_meets(TOP_SORTED_BIT, s as int, f.tr(s as int, i as int)));
                }
                return false;
            }
            i += 1;
        }
        proof {
            assert forall|t: int, j: int| t < s + 1 && #[trigger] f.has_tr(t, j) implies f.tr(
                t,
                j,
            ).nextstate > t by {
                if t == s {
                    assert(trs@[j] == f.tr(t, j));
                }
            }
        }
        s += 1;
    }
    proof {
        assert forall|t: int, i: int| #[trigger] f.has_tr(t, i) implies tr_meets(
            TOP_SORTED_BIT,
            t,
            f.tr(t, i),
        ) by {}
    }
    true
}

/// The four bits that a topological sort decides.
fn top_sort_mask() -> (p: FstProperties)
    ensures
        p@ == set![TOP_SORTED_BIT, NOT_TOP_SORTED_BIT, CYCLIC_BIT, ACYCLIC_BIT],
{
    let p = FstProperties::empty().insert_bit(TOP_SORTED_BIT).insert_bit(
        NOT_TOP_SORTED_BIT,
    ).insert_bit(CYCLIC_BIT).insert_bit(ACYCLIC_BIT);
    assert(p@ =~= set![TOP_SORTED_BIT, NOT_TOP_SORTED_BIT, CYCLIC_BIT, ACYCLIC_BIT]);
    p
}

/// The two bits that hold after a topological sort.
fn top_sorted_bits() -> (p: FstProperties)
    ensures
        p@ == set![TOP_SORTED_BIT, ACYCLIC_BIT],
{
    let p = FstProperties::empty().insert_bit(TOP_SORTED_BIT).insert_bit(ACYCLIC_BIT);
    assert(p@ =~= set![TOP_SORTED_BIT, ACYCLIC_BIT]);
    p
}

/// A transducer renumbered in a topological order is sorted.
proof fn lemma_renumbered_is_sorted<W: Semiring>(
    f: FstView<W>,
    order: Seq<StateId>,
    inverse: Seq<StateId>,
    properties: Set<u64>,
)
    requires
        f.graph_wf(),
        is_topological_order(f, order),
        are_inverse_orders(order, inverse),
    ensures
        renumbered(f, order, inverse, properties).every_tr_meets(TOP_SORTED_BIT),
{
    let g = renumbered(f, order, inverse, properties);
    assert forall|t: int, i: int| #[trigger] g.has_tr(t, i) implies tr_meets(
        TOP_SORTED_BIT,
        t,
        g.tr(t, i),
    ) by {
        let s = inverse[t] as int;
        assert(f.has_tr(s, i));
        assert(order[s] < order[f.tr(s, i).nextstate as int]);
    }
}

/// Renumbers the states so that every transition leads to a state with a
/// higher index, and records that the transducer is sorted and has no cycle.
/// A transducer that is sorted already keeps its states as they are. A
/// transducer with a cycle cannot be sorted: it is refused and not changed.
pub fn top_sort<W: Semiring, F: MutableFst<W>>(fst: &mut F) -> (r: Result<(), FstError>)
    requires
        old(fst)@.wf(),
    ensures
        final(fst)@.wf(),
        match r {
            Ok(_) => !old(fst)@.has_cycle() && old(fst)@.is_acyclic() && is_top_sort_of(
                final(fst)@,
                old(fst)@,
            ) && final(fst)@.properties.contains(TOP_SORTED_BIT) && final(fst)@.every_tr_meets(
                TOP_SORTED_BIT,
            ),
            Err(e) => e == FstError::PropertyViolation && old(fst)@.has_cycle() && final(fst)@
                == old(fst)@,
        },
{
    let ghost f = fst@;
    if is_top_sorted(&*fst) {
        proof {
            f.lemma_top_sorted_is_acyclic();
            f.lemma_acyclic_has_no_cycle();
            assert(f.properties_hold(set![TOP_SORTED_BIT, ACYCLIC_BIT]));
        }
        fst.set_properties_with_mask(top_sorted_bits(), top_sort_mask());
        proof {
            assert(fst@.properties =~= top_sort_properties(f.properties));
            assert(fst@ =~= f.with_properties(top_sort_properties(f.properties)));
            fst@.lemma_same_states_same_facts(f);
            assert(fst@.property_fact(TOP_SORTED_BIT));
        }
        return Ok(());
    }
    let order = match compute_top_order(&*fst) {
        Some(order) => order,
        None => {
            return Err(FstError::PropertyViolation);
        },
    };
    proof {
        crate::algorithms::dfs::lemma_topological_order_is_rank(f, order@);
        f.lemma_acyclic_has_no_cycle();
    }
    match state_sort(fst, order.as_slice()) {
        Err(_) => {
            proof {
                assert(false);
            }
            Err(FstError::PropertyViolation)
        },
        Ok(_) => {
            let ghost kept = state_sort_kept_properties(f.properties);
            let ghost inverse = choose|inverse: Seq<StateId>|
                are_inverse_orders(order@, inverse) && fst@ == #[trigger] renumbered(
                    f,
                    order@,
                    inverse,
                    kept,
                );
            proof {
                lemma_renumbered_is_sorted(f, order@, inverse, kept);
                fst@.lemma_top_sorted_is_acyclic();
                assert(fst@.properties_hold(set![TOP_SORTED_BIT, ACYCLIC_BIT]));
            }
            fst.set_properties_with_mask(top_sorted_bits(), top_sort_mask());
            proof {
                assert(fst@.properties =~= top_sort_properties(f.properties));
                assert(fst@ =~= renumbered(
                    f,
                    order@,
                    inverse,
                    top_sort_properties(f.properties),
                ));
                lemma_renumbered_is_sorted(f, order@, inverse, top_sort_properties(f.properties));
            }
            Ok(())
        },
    }
}

/// A successful path of a transducer is a successful path of the renumbered
/// one, step for step, with the same labels, the same weight and the same
/// final weight.
pub proof fn lemma_renumbered_accepting_path<W: Semiring>(
    f: FstView<W>,
    order: Seq<StateId>,
    inverse: Seq<StateId>,
    properties: Set<u64>,
    p: Seq<Step>,
    to: int,
)
    requires
        f.graph_wf(),
        order.len() == f.states.len(),
        are_inverse_orders(order, inverse),
        f.is_accepting_path(p, to),
    ensures
        renumbered(f, order, inverse, properties).is_accepting_path(
            renumbered_steps(p, order),
            order[to] as int,
        ),
        renumbered(f, order, inverse, properties).path_ilabels(renumbered_steps(p, order))
            == f.path_ilabels(p),
        renumbered(f, order, inverse, properties).path_olabels(renumbered_steps(p, order))
            == f.path_olabels(p),
        renumbered(f, order, inverse, properties).path_weight(renumbered_steps(p, order))
            == f.path_weight(p),
        renumbered(f, order, inverse, properties).states[order[to] as int].final_weight
            == f.states[to].final_weight,
        renumbered_steps(renumbered_steps(p, order), inverse) == p,
{
    let start = f.start->0 as int;
    lemma_renumbered_path(f, order, inverse, properties, start, p, to);
    f.lemma_path_ends(start, p, to);
    assert(inverse[order[to] as int] == to);
    f.lemma_path_steps_valid(start, p, to);
    assert forall|i: int| 0 <= i < p.len() implies renumbered_steps(
        renumbered_steps(p, order),
        inverse,
    )[i] == p[i] by {
        assert(f.has_tr(p[i].0, p[i].1));
        assert(inverse[order[p[i].0] as int] == p[i].0);
    }
    assert(renumbered_steps(renumbered_steps(p, order), inverse) =~= p);
}

/// A successful path of the renumbered transducer is a successful path of
/// the given transducer, step for step, with the same labels, the same weight and
/// the same final weight. Together with the lemma before it this makes the
/// renumbering of steps a one-to-one correspondence between the successful
/// paths of the two.
pub proof fn lemma_renumbered_accepting_path_back<W: Semiring>(
    f: FstView<W>,
    order: Seq<StateId>,
    inverse: Seq<StateId>,
    properties: Set<u64>,
    q: Seq<Step>,
    to: int,
)
    requires
        f.graph_wf(),
        order.len() == f.states.len(),
        are_inverse_orders(order, inverse),
        renumbered(f, order, inverse, properties).is_accepting_path(q, to),
    ensures
        f.is_accepting_path(renumbered_steps(q, inverse), inverse[to] as int),
        f.path_ilabels(renumbered_steps(q, inverse)) == renumbered(
            f,
            order,
            inverse,
            properties,
        ).path_ilabels(q),
        f.path_olabels(renumbered_steps(q, inverse)) == renumbered(
            f,
            order,
            inverse,
            properties,
        ).path_olabels(q),
        f.path_weight(renumbered_steps(q, inverse)) == renumbered(
            f,
            order,
            inverse,
            properties,
        ).path_weight(q),
        f.states[inverse[to] as int].final_weight == renumbered(
            f,
            order,
            inverse,
            properties,
        ).states[to].final_weight,
        renumbered_steps(renumbered_steps(q, inverse), order) == q,
{
    let g = renumbered(f, order, inverse, properties);
    lemma_renumbered_graph_wf(f, order, inverse, properties);
    lemma_renumbered_back(f, order, inverse, properties);
    lemma_renumbered_accepting_path(g, inverse, order, f.properties, q, to);
}

/// A topological sort keeps the successful paths: renumbering the steps is
/// a one-to-one correspondence between the successful paths of the given transducer
/// and those of the sorted transducer that keeps labels and weights.
pub proof fn lemma_top_sort_keeps_paths<W: Semiring>(
    given: FstView<W>,
    sorted: FstView<W>,
) -> (r: (Seq<StateId>, Seq<StateId>))
    requires
        given.wf(),
        given.states.len() <= usize::MAX,
        is_top_sort_of(sorted, given),
    ensures
        are_inverse_orders(r.0, r.1),
        r.0.len() == given.states.len(),
        sorted == renumbered(given, r.0, r.1, sorted.properties),
        sorted.properties.contains(TOP_SORTED_BIT),
{
    if given.every_tr_meets(TOP_SORTED_BIT) {
        let id = Seq::new(given.states.len(), |s: int| s as usize);
        let g = renumbered(given, id, id, sorted.properties);
        assert forall|s: int| 0 <= s < given.states.len() implies g.states[s]
            == given.states[s] by {
            assert forall|i: int| 0 <= i < given.states[s].trs.len() implies g.states[s].trs[i]
                == given.states[s].trs[i] by {
                assert(given.has_tr(s, i));
            }
            assert(g.states[s].trs =~= given.states[s].trs);
        }
        assert(g.states =~= given.states);
        assert(g =~= sorted);
        (id, id)
    } else {
        let (order, inverse) = choose|order: Seq<StateId>, inverse: Seq<StateId>|
            is_topological_order(given, order) && are_inverse_orders(order, inverse) && sorted
                == #[trigger] renumbered(
                given,
                order,
                inverse,
                top_sort_properties(given.properties),
            );
        (order, inverse)
    }
}

} // verus!
