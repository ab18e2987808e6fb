//! The property bits that survive each mutation, computed on the bit set.

use vstd::prelude::*;
use crate::fst_properties::{
    FstProperties, ACCEPTOR_BIT, ACYCLIC_BIT, EPSILONS_BIT, I_DETERMINISTIC_BIT, I_EPSILONS_BIT,
    I_LABEL_SORTED_BIT, NOT_ACCEPTOR_BIT, NOT_I_LABEL_SORTED_BIT, NOT_O_LABEL_SORTED_BIT,
    NOT_TOP_SORTED_BIT, NO_EPSILONS_BIT, NO_I_EPSILONS_BIT, NO_O_EPSILONS_BIT,
    O_DETERMINISTIC_BIT, O_EPSILONS_BIT, O_LABEL_SORTED_BIT, TOP_SORTED_BIT, UNWEIGHTED_BIT,
    WEIGHTED_BIT,
};
use crate::fst_view_update::{
    add_tr_properties, null_properties, set_final_properties, sort_kept_properties,
};
use crate::semirings::semiring::Semiring;
use crate::tr::{StateId, Tr, EPS_LABEL};

verus! {

/// The bits that hold of a transducer without transitions.
pub fn null_fst_properties() -> (p: FstProperties)
    ensures
        p@ == null_properties(),
{
    let p = FstProperties::empty().insert_bit(ACCEPTOR_BIT).insert_bit(
        I_DETERMINISTIC_BIT,
    ).insert_bit(O_DETERMINISTIC_BIT).insert_bit(NO_EPSILONS_BIT).insert_bit(
        NO_I_EPSILONS_BIT,
    ).insert_bit(NO_O_EPSILONS_BIT).insert_bit(I_LABEL_SORTED_BIT).insert_bit(
        O_LABEL_SORTED_BIT,
    ).insert_bit(UNWEIGHTED_BIT).insert_bit(ACYCLIC_BIT).insert_bit(TOP_SORTED_BIT);
    assert(p@ =~= null_properties());
    p
}

/// The bits that survive when the transitions of a state change their order.
pub fn sort_kept_fst_properties() -> (p: FstProperties)
    ensures
        p@ == sort_kept_properties(),
{
    let p = null_fst_properties().remove_bit(I_DETERMINISTIC_BIT).remove_bit(
        O_DETERMINISTIC_BIT,
    ).remove_bit(I_LABEL_SORTED_BIT).remove_bit(O_LABEL_SORTED_BIT);
    assert(p@ =~= set![
        ACCEPTOR_BIT,
        NO_EPSILONS_BIT,
        NO_I_EPSILONS_BIT,
        NO_O_EPSILONS_BIT,
        UNWEIGHTED_BIT,
        ACYCLIC_BIT,
        TOP_SORTED_BIT,
    ]);
    let q = p.insert_bit(NOT_ACCEPTOR_BIT).insert_bit(EPSILONS_BIT).insert_bit(
        I_EPSILONS_BIT,
    ).insert_bit(O_EPSILONS_BIT).insert_bit(WEIGHTED_BIT).insert_bit(NOT_TOP_SORTED_BIT);
    assert(q@ =~= sort_kept_properties());
    q
}

/// The bits that survive when a state is given the final weight `w`.
pub fn compute_set_final_properties<W: Semiring>(props: FstProperties, w: &W) -> (p: FstProperties)
    ensures
        p@ == set_final_properties(props@, *w),
{
    if w.is_zero() || w.is_one() {
        props.remove_bit(WEIGHTED_BIT)
    } else {
        props.remove_bit(UNWEIGHTED_BIT).insert_bit(WEIGHTED_BIT)
    }
}

/// The bits that survive when `tr` is appended to state `s`, whose last
/// transition had been `prev`.
pub fn compute_add_tr_properties<W: Semiring>(
    props: FstProperties,
    s: StateId,
    tr: &Tr<W>,
    prev: Option<Tr<W>>,
) -> (p: FstProperties)
    ensures
        p@ == add_tr_properties(props@, s as int, *tr, prev),
{
    let mut p = props.remove_bit(I_DETERMINISTIC_BIT).remove_bit(O_DETERMINISTIC_BIT).remove_bit(
        ACYCLIC_BIT,
    );
    if tr.ilabel != tr.olabel {
        p = p.remove_bit(ACCEPTOR_BIT).insert_bit(NOT_ACCEPTOR_BIT);
    }
    if tr.ilabel == EPS_LABEL {
        p = p.remove_bit(NO_I_EPSILONS_BIT).insert_bit(I_EPSILONS_BIT);
        if tr.olabel == EPS_LABEL {
            p = p.remove_bit(NO_EPSILONS_BIT).insert_bit(EPSILONS_BIT);
        }
    }
    if tr.olabel == EPS_LABEL {
        p = p.remove_bit(NO_O_EPSILONS_BIT).insert_bit(O_EPSILONS_BIT);
    }
    if !(tr.weight.is_zero() || tr.weight.is_one()) {
        p = p.remove_bit(UNWEIGHTED_BIT).insert_bit(WEIGHTED_BIT);
    }
    if tr.nextstate <= s {
        p = p.remove_bit(TOP_SORTED_BIT).insert_bit(NOT_TOP_SORTED_BIT);
    }
    match prev {
        Some(q) => {
            if q.ilabel > tr.ilabel {
                p = p.remove_bit(I_LABEL_SORTED_BIT).insert_bit(NOT_I_LABEL_SORTED_BIT);
            }
            if q.olabel > tr.olabel {
                p = p.remove_bit(O_LABEL_SORTED_BIT).insert_bit(NOT_O_LABEL_SORTED_BIT);
            }
        },
        None => {},
    }
    assert(p@ =~= add_tr_properties(props@, s as int, *tr, prev));
    p
}

} // verus!
