//! Tests of what every transducer of the library satisfies.

use vstd::prelude::*;
use crate::algorithms::compute_properties::{all_fst_properties, compute_fst_properties};
use crate::fst_traits::Fst;
use crate::semirings::semiring::Semiring;

verus! {

/// Whether the start state exists, every transition leads to a state that
/// exists, and no state has `0̄` as its final weight.
pub fn is_graph_well_formed<W: Semiring, F: Fst<W>>(fst: &F) -> (ok: bool)
    ensures
        ok == fst@.graph_wf(),
{
    let ghost f = fst@;
    let n = fst.num_states();
    match fst.start() {
        Some(start) => {
            if start >= n {
                return false;
            }
        },
        None => {},
    }
    let mut s: usize = 0;
    while s < n
        invariant
            s <= n,
            f == fst@,
            n == f.states.len(),
            forall|t: int, i: int|
                0 <= t < s && #[trigger] f.has_tr(t, i) ==> f.tr(t, i).nextstate < n,
            forall|t: int| 0 <= t < s ==> (#[trigger] f.states[t]).final_weight != Some(W::zero_spec()),
        decreases n - s,
    {
        match fst.final_weight_unchecked(s) {
            Some(w) => {
                if w.is_zero() {
                    assert(f.has_state(s as int));
                    return false;
                }
            },
            None => {},
        }
        let trs = fst.get_trs_unchecked(s);
        let mut i: usize = 0;
        while i < trs.len()
            invariant
                i <= trs.len(),
                s < n,
                f == fst@,
                n == f.states.len(),
                trs@ == f.states[s as int].trs,
                forall|j: int| 0 <= j < i ==> (#[trigger] trs@[j]).nextstate < n,
            decreases trs.len() - i,
        {
            if trs[i].nextstate >= n {
                assert(f.has_tr(s as int, i as int));
                return false;
            }
            i += 1;
        }
        s += 1;
    }
    true
}

/// Whether the transducer is a well-formed graph and each of its property
/// bits states a fact about it.
pub fn is_well_formed<W: Semiring, F: Fst<W>>(fst: &F) -> (ok: bool)
    ensures
        ok == fst@.wf(),
{
    if !is_graph_well_formed(fst) {
        return false;
    }
    let truth = compute_fst_properties(fst);
    let known = fst.properties().intersection(all_fst_properties());
    let ok = truth.contains(known);
    proof {
        let f = fst@;
        if ok {
            assert forall|k: u64| f.properties.contains(k) implies #[trigger] f.property_fact(
                k,
            ) by {
                if crate::algorithms::compute_properties::is_property_bit(k) {
                    assert(known@.contains(k));
                    assert(truth@.contains(k));
                }
            }
        } else {
            let k = choose|k: u64| known@.contains(k) && !truth@.contains(k);
            assert(f.properties.contains(k));
            assert(!f.property_fact(k));
        }
    }
    ok
}

} // verus!
