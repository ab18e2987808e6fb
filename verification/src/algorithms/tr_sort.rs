//! Sorting the transitions of every state.

use std::cmp::Ordering;
use vstd::prelude::*;
use crate::algorithms::sorting::{is_stable_sort_of, is_strict_weak_order};
use crate::fst_traits::{compare_models, MutableFst};
use crate::fst_view::FstView;
use crate::fst_view_update::sort_kept_properties;
use crate::semirings::semiring::Semiring;
use crate::tr::{StateId, Tr};

verus! {

/// How the input labels of two transitions compare.
pub open spec fn ilabel_order<W: Semiring>(a: Tr<W>, b: Tr<W>) -> Ordering {
    if a.ilabel < b.ilabel {
        Ordering::Less
    } else if a.ilabel == b.ilabel {
        Ordering::Equal
    } else {
        Ordering::Greater
    }
}

/// How the output labels of two transitions compare.
pub open spec fn olabel_order<W: Semiring>(a: Tr<W>, b: Tr<W>) -> Ordering {
    if a.olabel < b.olabel {
        Ordering::Less
    } else if a.olabel == b.olabel {
        Ordering::Equal
    } else {
        Ordering::Greater
    }
}

/// Compares only input labels.
pub fn ilabel_compare<W: Semiring>(a: &Tr<W>, b: &Tr<W>) -> (o: Ordering)
    ensures
        o == ilabel_order(*a, *b),
{
    if a.ilabel < b.ilabel {
        Ordering::Less
    } else if a.ilabel == b.ilabel {
        Ordering::Equal
    } else {
        Ordering::Greater
    }
}

/// Compares only output labels.
pub fn olabel_compare<W: Semiring>(a: &Tr<W>, b: &Tr<W>) -> (o: Ordering)
    ensures
        o == olabel_order(*a, *b),
{
    if a.olabel < b.olabel {
        Ordering::Less
    } else if a.olabel == b.olabel {
        Ordering::Equal
    } else {
        Ordering::Greater
    }
}

/// Whether the input label of `a` is below that of `b`.
pub open spec fn ilabel_below<W: Semiring>() -> spec_fn(Tr<W>, Tr<W>) -> bool {
    |a: Tr<W>, b: Tr<W>| a.ilabel < b.ilabel
}

/// Whether the output label of `a` is below that of `b`.
pub open spec fn olabel_below<W: Semiring>() -> spec_fn(Tr<W>, Tr<W>) -> bool {
    |a: Tr<W>, b: Tr<W>| a.olabel < b.olabel
}

/// `ilabel_compare` answers as the order of the input labels does, which is a
/// strict weak order.
pub proof fn lemma_ilabel_compare_is_order<W: Semiring>()
    ensures
        compare_models(ilabel_compare::<W>, ilabel_below::<W>()),
        is_strict_weak_order(ilabel_below::<W>()),
{
}

/// `olabel_compare` answers as the order of the output labels does, which is
/// a strict weak order.
pub proof fn lemma_olabel_compare_is_order<W: Semiring>()
    ensures
        compare_models(olabel_compare::<W>, olabel_below::<W>()),
        is_strict_weak_order(olabel_below::<W>()),
{
}

/// Whether `sorted` arises from `given` by putting the transitions of the
/// first `n` states in the order of `comp`: nothing else differs but the
/// property bits, of which those stay that no order can change.
pub open spec fn is_tr_sorted_upto<W: Semiring, C: Fn(&Tr<W>, &Tr<W>) -> Ordering>(
    sorted: FstView<W>,
    given: FstView<W>,
    comp: C,
    n: StateId,
) -> bool {
    &&& sorted.start == given.start
    &&& sorted.isymt == given.isymt
    &&& sorted.osymt == given.osymt
    &&& sorted.states.len() == given.states.len()
    &&& sorted.properties == if n == 0 {
        given.properties
    } else {
        given.properties.intersect(sort_kept_properties())
    }
    &&& forall|s: StateId|
        s < sorted.states.len() ==> #[trigger] sorted.final_at(s) == given.final_at(s)
    &&& forall|s: StateId|
        n <= s < sorted.states.len() ==> #[trigger] sorted.trs_at(s) == given.trs_at(s)
    &&& forall|s: StateId|
        s < n ==> (#[trigger] sorted.trs_at(s)).to_multiset() == given.trs_at(s).to_multiset()
    &&& forall|s: StateId, lt: spec_fn(Tr<W>, Tr<W>) -> bool|
        #![trigger sorted.trs_at(s), compare_models(comp, lt)]
        s < n && compare_models(comp, lt) && is_strict_weak_order(lt) ==> is_stable_sort_of(
            sorted.trs_at(s),
            given.trs_at(s),
            lt,
        )
}

/// Whether `sorted` arises from `given` by putting the transitions of every
/// state in the order of `comp`: each state has the transitions it had,
/// stably sorted where `comp` answers as a strict weak order does; nothing
/// else differs but the property bits, of which those stay that no order can
/// change.
pub open spec fn is_tr_sorted<W: Semiring, C: Fn(&Tr<W>, &Tr<W>) -> Ordering>(
    sorted: FstView<W>,
    given: FstView<W>,
    comp: C,
) -> bool {
    &&& sorted.start == given.start
    &&& sorted.isymt == given.isymt
    &&& sorted.osymt == given.osymt
    &&& sorted.states.len() == given.states.len()
    &&& sorted.properties == if given.states.len() == 0 {
        given.properties
    } else {
        given.properties.intersect(sort_kept_properties())
    }
    &&& forall|s: StateId|
        s < sorted.states.len() ==> #[trigger] sorted.final_at(s) == given.final_at(s)
    &&& forall|s: StateId|
        s < sorted.states.len() ==> (#[trigger] sorted.trs_at(s)).to_multiset() == given.trs_at(
            s,
        ).to_multiset()
    &&& forall|s: StateId, lt: spec_fn(Tr<W>, Tr<W>) -> bool|
        #![trigger sorted.trs_at(s), compare_models(comp, lt)]
        s < sorted.states.len() && compare_models(comp, lt) && is_strict_weak_order(lt)
            ==> is_stable_sort_of(sorted.trs_at(s), given.trs_at(s), lt)
}

/// Sorts the transitions that leave each state by `comp`, which says of two
/// transitions whether the first comes before, with or after the second. The
/// sort is stable.
pub fn tr_sort<W: Semiring, F: MutableFst<W>, C: Fn(&Tr<W>, &Tr<W>) -> Ordering>(
    fst: &mut F,
    comp: C,
)
    requires
        old(fst)@.wf(),
        forall|a: Tr<W>, b: Tr<W>| call_requires(comp, (&a, &b)),
    ensures
        final(fst)@.wf(),
        is_tr_sorted(final(fst)@, old(fst)@, comp),
{
    let ghost given = fst@;
    let n = fst.num_states();
    let mut state: usize = 0;
    while state < n
        invariant
            state <= n,
            n == given.states.len(),
            fst@.wf(),
            forall|a: Tr<W>, b: Tr<W>| call_requires(comp, (&a, &b)),
            is_tr_sorted_upto(fst@, given, comp, state),
        decreases n - state,
    {
        let ghost before = fst@;
        fst.sort_trs_unchecked(state, &comp);
        proof {
            let after = fst@;
            assert forall|s: StateId| s < after.states.len() implies #[trigger] after.final_at(s)
                == given.final_at(s) by {
                assert(before.final_at(s) == given.final_at(s));
            }
            assert forall|s: StateId| state < s < after.states.len() implies #[trigger]
                after.trs_at(s) == given.trs_at(s) by {
                assert(before.trs_at(s) == given.trs_at(s));
            }
            assert(before.trs_at(state) == given.trs_at(state));
            assert forall|s: StateId| s <= state implies (#[trigger] after.trs_at(
                s,
            )).to_multiset() == given.trs_at(s).to_multiset() by {
                if s < state {
                    assert(after.trs_at(s) == before.trs_at(s));
                }
            }
            assert forall|s: StateId, lt: spec_fn(Tr<W>, Tr<W>) -> bool|
                #![trigger after.trs_at(s), compare_models(comp, lt)]
                s <= state && compare_models(comp, lt) && is_strict_weak_order(
                    lt,
                ) implies is_stable_sort_of(after.trs_at(s), given.trs_at(s), lt) by {
                if s < state {
                    assert(after.trs_at(s) == before.trs_at(s));
                    assert(is_stable_sort_of(before.trs_at(s), given.trs_at(s), lt));
                }
            }
            assert(after.properties =~= given.properties.intersect(sort_kept_properties()));
        }
        state += 1;
    }
}

} // verus!
