//! Mapping: giving each transition and each final weight of a transducer
//! what a mapper makes of it.

use vstd::prelude::*;
use crate::error::FstError;
use crate::fst_traits::MutableFst;
use crate::fst_view::{FstView, StateView};
use crate::semirings::semiring::Semiring;
use crate::tr::{Label, Tr, EPS_LABEL};

verus! {

/// A final weight as a mapper sees it: as a transition that leads nowhere,
/// with ε on both sides.
#[derive(Clone, Copy, Debug, PartialEq, Eq)]
pub struct FinalTr<W: Semiring> {
    pub ilabel: Label,
    pub olabel: Label,
    pub weight: W,
}

/// What changes the transitions and the final weights of a transducer one
/// by one. A mapper may change the labels and the weight of a transition,
/// not the state that it leads to.
pub trait TrMapper<W: Semiring> {
    /// What the mapper makes of a transition.
    spec fn mapped_tr(&self, tr: Tr<W>) -> Tr<W>;

    /// What the mapper makes of a final weight.
    spec fn mapped_final(&self, weight: W) -> W;

    /// The mapper leaves the target of a transition as it is.
    proof fn lemma_keeps_target(&self, tr: Tr<W>)
        ensures
            self.mapped_tr(tr).nextstate == tr.nextstate,
    ;

    /// Changes a transition.
    fn tr_map(&self, tr: &mut Tr<W>)
        ensures
            *final(tr) == self.mapped_tr(*old(tr)),
    ;

    /// Changes a final weight. The labels that are handed back are not
    /// used.
    fn final_tr_map(&self, final_tr: &mut FinalTr<W>)
        ensures
            final(final_tr).weight == self.mapped_final(old(final_tr).weight),
    ;
}

/// The mapper that changes nothing.
pub struct IdentityTrMapper {}

impl<W: Semiring> TrMapper<W> for IdentityTrMapper {
    open spec fn mapped_tr(&self, tr: Tr<W>) -> Tr<W> {
        tr
    }

    open spec fn mapped_final(&self, weight: W) -> W {
        weight
    }

    proof fn lemma_keeps_target(&self, tr: Tr<W>) {
    }

    fn tr_map(&self, tr: &mut Tr<W>) {
    }

    fn final_tr_map(&self, final_tr: &mut FinalTr<W>) {
    }
}

/// The mapper that takes the weights away: each transition and each final
/// state gets the weight `1̄`.
pub struct RmWeightMapper {}

impl<W: Semiring> TrMapper<W> for RmWeightMapper {
    open spec fn mapped_tr(&self, tr: Tr<W>) -> Tr<W> {
        tr.with_weight(W::one_spec())
    }

    open spec fn mapped_final(&self, weight: W) -> W {
        W::one_spec()
    }

    proof fn lemma_keeps_target(&self, tr: Tr<W>) {
    }

    fn tr_map(&self, tr: &mut Tr<W>) {
        tr.weight = W::one();
    }

    fn final_tr_map(&self, final_tr: &mut FinalTr<W>) {
        final_tr.weight = W::one();
    }
}

/// The mapper that multiplies each weight by a weight from the right.
pub struct TimesMapper<W: Semiring> {
    pub to_multiply: W,
}

impl<W: Semiring> TrMapper<W> for TimesMapper<W> {
    open spec fn mapped_tr(&self, tr: Tr<W>) -> Tr<W> {
        tr.with_weight(tr.weight.times_spec(self.to_multiply))
    }

    open spec fn mapped_final(&self, weight: W) -> W {
        weight.times_spec(self.to_multiply)
    }

    proof fn lemma_keeps_target(&self, tr: Tr<W>) {
    }

    fn tr_map(&self, tr: &mut Tr<W>) {
        tr.weight = tr.weight.times(&self.to_multiply);
    }

    fn final_tr_map(&self, final_tr: &mut FinalTr<W>) {
        final_tr.weight = final_tr.weight.times(&self.to_multiply);
    }
}

/// The transitions, each as the mapper makes it.
pub open spec fn mapped_trs<W: Semiring, M: TrMapper<W>>(trs: Seq<Tr<W>>, mapper: M) -> Seq<Tr<W>> {
    Seq::new(trs.len(), |i: int| mapper.mapped_tr(trs[i]))
}

/// The state with its transitions and its final weight as the mapper makes
/// them. A final weight that becomes `0̄` leaves the state not final.
pub open spec fn mapped_state<W: Semiring, M: TrMapper<W>>(
    state: StateView<W>,
    mapper: M,
) -> StateView<W> {
    StateView {
        final_weight: match state.final_weight {
            Some(w) => FstView::<W>::kept_final(mapper.mapped_final(w)),
            None => None,
        },
        trs: mapped_trs(state.trs, mapper),
    }
}

/// The transducer with its first `n` states mapped, and no property bit.
pub open spec fn mapped_upto<W: Semiring, M: TrMapper<W>>(
    f: FstView<W>,
    mapper: M,
    n: int,
) -> FstView<W> {
    f.with_states(
        Seq::new(
            f.states.len(),
            |s: int|
                if s < n {
                    mapped_state(f.states[s], mapper)
                } else {
                    f.states[s]
                },
        ),
    ).with_properties(Set::empty())
}

/// The transducer with every transition and every final weight as the
/// mapper makes them. Nothing is known of it.
pub open spec fn mapped<W: Semiring, M: TrMapper<W>>(f: FstView<W>, mapper: M) -> FstView<W> {
    mapped_upto(f, mapper, f.states.len() as int)
}

/// Gives each transition and each final weight of the transducer what the
/// mapper makes of it, in place. Every property bit is cleared.
pub fn tr_map<W: Semiring, F: MutableFst<W>, M: TrMapper<W>>(fst: &mut F, mapper: &M) -> (r: Result<
    (),
    FstError,
>)
    requires
        old(fst)@.wf(),
    ensures
        r is Ok,
        final(fst)@.wf(),
        final(fst)@ == mapped(old(fst)@, *mapper),
{
    fst.tr_map(mapper)
}

/// The final weight as a mapper is to see it.
pub fn final_tr_of<W: Semiring>(weight: W) -> (r: FinalTr<W>)
    ensures
        r.weight == weight,
        r.ilabel == EPS_LABEL,
        r.olabel == EPS_LABEL,
{
    FinalTr { ilabel: EPS_LABEL, olabel: EPS_LABEL, weight }
}

} // verus!
