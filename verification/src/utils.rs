//! Builders for the simplest transducers.

use vstd::prelude::*;
use crate::algorithms::compute_properties::true_properties;
use crate::error::FstError;
use crate::fst_properties::FstProperties;
use crate::fst_traits::MutableFst;
use crate::fst_view::{FstView, StateView};
use crate::semirings::semiring::Semiring;
use crate::tr::{Label, Tr};

verus! {

/// The transition of a linear transducer that leaves state `i`.
pub open spec fn linear_tr<W: Semiring>(ilabels: Seq<Label>, olabels: Seq<Label>, i: int) -> Tr<W> {
    Tr { ilabel: ilabels[i], olabel: olabels[i], weight: W::one_spec(), nextstate: (i + 1) as usize }
}

/// The states of the linear transducer of `n` transitions: a chain in which
/// state `i` has the one transition to state `i + 1`, and the last state is
/// final with weight `1̄`.
pub open spec fn linear_states<W: Semiring>(
    ilabels: Seq<Label>,
    olabels: Seq<Label>,
    n: nat,
) -> Seq<StateView<W>> {
    Seq::new(
        n + 1,
        |i: int|
            if i < n {
                StateView {
                    final_weight: None,
                    trs: seq![linear_tr::<W>(ilabels, olabels, i)],
                }
            } else {
                StateView { final_weight: FstView::<W>::kept_final(W::one_spec()), trs: Seq::empty() }
            },
    )
}

/// The number of transitions of the linear transducer of two label
/// sequences: the length of the shorter.
pub open spec fn linear_len(ilabels: Seq<Label>, olabels: Seq<Label>) -> nat {
    if ilabels.len() <= olabels.len() {
        ilabels.len()
    } else {
        olabels.len()
    }
}

/// The chain with `k` of its transitions in place and no final state yet.
pub open spec fn chain_upto<W: Semiring>(
    ilabels: Seq<Label>,
    olabels: Seq<Label>,
    n: nat,
    k: int,
) -> Seq<StateView<W>> {
    Seq::new(
        n + 1,
        |i: int|
            if i < k {
                StateView {
                    final_weight: None,
                    trs: seq![linear_tr::<W>(ilabels, olabels, i)],
                }
            } else {
                StateView::<W>::empty()
            },
    )
}

/// The transducer that maps the string `labels_input` to the string
/// `labels_output` with weight `1̄`, label by label. Where one string is
/// longer than the other, what it has more is left out. Every property bit
/// that states a fact about the transducer is set, and no other.
pub fn transducer<W: Semiring, F: MutableFst<W>>(
    labels_input: &[Label],
    labels_output: &[Label],
) -> (r: Result<F, FstError>)
    ensures
        match r {
            Ok(fst) => fst@.wf() && fst@.start == Some(0usize) && fst@.states == linear_states::<
                W,
            >(labels_input@, labels_output@, linear_len(labels_input@, labels_output@))
                && fst@.isymt is None && fst@.osymt is None && fst@.properties == true_properties(
                fst@,
            ),
            Err(e) => e == FstError::InvalidInput && linear_len(labels_input@, labels_output@)
                == usize::MAX,
        },
{
    let n = if labels_input.len() <= labels_output.len() {
        labels_input.len()
    } else {
        labels_output.len()
    };
    let ghost il = labels_input@;
    let ghost ol = labels_output@;
    let mut fst = F::new();
    if n == usize::MAX {
        return Err(FstError::InvalidInput);
    }
    fst.add_states(n + 1);
    fst.set_start_unchecked(0);
    let mut i: usize = 0;
    proof {
        assert(fst@.states =~= chain_upto::<W>(il, ol, n as nat, 0));
    }
    while i < n
        invariant
            i <= n,
            n < usize::MAX,
            n == linear_len(il, ol),
            il == labels_input@,
            ol == labels_output@,
            fst@.wf(),
            fst@.start == Some(0usize),
            fst@.isymt is None,
            fst@.osymt is None,
            fst@.states == chain_upto::<W>(il, ol, n as nat, i as int),
        decreases n - i,
    {
        let tr = Tr::new(labels_input[i], labels_output[i], W::one(), i + 1);
        fst.add_tr_unchecked(i, tr);
        proof {
            assert(fst@.states[i as int].trs =~= seq![linear_tr::<W>(il, ol, i as int)]);
            assert(fst@.states =~= chain_upto::<W>(il, ol, n as nat, i + 1));
        }
        i += 1;
    }
    fst.set_final_unchecked(n, W::one());
    proof {
        assert(fst@.states =~= linear_states::<W>(il, ol, n as nat));
        fst@.lemma_with_properties_wf(Set::empty());
    }
    fst.set_properties(FstProperties::empty());
    let ghost plain = fst@;
    let _ = fst.compute_and_update_properties_all();
    proof {
        plain.lemma_same_states_same_facts(fst@);
        assert(fst@.properties =~= true_properties(fst@));
    }
    Ok(fst)
}

/// The acceptor of the string `labels` with weight `1̄`.
pub fn acceptor<W: Semiring, F: MutableFst<W>>(labels: &[Label]) -> (r: Result<F, FstError>)
    ensures
        match r {
            Ok(fst) => fst@.wf() && fst@.start == Some(0usize) && fst@.states == linear_states::<
                W,
            >(labels@, labels@, labels@.len()) && fst@.isymt is None && fst@.osymt is None
                && fst@.properties == true_properties(fst@),
            Err(e) => e == FstError::InvalidInput && labels@.len() == usize::MAX,
        },
{
    transducer(labels, labels)
}

} // verus!
