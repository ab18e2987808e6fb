//! Inversion: the transducer of the inverse relation.

use vstd::prelude::*;
use crate::error::FstError;
use crate::fst_properties::{
    FstProperties, ACYCLIC_BIT, CYCLIC_BIT, I_DETERMINISTIC_BIT, I_EPSILONS_BIT,
    I_LABEL_SORTED_BIT, NOT_I_DETERMINISTIC_BIT, NOT_I_LABEL_SORTED_BIT,
    NOT_O_DETERMINISTIC_BIT, NOT_O_LABEL_SORTED_BIT, NO_I_EPSILONS_BIT, NO_O_EPSILONS_BIT,
    O_DETERMINISTIC_BIT, O_EPSILONS_BIT, O_LABEL_SORTED_BIT,
};
use crate::fst_traits::MutableFst;
use crate::fst_view::{
    final_meets, is_every_tr_bit, is_some_tr_bit, opposite_bit, tr_meets, FstView, StateView, Step,
};
use crate::semirings::semiring::Semiring;
use crate::tr::Tr;

verus! {

/// The bit that states of the output side what `k` states of the input side,
/// and the other way round; `k` itself where it speaks of neither.
pub open spec fn mirror_bit(k: u64) -> u64 {
    if k == I_DETERMINISTIC_BIT {
        O_DETERMINISTIC_BIT
    } else if k == O_DETERMINISTIC_BIT {
        I_DETERMINISTIC_BIT
    } else if k == NOT_I_DETERMINISTIC_BIT {
        NOT_O_DETERMINISTIC_BIT
    } else if k == NOT_O_DETERMINISTIC_BIT {
        NOT_I_DETERMINISTIC_BIT
    } else if k == I_EPSILONS_BIT {
        O_EPSILONS_BIT
    } else if k == O_EPSILONS_BIT {
        I_EPSILONS_BIT
    } else if k == NO_I_EPSILONS_BIT {
        NO_O_EPSILONS_BIT
    } else if k == NO_O_EPSILONS_BIT {
        NO_I_EPSILONS_BIT
    } else if k == I_LABEL_SORTED_BIT {
        O_LABEL_SORTED_BIT
    } else if k == O_LABEL_SORTED_BIT {
        I_LABEL_SORTED_BIT
    } else if k == NOT_I_LABEL_SORTED_BIT {
        NOT_O_LABEL_SORTED_BIT
    } else if k == NOT_O_LABEL_SORTED_BIT {
        NOT_I_LABEL_SORTED_BIT
    } else {
        k
    }
}

/// The property bits with the two sides exchanged.
pub open spec fn mirror_properties(bits: Set<u64>) -> Set<u64> {
    Set::new(|k: u64| bits.contains(mirror_bit(k)))
}

/// The transitions with their labels exchanged.
pub open spec fn inverted_trs<W: Semiring>(trs: Seq<Tr<W>>) -> Seq<Tr<W>> {
    Seq::new(trs.len(), |i: int| trs[i].inverted())
}

/// The states with the labels of their transitions exchanged.
pub open spec fn inverted_states<W: Semiring>(states: Seq<StateView<W>>) -> Seq<StateView<W>> {
    Seq::new(states.len(), |s: int| states[s].with_trs(inverted_trs(states[s].trs)))
}

/// The transducer with the input and output label of every transition
/// exchanged. What was known of one side is known of the other.
pub open spec fn inverted<W: Semiring>(f: FstView<W>) -> FstView<W> {
    f.with_states(inverted_states(f.states)).with_properties(mirror_properties(f.properties))
}

/// The transducer with the labels exchanged in its first `n` states, and no
/// property bit.
pub open spec fn inverted_upto<W: Semiring>(f: FstView<W>, n: int) -> FstView<W> {
    f.with_states(
        Seq::new(
            f.states.len(),
            |s: int|
                if s < n {
                    f.states[s].with_trs(inverted_trs(f.states[s].trs))
                } else {
                    f.states[s]
                },
        ),
    ).with_properties(Set::empty())
}

/// Inverting twice gives the transducer back, transition by transition and
/// with all that was known of it.
pub proof fn lemma_invert_involution<W: Semiring>(f: FstView<W>)
    ensures
        inverted(inverted(f)) == f,
{
    let g = inverted(inverted(f));
    assert forall|s: int| 0 <= s < f.states.len() implies g.states[s] == f.states[s] by {
        assert(g.states[s].trs =~= f.states[s].trs);
    }
    assert(g.states =~= f.states);
    assert forall|k: u64| mirror_bit(mirror_bit(k)) == k by {}
    assert(g.properties =~= f.properties);
    assert(g =~= f);
}

/// A path of a transducer is a path of its inverse.
proof fn lemma_inverted_path<W: Semiring>(f: FstView<W>, from: int, p: Seq<Step>, to: int)
    requires
        f.is_path(from, p, to),
    ensures
        inverted(f).is_path(from, p, to),
    decreases p.len(),
{
    if p.len() > 0 {
        let next = f.tr(p[0].0, p[0].1).nextstate as int;
        lemma_inverted_path(f, next, p.drop_first(), to);
    }
}

/// Each fact of the inverse is the mirrored fact of the transducer.
proof fn lemma_inverted_fact<W: Semiring>(f: FstView<W>, k: u64)
    requires
        f.property_fact(mirror_bit(k)),
    ensures
        inverted(f).property_fact(k),
{
    let g = inverted(f);
    let m = mirror_bit(k);
    assert forall|s: int, i: int| g.has_tr(s, i) == f.has_tr(s, i) by {}
    assert forall|s: int, i: int| #[trigger] g.has_tr(s, i) implies g.tr(s, i) == f.tr(
        s,
        i,
    ).inverted() by {}
    assert forall|s: int| g.is_final(s) == f.is_final(s) && (g.has_state(s)
        ==> g.states[s].final_weight == f.states[s].final_weight) by {}
    if is_every_tr_bit(k) {
        assert(f.every_tr_meets(m));
        assert forall|s: int, i: int| #[trigger] g.has_tr(s, i) implies tr_meets(
            k,
            s,
            g.tr(s, i),
        ) by {
            assert(f.has_tr(s, i));
            assert(tr_meets(m, s, f.tr(s, i)));
        }
        assert forall|s: int| #[trigger] g.is_final(s) implies final_meets(
            k,
            g.states[s].final_weight->0,
        ) by {
            assert(f.is_final(s));
        }
    } else if is_some_tr_bit(k) {
        let j = opposite_bit(k);
        let mj = opposite_bit(m);
        assert(mj == mirror_bit(j));
        if g.every_tr_meets(j) {
            assert forall|s: int, i: int| #[trigger] f.has_tr(s, i) implies tr_meets(
                mj,
                s,
                f.tr(s, i),
            ) by {
                assert(g.has_tr(s, i));
                assert(tr_meets(j, s, g.tr(s, i)));
            }
            assert forall|s: int| #[trigger] f.is_final(s) implies final_meets(
                mj,
                f.states[s].final_weight->0,
            ) by {
                assert(g.is_final(s));
            }
            assert(false);
        }
    } else if k == CYCLIC_BIT {
        let (s, p) = choose|s: int, p: Seq<Step>| p.len() > 0 && f.is_path(s, p, s);
        lemma_inverted_path(f, s, p, s);
    } else if k == ACYCLIC_BIT {
        let rank = choose|rank: Seq<nat>| f.is_topological_rank(rank);
        assert forall|s: int, i: int| #[trigger] g.has_tr(s, i) implies rank[s] < rank[g.tr(
            s,
            i,
        ).nextstate as int] by {
            assert(f.has_tr(s, i));
        }
        assert(g.is_topological_rank(rank));
    } else {
        assert(g.i_deterministic() == f.o_deterministic()) by {
            if f.o_deterministic() {
                assert forall|t: int, i: int, j: int|
                    #![trigger g.tr(t, i), g.tr(t, j)]
                    g.has_tr(t, i) && g.has_tr(t, j) && i != j implies g.tr(t, i).ilabel != g.tr(
                        t,
                        j,
                    ).ilabel by {
                    assert(f.has_tr(t, i) && f.has_tr(t, j));
                    assert(f.tr(t, i).olabel != f.tr(t, j).olabel);
                }
            }
            if g.i_deterministic() {
                assert forall|t: int, i: int, j: int|
                    #![trigger f.tr(t, i), f.tr(t, j)]
                    f.has_tr(t, i) && f.has_tr(t, j) && i != j implies f.tr(t, i).olabel != f.tr(
                        t,
                        j,
                    ).olabel by {
                    assert(g.has_tr(t, i) && g.has_tr(t, j));
                    assert(g.tr(t, i).ilabel != g.tr(t, j).ilabel);
                }
            }
        }
        assert(g.o_deterministic() == f.i_deterministic()) by {
            if f.i_deterministic() {
                assert forall|t: int, i: int, j: int|
                    #![trigger g.tr(t, i), g.tr(t, j)]
                    g.has_tr(t, i) && g.has_tr(t, j) && i != j implies g.tr(t, i).olabel != g.tr(
                        t,
                        j,
                    ).olabel by {
                    assert(f.has_tr(t, i) && f.has_tr(t, j));
                    assert(f.tr(t, i).ilabel != f.tr(t, j).ilabel);
                }
            }
            if g.o_deterministic() {
                assert forall|t: int, i: int, j: int|
                    #![trigger f.tr(t, i), f.tr(t, j)]
                    f.has_tr(t, i) && f.has_tr(t, j) && i != j implies f.tr(t, i).ilabel != f.tr(
                        t,
                        j,
                    ).ilabel by {
                    assert(g.has_tr(t, i) && g.has_tr(t, j));
                    assert(g.tr(t, i).olabel != g.tr(t, j).olabel);
                }
            }
        }
        assert(g.i_label_sorted() == f.o_label_sorted()) by {
            if f.o_label_sorted() {
                assert forall|t: int, i: int, j: int|
                    #![trigger g.tr(t, i), g.tr(t, j)]
                    g.has_tr(t, i) && g.has_tr(t, j) && i < j implies g.tr(t, i).ilabel <= g.tr(
                        t,
                        j,
                    ).ilabel by {
                    assert(f.has_tr(t, i) && f.has_tr(t, j));
                    assert(f.tr(t, i).olabel <= f.tr(t, j).olabel);
                }
            }
            if g.i_label_sorted() {
                assert forall|t: int, i: int, j: int|
                    #![trigger f.tr(t, i), f.tr(t, j)]
                    f.has_tr(t, i) && f.has_tr(t, j) && i < j implies f.tr(t, i).olabel <= f.tr(
                        t,
                        j,
                    ).olabel by {
                    assert(g.has_tr(t, i) && g.has_tr(t, j));
                    assert(g.tr(t, i).ilabel <= g.tr(t, j).ilabel);
                }
            }
        }
        assert(g.o_label_sorted() == f.i_label_sorted()) by {
            if f.i_label_sorted() {
                assert forall|t: int, i: int, j: int|
                    #![trigger g.tr(t, i), g.tr(t, j)]
                    g.has_tr(t, i) && g.has_tr(t, j) && i < j implies g.tr(t, i).olabel <= g.tr(
                        t,
                        j,
                    ).olabel by {
                    assert(f.has_tr(t, i) && f.has_tr(t, j));
                    assert(f.tr(t, i).ilabel <= f.tr(t, j).ilabel);
                }
            }
            if g.o_label_sorted() {
                assert forall|t: int, i: int, j: int|
                    #![trigger f.tr(t, i), f.tr(t, j)]
                    f.has_tr(t, i) && f.has_tr(t, j) && i < j implies f.tr(t, i).ilabel <= f.tr(
                        t,
                        j,
                    ).ilabel by {
                    assert(g.has_tr(t, i) && g.has_tr(t, j));
                    assert(g.tr(t, i).olabel <= g.tr(t, j).olabel);
                }
            }
        }
    }
}

/// Each mirrored property bit of a well-formed transducer states a fact
/// about its inverse.
pub proof fn lemma_inverted_properties_hold<W: Semiring>(f: FstView<W>)
    requires
        f.wf(),
    ensures
        inverted(f).properties_hold(mirror_properties(f.properties)),
{
    assert forall|k: u64| mirror_properties(f.properties).contains(k) implies #[trigger] inverted(
        f,
    ).property_fact(k) by {
        assert(f.property_fact(mirror_bit(k)));
        lemma_inverted_fact(f, k);
    }
}

/// `a` for `b`, `b` for `a`, and every other bit for itself.
pub open spec fn exchange_bit(k: u64, a: u64, b: u64) -> u64 {
    if k == a {
        b
    } else if k == b {
        a
    } else {
        k
    }
}

/// The property bits with the bits `a` and `b` exchanged.
fn exchange_bits(props: FstProperties, a: u64, b: u64) -> (p: FstProperties)
    requires
        a < 64,
        b < 64,
    ensures
        forall|k: u64| p@.contains(k) == props@.contains(exchange_bit(k, a, b)),
{
    let has_a = props.has(a);
    let has_b = props.has(b);
    props.set_bit(a, has_b).set_bit(b, has_a)
}

/// The property bits with the two sides exchanged.
pub fn compute_mirror_properties(props: FstProperties) -> (p: FstProperties)
    ensures
        p@ == mirror_properties(props@),
{
    let p1 = exchange_bits(props, I_DETERMINISTIC_BIT, O_DETERMINISTIC_BIT);
    let p2 = exchange_bits(p1, NOT_I_DETERMINISTIC_BIT, NOT_O_DETERMINISTIC_BIT);
    let p3 = exchange_bits(p2, I_EPSILONS_BIT, O_EPSILONS_BIT);
    assert forall|k: u64| p3@.contains(k) == props@.contains(
        if k == I_DETERMINISTIC_BIT || k == O_DETERMINISTIC_BIT || k == NOT_I_DETERMINISTIC_BIT
            || k == NOT_O_DETERMINISTIC_BIT || k == I_EPSILONS_BIT || k == O_EPSILONS_BIT {
            mirror_bit(k)
        } else {
            k
        },
    ) by {
        let k2 = exchange_bit(k, I_EPSILONS_BIT, O_EPSILONS_BIT);
        let k1 = exchange_bit(k2, NOT_I_DETERMINISTIC_BIT, NOT_O_DETERMINISTIC_BIT);
        assert(p3@.contains(k) == p2@.contains(k2));
        assert(p2@.contains(k2) == p1@.contains(k1));
    }
    let p4 = exchange_bits(p3, NO_I_EPSILONS_BIT, NO_O_EPSILONS_BIT);
    let p5 = exchange_bits(p4, I_LABEL_SORTED_BIT, O_LABEL_SORTED_BIT);
    let p6 = exchange_bits(p5, NOT_I_LABEL_SORTED_BIT, NOT_O_LABEL_SORTED_BIT);
    assert forall|k: u64| p6@.contains(k) == props@.contains(mirror_bit(k)) by {
        let k5 = exchange_bit(k, NOT_I_LABEL_SORTED_BIT, NOT_O_LABEL_SORTED_BIT);
        let k4 = exchange_bit(k5, I_LABEL_SORTED_BIT, O_LABEL_SORTED_BIT);
        let k3 = exchange_bit(k4, NO_I_EPSILONS_BIT, NO_O_EPSILONS_BIT);
        assert(p6@.contains(k) == p5@.contains(k5));
        assert(p5@.contains(k5) == p4@.contains(k4));
        assert(p4@.contains(k4) == p3@.contains(k3));
    }
    assert(p6@ =~= mirror_properties(props@));
    p6
}

/// The transitions with their labels exchanged.
fn invert_trs<W: Semiring>(trs: Vec<Tr<W>>) -> (r: Vec<Tr<W>>)
    ensures
        r@ == inverted_trs(trs@),
{
    let mut r: Vec<Tr<W>> = Vec::new();
    let mut i: usize = 0;
    while i < trs.len()
        invariant
            i <= trs.len(),
            r@ =~= inverted_trs(trs@.take(i as int)),
        decreases trs.len() - i,
    {
        let tr = trs[i];
        r.push(Tr::new(tr.olabel, tr.ilabel, tr.weight, tr.nextstate));
        i += 1;
    }
    assert(trs@.take(trs@.len() as int) =~= trs@);
    r
}

/// Exchanges the input and output label of every transition, in place. The
/// states, the weights and the symbol tables stay as they are.
pub fn invert<W: Semiring, F: MutableFst<W>>(fst: &mut F) -> (r: Result<(), FstError>)
    requires
        old(fst)@.wf(),
    ensures
        r is Ok,
        final(fst)@ == inverted(old(fst)@),
        final(fst)@.wf(),
{
    let ghost f = fst@;
    let props = fst.properties();
    let n = fst.num_states();
    let mut state_id: usize = 0;
    proof {
        f.lemma_with_properties_wf(Set::empty());
        assert(fst@.with_properties(Set::empty()) =~= inverted_upto(f, 0));
    }
    fst.set_properties(FstProperties::empty());
    while state_id < n
        invariant
            state_id <= n,
            n == f.states.len(),
            f.wf(),
            fst@.wf(),
            fst@ == inverted_upto(f, state_id as int),
        decreases n - state_id,
    {
        let trs = fst.pop_trs_unchecked(state_id);
        let swapped = invert_trs(trs);
        proof {
            assert forall|i: int| 0 <= i < swapped@.len() implies (#[trigger] swapped@[i]).nextstate
                < fst@.states.len() by {
                assert(f.has_tr(state_id as int, i));
            }
        }
        fst.set_trs_unchecked(state_id, swapped);
        proof {
            let g = inverted_upto(f, state_id + 1);
            assert(fst@.states =~= g.states);
            assert(fst@ =~= g);
        }
        state_id += 1;
    }
    proof {
        lemma_inverted_properties_hold(f);
        let g = inverted(f);
        assert(fst@.states =~= g.states);
        fst@.lemma_same_states_same_facts(g);
        assert(fst@.properties_hold(mirror_properties(f.properties)));
    }
    fst.set_properties(compute_mirror_properties(props));
    proof {
        assert(fst@ =~= inverted(f));
    }
    Ok(())
}

} // verus!
