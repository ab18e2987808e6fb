//! Computing the property bits of a transducer by inspecting it.

use vstd::prelude::*;
use crate::algorithms::dfs::{compute_top_order, lemma_topological_order_is_rank};
use crate::fst_properties::{
    FstProperties, ACCEPTOR_BIT, ACYCLIC_BIT, CYCLIC_BIT, EPSILONS_BIT, I_DETERMINISTIC_BIT,
    I_EPSILONS_BIT, I_LABEL_SORTED_BIT, NOT_ACCEPTOR_BIT, NOT_I_DETERMINISTIC_BIT,
    NOT_I_LABEL_SORTED_BIT, NOT_O_DETERMINISTIC_BIT, NOT_O_LABEL_SORTED_BIT, NOT_TOP_SORTED_BIT,
    NO_EPSILONS_BIT, NO_I_EPSILONS_BIT, NO_O_EPSILONS_BIT, O_DETERMINISTIC_BIT, O_EPSILONS_BIT,
    O_LABEL_SORTED_BIT, TOP_SORTED_BIT, UNWEIGHTED_BIT, WEIGHTED_BIT,
};
use crate::fst_traits::Fst;
use crate::fst_view::{final_meets, is_every_tr_bit, is_some_tr_bit, tr_meets, FstView};
use crate::semirings::semiring::Semiring;
use crate::tr::{Label, StateId, Tr, EPS_LABEL};

verus! {

/// Whether `k` is one of the bits that this library gives a meaning.
pub open spec fn is_property_bit(k: u64) -> bool {
    is_every_tr_bit(k) || is_some_tr_bit(k) || k == I_DETERMINISTIC_BIT || k
        == NOT_I_DETERMINISTIC_BIT || k == O_DETERMINISTIC_BIT || k == NOT_O_DETERMINISTIC_BIT || k
        == I_LABEL_SORTED_BIT || k == NOT_I_LABEL_SORTED_BIT || k == O_LABEL_SORTED_BIT || k
        == NOT_O_LABEL_SORTED_BIT || k == CYCLIC_BIT || k == ACYCLIC_BIT
}

/// The bits that state a fact about the transducer: of each pair the one
/// that holds.
pub open spec fn true_properties<W: Semiring>(f: FstView<W>) -> Set<u64> {
    Set::new(|k: u64| is_property_bit(k) && f.property_fact(k))
}

/// The bits that have a meaning.
pub open spec fn all_property_bits() -> Set<u64> {
    Set::new(|k: u64| is_property_bit(k))
}

/// The input label of a transition, or its output label.
pub open spec fn label_of<W: Semiring>(tr: Tr<W>, input_side: bool) -> Label {
    if input_side {
        tr.ilabel
    } else {
        tr.olabel
    }
}

/// Whether the labels of one side never fall along `trs`.
pub open spec fn labels_rise<W: Semiring>(trs: Seq<Tr<W>>, input_side: bool) -> bool {
    forall|i: int, j: int|
        0 <= i < j < trs.len() ==> label_of(#[trigger] trs[i], input_side) <= label_of(
            #[trigger] trs[j],
            input_side,
        )
}

/// Whether no label of one side occurs twice in `trs`.
pub open spec fn labels_differ<W: Semiring>(trs: Seq<Tr<W>>, input_side: bool) -> bool {
    forall|i: int, j: int|
        0 <= i < j < trs.len() ==> label_of(#[trigger] trs[i], input_side) != label_of(
            #[trigger] trs[j],
            input_side,
        )
}

/// Whether every one of `trs`, leaving state `s`, meets what bit `k` asks.
pub open spec fn all_meet<W: Semiring>(trs: Seq<Tr<W>>, k: u64, s: int) -> bool {
    forall|i: int| 0 <= i < trs.len() ==> tr_meets(k, s, #[trigger] trs[i])
}

fn label<W: Semiring>(tr: &Tr<W>, input_side: bool) -> (l: Label)
    ensures
        l == label_of(*tr, input_side),
{
    if input_side {
        tr.ilabel
    } else {
        tr.olabel
    }
}

/// Whether the labels of one side never fall along `trs`.
pub fn check_labels_rise<W: Semiring>(trs: &[Tr<W>], input_side: bool) -> (b: bool)
    ensures
        b == labels_rise(trs@, input_side),
{
    if trs.len() == 0 {
        return true;
    }
    let mut i: usize = 1;
    while i < trs.len()
        invariant
            1 <= i <= trs.len(),
            labels_rise(trs@.take(i as int), input_side),
        decreases trs.len() - i,
    {
        if label(&trs[i - 1], input_side) > label(&trs[i], input_side) {
            assert(trs@[i - 1] == trs@[i as int - 1]);
            return false;
        }
        proof {
            let t = trs@.take(i as int + 1);
            assert forall|a: int, b: int| 0 <= a < b < t.len() implies label_of(
                #[trigger] t[a],
                input_side,
            ) <= label_of(#[trigger] t[b], input_side) by {
                let p = trs@.take(i as int);
                if b < i {
                    assert(p[a] == t[a] && p[b] == t[b]);
                } else if a < i - 1 {
                    assert(p[a] == t[a] && p[i - 1] == t[i - 1]);
                }
            }
        }
        i += 1;
    }
    proof {
        assert(trs@.take(trs@.len() as int) =~= trs@);
    }
    true
}

/// Whether no label of one side occurs twice in `trs`.
pub fn check_labels_differ<W: Semiring>(trs: &[Tr<W>], input_side: bool) -> (b: bool)
    ensures
        b == labels_differ(trs@, input_side),
{
    let mut j: usize = 0;
    while j < trs.len()
        invariant
            j <= trs.len(),
            labels_differ(trs@.take(j as int), input_side),
        decreases trs.len() - j,
    {
        let l = label(&trs[j], input_side);
        let mut i: usize = 0;
        while i < j
            invariant
                i <= j < trs.len(),
                l == label_of(trs@[j as int], input_side),
                forall|a: int| 0 <= a < i ==> label_of(#[trigger] trs@[a], input_side) != l,
            decreases j - i,
        {
            if label(&trs[i], input_side) == l {
                return false;
            }
            i += 1;
        }
        proof {
            let t = trs@.take(j as int + 1);
            let p = trs@.take(j as int);
            assert forall|a: int, b: int| 0 <= a < b < t.len() implies label_of(
                #[trigger] t[a],
                input_side,
            ) != label_of(#[trigger] t[b], input_side) by {
                if b < j {
                    assert(p[a] == t[a] && p[b] == t[b]);
                } else {
                    assert(t[a] == trs@[a]);
                }
            }
        }
        j += 1;
    }
    proof {
        assert(trs@.take(trs@.len() as int) =~= trs@);
    }
    true
}

/// The six bits that ask something of each transition.
pub open spec fn every_tr_bits() -> Set<u64> {
    Set::new(|k: u64| is_every_tr_bit(k))
}

fn every_tr_fst_properties() -> (p: FstProperties)
    ensures
        p@ == every_tr_bits(),
{
    let p = FstProperties::empty().insert_bit(ACCEPTOR_BIT).insert_bit(NO_EPSILONS_BIT).insert_bit(
        NO_I_EPSILONS_BIT,
    ).insert_bit(NO_O_EPSILONS_BIT).insert_bit(UNWEIGHTED_BIT).insert_bit(TOP_SORTED_BIT);
    assert(p@ =~= every_tr_bits());
    p
}

/// Removes from `p` the bits that the transition `tr`, leaving state `s`,
/// does not meet.
fn drop_unmet<W: Semiring>(p: FstProperties, s: StateId, tr: &Tr<W>) -> (q: FstProperties)
    requires
        p@.subset_of(every_tr_bits()),
    ensures
        q@ == Set::new(|k: u64| p@.contains(k) && tr_meets(k, s as int, *tr)),
{
    let mut q = p;
    if tr.ilabel != tr.olabel {
        q = q.remove_bit(ACCEPTOR_BIT);
    }
    if tr.ilabel == EPS_LABEL {
        q = q.remove_bit(NO_I_EPSILONS_BIT);
        if tr.olabel == EPS_LABEL {
            q = q.remove_bit(NO_EPSILONS_BIT);
        }
    }
    if tr.olabel == EPS_LABEL {
        q = q.remove_bit(NO_O_EPSILONS_BIT);
    }
    if !(tr.weight.is_zero() || tr.weight.is_one()) {
        q = q.remove_bit(UNWEIGHTED_BIT);
    }
    if tr.nextstate <= s {
        q = q.remove_bit(TOP_SORTED_BIT);
    }
    assert(q@ =~= Set::new(|k: u64| p@.contains(k) && tr_meets(k, s as int, *tr)));
    q
}

/// Of the six bits that ask something of each transition, those that every
/// one of `trs`, leaving state `s`, meets.
pub fn scan_trs<W: Semiring>(trs: &[Tr<W>], s: StateId) -> (p: FstProperties)
    ensures
        p@ == Set::new(|k: u64| is_every_tr_bit(k) && all_meet(trs@, k, s as int)),
{
    let mut p = every_tr_fst_properties();
    let mut i: usize = 0;
    assert(p@ =~= Set::new(|k: u64| is_every_tr_bit(k) && all_meet(trs@.take(0), k, s as int)));
    while i < trs.len()
        invariant
            i <= trs.len(),
            p@ == Set::new(
                |k: u64| is_every_tr_bit(k) && all_meet(trs@.take(i as int), k, s as int),
            ),
        decreases trs.len() - i,
    {
        let ghost before = p@;
        p = drop_unmet(p, s, &trs[i]);
        proof {
            let a = trs@.take(i as int);
            let b = trs@.take(i as int + 1);
            assert forall|k: u64|
                (before.contains(k) && tr_meets(k, s as int, trs@[i as int])) == (is_every_tr_bit(
                    k,
                ) && all_meet(b, k, s as int)) by {
                if is_every_tr_bit(k) && all_meet(b, k, s as int) {
                    assert(b[i as int] == trs@[i as int]);
                    assert forall|j: int| 0 <= j < a.len() implies tr_meets(
                        k,
                        s as int,
                        #[trigger] a[j],
                    ) by {
                        assert(a[j] == b[j]);
                    }
                }
                if before.contains(k) && tr_meets(k, s as int, trs@[i as int]) {
                    assert forall|j: int| 0 <= j < b.len() implies tr_meets(
                        k,
                        s as int,
                        #[trigger] b[j],
                    ) by {
                        if j < i {
                            assert(a[j] == b[j]);
                        }
                    }
                }
            }
            assert(p@ =~= Set::new(|k: u64| is_every_tr_bit(k) && all_meet(b, k, s as int)));
        }
        i += 1;
    }
    proof {
        assert(trs@.take(trs@.len() as int) =~= trs@);
    }
    p
}

/// Whether every transition is an acceptor's: its two labels are the same.
pub fn is_acceptor<W: Semiring, F: Fst<W>>(fst: &F) -> (b: bool)
    ensures
        b == fst@.every_tr_meets(ACCEPTOR_BIT),
{
    let ghost f = fst@;
    let n = fst.num_states();
    let mut s: usize = 0;
    while s < n
        invariant
            s <= n,
            f == fst@,
            n == f.states.len(),
            forall|t: int| 0 <= t < s ==> all_meet(#[trigger] f.states[t].trs, ACCEPTOR_BIT, t),
        decreases n - s,
    {
        let p = scan_trs(fst.get_trs_unchecked(s), s);
        if !p.has(ACCEPTOR_BIT) {
            proof {
                assert(!all_meet(f.states[s as int].trs, ACCEPTOR_BIT, s as int));
                let i = choose|i: int|
                    0 <= i < f.states[s as int].trs.len() && !tr_meets(
                        ACCEPTOR_BIT,
                        s as int,
                        #[trigger] f.states[s as int].trs[i],
                    );
                assert(f.has_tr(s as int, i));
                assert(!tr_meets(ACCEPTOR_BIT, s as int, f.tr(s as int, i)));
            }
            return false;
        }
        s += 1;
    }
    proof {
        assert forall|t: int, i: int| #[trigger] f.has_tr(t, i) implies tr_meets(
            ACCEPTOR_BIT,
            t,
            f.tr(t, i),
        ) by {
            assert(all_meet(f.states[t].trs, ACCEPTOR_BIT, t));
        }
    }
    true
}

/// What was found of the states below `n`.
pub open spec fn scanned<W: Semiring>(
    f: FstView<W>,
    n: int,
    every: Set<u64>,
    i_rise: bool,
    o_rise: bool,
    i_differ: bool,
    o_differ: bool,
) -> bool {
    &&& forall|k: u64| #[trigger]
        every.contains(k) <==> is_every_tr_bit(k) && (forall|s: int|
            0 <= s < n ==> all_meet(#[trigger] f.states[s].trs, k, s)) && (forall|s: int|
            0 <= s < n && (#[trigger] f.states[s]).final_weight is Some ==> final_meets(
                k,
                f.states[s].final_weight->0,
            ))
    &&& i_rise <==> forall|s: int| 0 <= s < n ==> labels_rise(#[trigger] f.states[s].trs, true)
    &&& o_rise <==> forall|s: int| 0 <= s < n ==> labels_rise(#[trigger] f.states[s].trs, false)
    &&& i_differ <==> forall|s: int|
        0 <= s < n ==> labels_differ(#[trigger] f.states[s].trs, true)
    &&& o_differ <==> forall|s: int|
        0 <= s < n ==> labels_differ(#[trigger] f.states[s].trs, false)
}

/// What was found of all states decides the facts behind the bits.
pub proof fn lemma_scanned_facts<W: Semiring>(
    f: FstView<W>,
    every: Set<u64>,
    i_rise: bool,
    o_rise: bool,
    i_differ: bool,
    o_differ: bool,
)
    requires
        scanned(f, f.states.len() as int, every, i_rise, o_rise, i_differ, o_differ),
    ensures
        forall|k: u64| is_every_tr_bit(k) ==> (every.contains(k) <==> f.every_tr_meets(k)),
        i_rise <==> f.i_label_sorted(),
        o_rise <==> f.o_label_sorted(),
        i_differ <==> f.i_deterministic(),
        o_differ <==> f.o_deterministic(),
{
    let n = f.states.len() as int;
    assert forall|k: u64| is_every_tr_bit(k) implies (every.contains(k) <==> f.every_tr_meets(
        k,
    )) by {
        if every.contains(k) {
            assert forall|s: int, i: int| #[trigger] f.has_tr(s, i) implies tr_meets(
                k,
                s,
                f.tr(s, i),
            ) by {
                assert(all_meet(f.states[s].trs, k, s));
            }
            assert forall|s: int| #[trigger] f.is_final(s) implies final_meets(
                k,
                f.states[s].final_weight->0,
            ) by {
                assert(f.states[s].final_weight is Some);
            }
        }
        if f.every_tr_meets(k) {
            assert forall|s: int| 0 <= s < n implies all_meet(
                #[trigger] f.states[s].trs,
                k,
                s,
            ) by {
                assert forall|i: int| 0 <= i < f.states[s].trs.len() implies tr_meets(
                    k,
                    s,
                    #[trigger] f.states[s].trs[i],
                ) by {
                    assert(f.has_tr(s, i));
                }
            }
            assert forall|s: int|
                0 <= s < n && (#[trigger] f.states[s]).final_weight is Some implies final_meets(
                k,
                f.states[s].final_weight->0,
            ) by {
                assert(f.is_final(s));
            }
        }
    }
    lemma_side_facts(f, true);
    lemma_side_facts(f, false);
}

/// The facts about one side of the transducer, state by state.
pub proof fn lemma_side_facts<W: Semiring>(f: FstView<W>, input_side: bool)
    ensures
        (forall|s: int|
            0 <= s < f.states.len() ==> labels_rise(#[trigger] f.states[s].trs, input_side)) <==> (
        if input_side {
            f.i_label_sorted()
        } else {
            f.o_label_sorted()
        }),
        (forall|s: int|
            0 <= s < f.states.len() ==> labels_differ(#[trigger] f.states[s].trs, input_side))
            <==> (if input_side {
            f.i_deterministic()
        } else {
            f.o_deterministic()
        }),
{
    let n = f.states.len() as int;
    let sorted = if input_side {
        f.i_label_sorted()
    } else {
        f.o_label_sorted()
    };
    let det = if input_side {
        f.i_deterministic()
    } else {
        f.o_deterministic()
    };
    if forall|s: int| 0 <= s < n ==> labels_rise(#[trigger] f.states[s].trs, input_side) {
        assert forall|s: int, i: int, j: int|
            #![trigger f.tr(s, i), f.tr(s, j)]
            f.has_tr(s, i) && f.has_tr(s, j) && i < j implies label_of(f.tr(s, i), input_side)
            <= label_of(f.tr(s, j), input_side) by {
            assert(labels_rise(f.states[s].trs, input_side));
            assert(f.states[s].trs[i] == f.tr(s, i) && f.states[s].trs[j] == f.tr(s, j));
        }
        assert(sorted);
    }
    if sorted {
        assert forall|s: int| 0 <= s < n implies labels_rise(
            #[trigger] f.states[s].trs,
            input_side,
        ) by {
            assert forall|i: int, j: int| 0 <= i < j < f.states[s].trs.len() implies label_of(
                #[trigger] f.states[s].trs[i],
                input_side,
            ) <= label_of(#[trigger] f.states[s].trs[j], input_side) by {
                assert(f.has_tr(s, i) && f.has_tr(s, j));
                assert(f.tr(s, i) == f.states[s].trs[i] && f.tr(s, j) == f.states[s].trs[j]);
            }
        }
    }
    if forall|s: int| 0 <= s < n ==> labels_differ(#[trigger] f.states[s].trs, input_side) {
        assert forall|s: int, i: int, j: int|
            #![trigger f.tr(s, i), f.tr(s, j)]
            f.has_tr(s, i) && f.has_tr(s, j) && i != j implies label_of(f.tr(s, i), input_side)
            != label_of(f.tr(s, j), input_side) by {
            assert(labels_differ(f.states[s].trs, input_side));
            assert(f.states[s].trs[i] == f.tr(s, i) && f.states[s].trs[j] == f.tr(s, j));
        }
        assert(det);
    }
    if det {
        assert forall|s: int| 0 <= s < n implies labels_differ(
            #[trigger] f.states[s].trs,
            input_side,
        ) by {
            assert forall|i: int, j: int| 0 <= i < j < f.states[s].trs.len() implies label_of(
                #[trigger] f.states[s].trs[i],
                input_side,
            ) != label_of(#[trigger] f.states[s].trs[j], input_side) by {
                assert(f.has_tr(s, i) && f.has_tr(s, j));
                assert(f.tr(s, i) == f.states[s].trs[i] && f.tr(s, j) == f.states[s].trs[j]);
            }
        }
    }
}

/// Sets the bit `yes` where `fact` holds and the bit `no` where it does not.
fn decide(p: FstProperties, yes: u64, no: u64, fact: bool) -> (q: FstProperties)
    requires
        yes < 64,
        no < 64,
    ensures
        q@ == p@.insert(
            if fact {
                yes
            } else {
                no
            },
        ),
{
    if fact {
        p.insert_bit(yes)
    } else {
        p.insert_bit(no)
    }
}

/// The bits that follow from what was found.
pub open spec fn assembled(
    every: Set<u64>,
    i_rise: bool,
    o_rise: bool,
    i_differ: bool,
    o_differ: bool,
    acyclic: bool,
) -> Set<u64> {
    Set::new(
        |k: u64|
            if is_every_tr_bit(k) {
                every.contains(k)
            } else if is_some_tr_bit(k) {
                !every.contains(crate::fst_view::opposite_bit(k))
            } else if k == I_LABEL_SORTED_BIT {
                i_rise
            } else if k == NOT_I_LABEL_SORTED_BIT {
                !i_rise
            } else if k == O_LABEL_SORTED_BIT {
                o_rise
            } else if k == NOT_O_LABEL_SORTED_BIT {
                !o_rise
            } else if k == I_DETERMINISTIC_BIT {
                i_differ
            } else if k == NOT_I_DETERMINISTIC_BIT {
                !i_differ
            } else if k == O_DETERMINISTIC_BIT {
                o_differ
            } else if k == NOT_O_DETERMINISTIC_BIT {
                !o_differ
            } else if k == ACYCLIC_BIT {
                acyclic
            } else if k == CYCLIC_BIT {
                !acyclic
            } else {
                false
            },
    )
}

/// Sets of each pair of bits the one that follows from what was found.
fn assemble(
    every: FstProperties,
    i_rise: bool,
    o_rise: bool,
    i_differ: bool,
    o_differ: bool,
    acyclic: bool,
) -> (p: FstProperties)
    ensures
        p@ == assembled(every@, i_rise, o_rise, i_differ, o_differ, acyclic),
{
    let p1 = decide(FstProperties::empty(), ACCEPTOR_BIT, NOT_ACCEPTOR_BIT, every.has(ACCEPTOR_BIT));
    let p2 = decide(p1, NO_EPSILONS_BIT, EPSILONS_BIT, every.has(NO_EPSILONS_BIT));
    let p3 = decide(p2, NO_I_EPSILONS_BIT, I_EPSILONS_BIT, every.has(NO_I_EPSILONS_BIT));
    let p4 = decide(p3, NO_O_EPSILONS_BIT, O_EPSILONS_BIT, every.has(NO_O_EPSILONS_BIT));
    let p5 = decide(p4, UNWEIGHTED_BIT, WEIGHTED_BIT, every.has(UNWEIGHTED_BIT));
    let p6 = decide(p5, TOP_SORTED_BIT, NOT_TOP_SORTED_BIT, every.has(TOP_SORTED_BIT));
    let ghost none = Set::<u64>::empty();
    assert(p6@ =~= assembled(every@, i_rise, o_rise, i_differ, o_differ, acyclic).intersect(
        Set::new(|k: u64| is_every_tr_bit(k) || is_some_tr_bit(k)),
    ));
    let p7 = decide(p6, I_LABEL_SORTED_BIT, NOT_I_LABEL_SORTED_BIT, i_rise);
    let p8 = decide(p7, O_LABEL_SORTED_BIT, NOT_O_LABEL_SORTED_BIT, o_rise);
    let p9 = decide(p8, I_DETERMINISTIC_BIT, NOT_I_DETERMINISTIC_BIT, i_differ);
    let p10 = decide(p9, O_DETERMINISTIC_BIT, NOT_O_DETERMINISTIC_BIT, o_differ);
    let p11 = decide(p10, ACYCLIC_BIT, CYCLIC_BIT, acyclic);
    assert forall|k: u64|
        p11@.contains(k) == assembled(every@, i_rise, o_rise, i_differ, o_differ, acyclic).contains(
            k,
        ) by {
        if is_every_tr_bit(k) || is_some_tr_bit(k) {
            assert(p11@.contains(k) == p6@.contains(k));
        } else {
            assert(!p6@.contains(k));
        }
    }
    assert(p11@ =~= assembled(every@, i_rise, o_rise, i_differ, o_differ, acyclic));
    p11
}

/// What was found of all states, put together, is the set of the bits that
/// state a fact.
proof fn lemma_assembled_is_true<W: Semiring>(
    f: FstView<W>,
    every: Set<u64>,
    i_rise: bool,
    o_rise: bool,
    i_differ: bool,
    o_differ: bool,
    acyclic: bool,
)
    requires
        scanned(f, f.states.len() as int, every, i_rise, o_rise, i_differ, o_differ),
        acyclic == f.is_acyclic(),
        acyclic == !f.has_cycle(),
    ensures
        assembled(every, i_rise, o_rise, i_differ, o_differ, acyclic) == true_properties(f),
{
    lemma_scanned_facts(f, every, i_rise, o_rise, i_differ, o_differ);
    let a = assembled(every, i_rise, o_rise, i_differ, o_differ, acyclic);
    assert forall|k: u64| a.contains(k) == (is_property_bit(k) && f.property_fact(k)) by {
        if is_every_tr_bit(k) {
            assert(every.contains(k) <==> f.every_tr_meets(k));
        } else if is_some_tr_bit(k) {
            let j = crate::fst_view::opposite_bit(k);
            assert(is_every_tr_bit(j));
            assert(every.contains(j) <==> f.every_tr_meets(j));
        }
    }
    assert(a =~= true_properties(f));
}

/// One more state was looked at.
proof fn lemma_scanned_step<W: Semiring>(
    f: FstView<W>,
    s: int,
    every: Set<u64>,
    i_rise: bool,
    o_rise: bool,
    i_differ: bool,
    o_differ: bool,
    next: Set<u64>,
)
    requires
        0 <= s < f.states.len(),
        scanned(f, s, every, i_rise, o_rise, i_differ, o_differ),
        forall|k: u64|
            #[trigger] next.contains(k) == (every.contains(k) && is_every_tr_bit(k) && all_meet(
                f.states[s].trs,
                k,
                s,
            ) && (f.states[s].final_weight is Some ==> final_meets(
                k,
                f.states[s].final_weight->0,
            ))),
    ensures
        scanned(
            f,
            s + 1,
            next,
            i_rise && labels_rise(f.states[s].trs, true),
            o_rise && labels_rise(f.states[s].trs, false),
            i_differ && labels_differ(f.states[s].trs, true),
            o_differ && labels_differ(f.states[s].trs, false),
        ),
{
    assert forall|k: u64| #[trigger]
        next.contains(k) <==> is_every_tr_bit(k) && (forall|t: int|
            0 <= t < s + 1 ==> all_meet(#[trigger] f.states[t].trs, k, t)) && (forall|t: int|
            0 <= t < s + 1 && (#[trigger] f.states[t]).final_weight is Some ==> final_meets(
                k,
                f.states[t].final_weight->0,
            )) by {
        if next.contains(k) {
            assert(every.contains(k));
            assert(forall|t: int| 0 <= t < s ==> all_meet(#[trigger] f.states[t].trs, k, t));
            assert forall|t: int| 0 <= t < s + 1 implies all_meet(
                #[trigger] f.states[t].trs,
                k,
                t,
            ) by {
                if t < s {
                    assert(all_meet(f.states[t].trs, k, t));
                }
            }
            assert(forall|t: int|
                0 <= t < s && (#[trigger] f.states[t]).final_weight is Some ==> final_meets(
                    k,
                    f.states[t].final_weight->0,
                ));
        }
        if is_every_tr_bit(k) && (forall|t: int|
            0 <= t < s + 1 ==> all_meet(#[trigger] f.states[t].trs, k, t)) && (forall|t: int|
            0 <= t < s + 1 && (#[trigger] f.states[t]).final_weight is Some ==> final_meets(
                k,
                f.states[t].final_weight->0,
            )) {
            assert(all_meet(f.states[s].trs, k, s));
            assert(f.states[s].final_weight is Some ==> final_meets(
                k,
                f.states[s].final_weight->0,
            ));
        }
    }
}

/// Computes every property bit that has a meaning: of each pair of bits the
/// one that states a fact about the transducer.
pub fn compute_fst_properties<W: Semiring, F: Fst<W>>(fst: &F) -> (p: FstProperties)
    requires
        fst@.graph_wf(),
    ensures
        p@ == true_properties(fst@),
{
    let ghost f = fst@;
    let n = fst.num_states();
    let mut every = every_tr_fst_properties();
    let mut i_rise = true;
    let mut o_rise = true;
    let mut i_differ = true;
    let mut o_differ = true;
    let mut s: usize = 0;
    while s < n
        invariant
            s <= n,
            f == fst@,
            n == f.states.len(),
            scanned(f, s as int, every@, i_rise, o_rise, i_differ, o_differ),
        decreases n - s,
    {
        let trs = fst.get_trs_unchecked(s);
        let here = scan_trs(trs, s);
        let final_weight = fst.final_weight_unchecked(s);
        let ghost every_before = every@;
        every = every.intersection(here);
        match final_weight {
            Some(w) => {
                if !(w.is_zero() || w.is_one()) {
                    every = every.remove_bit(UNWEIGHTED_BIT);
                }
            },
            None => {},
        }
        let ir = check_labels_rise(trs, true);
        let or = check_labels_rise(trs, false);
        let id = check_labels_differ(trs, true);
        let od = check_labels_differ(trs, false);
        proof {
            lemma_scanned_step(
                f,
                s as int,
                every_before,
                i_rise,
                o_rise,
                i_differ,
                o_differ,
                every@,
            );
        }
        i_rise = i_rise && ir;
        o_rise = o_rise && or;
        i_differ = i_differ && id;
        o_differ = o_differ && od;
        s += 1;
    }
    let order = compute_top_order(fst);
    let acyclic = order.is_some();
    proof {
        match order {
            Some(o) => {
                lemma_topological_order_is_rank(f, o@);
                f.lemma_acyclic_has_no_cycle();
            },
            None => {
                if f.is_acyclic() {
                    f.lemma_acyclic_has_no_cycle();
                }
            },
        }
        lemma_assembled_is_true(f, every@, i_rise, o_rise, i_differ, o_differ, acyclic);
    }
    assemble(every, i_rise, o_rise, i_differ, o_differ, acyclic)
}

/// The bits that have a meaning.
pub fn all_fst_properties() -> (p: FstProperties)
    ensures
        p@ == all_property_bits(),
{
    let p = crate::mutable_properties::sort_kept_fst_properties().remove_bit(ACYCLIC_BIT);
    assert(p@ =~= Set::new(|k: u64| is_every_tr_bit(k) || is_some_tr_bit(k)));
    let q = p.insert_bit(I_DETERMINISTIC_BIT).insert_bit(NOT_I_DETERMINISTIC_BIT).insert_bit(
        O_DETERMINISTIC_BIT,
    ).insert_bit(NOT_O_DETERMINISTIC_BIT).insert_bit(I_LABEL_SORTED_BIT);
    let r = q.insert_bit(NOT_I_LABEL_SORTED_BIT).insert_bit(O_LABEL_SORTED_BIT).insert_bit(
        NOT_O_LABEL_SORTED_BIT,
    ).insert_bit(CYCLIC_BIT).insert_bit(ACYCLIC_BIT);
    assert(r@ =~= all_property_bits());
    r
}

} // verus!
