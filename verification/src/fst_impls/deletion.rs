//! Helpers for removing states: which states go, and where the others move.

use vstd::prelude::*;
use crate::error::FstError;
use crate::fst_properties::{
    FstProperties, ACCEPTOR_BIT, ACYCLIC_BIT, NO_EPSILONS_BIT, NO_I_EPSILONS_BIT,
    NO_O_EPSILONS_BIT, TOP_SORTED_BIT, UNWEIGHTED_BIT,
};
use crate::fst_view_delete::{
    del_states_kept_properties, kept_below, kept_trs, lemma_kept_trs_push, listed,
};
use crate::semirings::semiring::Semiring;
use crate::tr::{StateId, Tr};

verus! {

/// The states whose flag is set.
pub open spec fn flagged(flags: Seq<bool>) -> Set<int> {
    Set::new(|s: int| 0 <= s < flags.len() && flags[s])
}

/// Sets a flag for each listed state. The first listed state that is none of
/// the `n` states is refused.
pub fn mark_states(n: usize, states: &[StateId]) -> (r: Result<Vec<bool>, FstError>)
    ensures
        match r {
            Ok(flags) => flags.len() == n && (forall|i: int|
                0 <= i < states@.len() ==> states@[i] < n) && flagged(flags@) == listed(states@),
            Err(e) => exists|i: int|
                0 <= i < states@.len() && states@[i] >= n && e == FstError::StateNotFound(
                    states@[i],
                ) && forall|j: int| 0 <= j < i ==> states@[j] < n,
        },
{
    let mut flags: Vec<bool> = Vec::new();
    let mut s: usize = 0;
    while s < n
        invariant
            s <= n,
            flags.len() == s,
            forall|t: int| 0 <= t < s ==> !flags@[t],
        decreases n - s,
    {
        flags.push(false);
        s += 1;
    }
    let mut i: usize = 0;
    while i < states.len()
        invariant
            i <= states.len(),
            flags.len() == n,
            forall|j: int| 0 <= j < i ==> states@[j] < n,
            flagged(flags@) =~= listed(states@.take(i as int)),
        decreases states.len() - i,
    {
        let x = states[i];
        if x >= n {
            return Err(FstError::StateNotFound(x));
        }
        let ghost before = flags@;
        flags[x] = true;
        proof {
            let a = states@.take(i as int);
            let b = states@.take(i as int + 1);
            assert(b =~= a.push(x));
            assert forall|t: int| flagged(flags@).contains(t) == listed(b).contains(t) by {
                if listed(a).contains(t) {
                    let k = choose|k: int| 0 <= k < a.len() && a[k] == t;
                    assert(b[k] == t);
                }
                if t == x {
                    assert(b[i as int] == x);
                }
                if listed(b).contains(t) && t != x {
                    let k = choose|k: int| 0 <= k < b.len() && b[k] == t;
                    assert(a[k] == t);
                    assert(flagged(before).contains(t));
                }
                if flagged(flags@).contains(t) && t != x {
                    assert(flagged(before).contains(t));
                }
            }
        }
        i += 1;
    }
    proof {
        assert(states@.take(states@.len() as int) =~= states@);
    }
    Ok(flags)
}

/// For each state the number of unflagged states below it, and behind them
/// the number of all unflagged states.
pub fn new_indices(flags: &Vec<bool>) -> (r: Vec<usize>)
    ensures
        r.len() == flags.len() + 1,
        forall|s: int| 0 <= s <= flags.len() ==> r@[s] == kept_below(flagged(flags@), s),
{
    let ghost dead = flagged(flags@);
    let mut r: Vec<usize> = Vec::new();
    let mut count: usize = 0;
    let mut s: usize = 0;
    r.push(0);
    while s < flags.len()
        invariant
            s <= flags.len(),
            dead == flagged(flags@),
            r.len() == s + 1,
            count == kept_below(dead, s as int),
            count <= s,
            forall|t: int| 0 <= t <= s ==> r@[t] == kept_below(dead, t),
        decreases flags.len() - s,
    {
        if !flags[s] {
            count += 1;
        }
        s += 1;
        r.push(count);
    }
    r
}

/// The transitions whose target is not flagged, each leading to the new
/// index of its target.
pub fn keep_trs<W: Semiring>(trs: &Vec<Tr<W>>, flags: &Vec<bool>, new_id: &Vec<usize>) -> (r: Vec<
    Tr<W>,
>)
    requires
        new_id.len() == flags.len() + 1,
        forall|i: int| 0 <= i < trs@.len() ==> (#[trigger] trs@[i]).nextstate < flags.len(),
        forall|s: int| 0 <= s <= flags.len() ==> new_id@[s] == kept_below(flagged(flags@), s),
    ensures
        r@ == kept_trs(trs@, flagged(flags@)),
{
    let ghost dead = flagged(flags@);
    let mut r: Vec<Tr<W>> = Vec::new();
    let mut i: usize = 0;
    while i < trs.len()
        invariant
            i <= trs.len(),
            dead == flagged(flags@),
            new_id.len() == flags.len() + 1,
            forall|j: int| 0 <= j < trs@.len() ==> (#[trigger] trs@[j]).nextstate < flags.len(),
            forall|s: int| 0 <= s <= flags.len() ==> new_id@[s] == kept_below(dead, s),
            r@ == kept_trs(trs@.take(i as int), dead),
        decreases trs.len() - i,
    {
        let t = trs[i];
        proof {
            assert(trs@.take(i as int + 1) =~= trs@.take(i as int).push(t));
            lemma_kept_trs_push(trs@.take(i as int), t, dead);
        }
        if !flags[t.nextstate] {
            r.push(Tr::new(t.ilabel, t.olabel, t.weight, new_id[t.nextstate]));
        }
        i += 1;
    }
    proof {
        assert(trs@.take(trs@.len() as int) =~= trs@);
    }
    r
}

/// The bits that stay true when states are removed.
pub fn del_states_kept_fst_properties() -> (p: FstProperties)
    ensures
        p@ == del_states_kept_properties(),
{
    let p = FstProperties::empty().insert_bit(ACCEPTOR_BIT).insert_bit(NO_EPSILONS_BIT).insert_bit(
        NO_I_EPSILONS_BIT,
    ).insert_bit(NO_O_EPSILONS_BIT).insert_bit(UNWEIGHTED_BIT).insert_bit(ACYCLIC_BIT).insert_bit(
        TOP_SORTED_BIT,
    );
    assert(p@ =~= del_states_kept_properties());
    p
}

} // verus!
