//! Composition: the transducer that maps `x` to `z` wherever the first
//! transducer maps `x` to some `y` and the second maps `y` to `z`.
//!
//! A state of the composition stands for a state of each transducer and a
//! state of the filter that decides how ε-transitions are taken. A
//! transition of the first transducer whose output label is ε can be taken
//! alone, and so can a transition of the second whose input label is ε; the
//! two can also be taken together. The filter admits one order only for
//! each such run: first the transitions taken together, then those of one
//! side alone. Its state is 0 after a step of both sides, 1 after a step of
//! the second transducer alone and 2 after a step of the first alone.

use vstd::prelude::*;
use crate::algorithms::shortest_distance::lemma_queue_len;
use crate::error::FstError;
use crate::fst_properties::FstProperties;
use crate::fst_traits::{Fst, MutableFst};
use crate::fst_view::{FstView, StateView};
use crate::pair_weight::final_weight_or_zero;
use crate::semirings::semiring::Semiring;
use crate::symbol_table::share_symbol_table;
use crate::tr::{Label, StateId, Tr, EPS_LABEL};

verus! {

/// What a state of the composition stands for: a state of the first
/// transducer, a state of the second, and the state of the filter.
#[derive(Clone, Copy, Debug, PartialEq, Eq, Structural)]
pub struct PairState {
    pub left: StateId,
    pub right: StateId,
    pub filter: u8,
}

/// A step of the composition: its labels, its weight and what the state
/// stands for that it leads to.
pub struct Move<W: Semiring> {
    pub ilabel: Label,
    pub olabel: Label,
    pub weight: W,
    pub target: PairState,
}

/// Whether the two transitions can be taken together: the output label of
/// the first is the input label of the second, and where that label is ε the
/// filter is in state 0.
pub open spec fn may_match<W: Semiring>(e1: Tr<W>, e2: Tr<W>, filter: u8) -> bool {
    e1.olabel == e2.ilabel && (e1.olabel != EPS_LABEL || filter == 0)
}

/// The step that takes the two transitions together.
pub open spec fn match_move<W: Semiring>(e1: Tr<W>, e2: Tr<W>) -> Move<W> {
    Move {
        ilabel: e1.ilabel,
        olabel: e2.olabel,
        weight: e1.weight.times_spec(e2.weight),
        target: PairState { left: e1.nextstate, right: e2.nextstate, filter: 0 },
    }
}

/// The step that takes a transition of the second transducer alone.
pub open spec fn right_move<W: Semiring>(left: StateId, e2: Tr<W>) -> Move<W> {
    Move {
        ilabel: EPS_LABEL,
        olabel: e2.olabel,
        weight: e2.weight,
        target: PairState { left, right: e2.nextstate, filter: 1 },
    }
}

/// The step that takes a transition of the first transducer alone.
pub open spec fn left_move<W: Semiring>(e1: Tr<W>, right: StateId) -> Move<W> {
    Move {
        ilabel: e1.ilabel,
        olabel: EPS_LABEL,
        weight: e1.weight,
        target: PairState { left: e1.nextstate, right, filter: 2 },
    }
}

/// The steps that take the transition `e1` together with one of `trs2`.
pub open spec fn row_moves<W: Semiring>(e1: Tr<W>, trs2: Seq<Tr<W>>, filter: u8) -> Seq<Move<W>>
    decreases trs2.len(),
{
    if trs2.len() == 0 {
        Seq::empty()
    } else if may_match(e1, trs2.last(), filter) {
        row_moves(e1, trs2.drop_last(), filter).push(match_move(e1, trs2.last()))
    } else {
        row_moves(e1, trs2.drop_last(), filter)
    }
}

/// The steps that take one of `trs1` together with one of `trs2`, in the
/// order of the first and then of the second.
pub open spec fn match_moves<W: Semiring>(trs1: Seq<Tr<W>>, trs2: Seq<Tr<W>>, filter: u8) -> Seq<
    Move<W>,
>
    decreases trs1.len(),
{
    if trs1.len() == 0 {
        Seq::empty()
    } else {
        match_moves(trs1.drop_last(), trs2, filter) + row_moves(trs1.last(), trs2, filter)
    }
}

/// The steps that take one of `trs2` alone: those with input label ε, while
/// the filter is not in state 2.
pub open spec fn right_moves<W: Semiring>(left: StateId, trs2: Seq<Tr<W>>, filter: u8) -> Seq<
    Move<W>,
>
    decreases trs2.len(),
{
    if trs2.len() == 0 {
        Seq::empty()
    } else if trs2.last().ilabel == EPS_LABEL && filter != 2 {
        right_moves(left, trs2.drop_last(), filter).push(right_move(left, trs2.last()))
    } else {
        right_moves(left, trs2.drop_last(), filter)
    }
}

/// The steps that take one of `trs1` alone: those with output label ε,
/// while the filter is not in state 1.
pub open spec fn left_moves<W: Semiring>(trs1: Seq<Tr<W>>, right: StateId, filter: u8) -> Seq<
    Move<W>,
>
    decreases trs1.len(),
{
    if trs1.len() == 0 {
        Seq::empty()
    } else if trs1.last().olabel == EPS_LABEL && filter != 1 {
        left_moves(trs1.drop_last(), right, filter).push(left_move(trs1.last(), right))
    } else {
        left_moves(trs1.drop_last(), right, filter)
    }
}

/// The steps that the composition of `a` and `b` can take from what `p`
/// stands for: those of both sides together, then those of the second
/// alone, then those of the first alone.
pub open spec fn moves_of<W: Semiring>(a: FstView<W>, b: FstView<W>, p: PairState) -> Seq<Move<W>> {
    match_moves(a.states[p.left as int].trs, b.states[p.right as int].trs, p.filter) + right_moves(
        p.left,
        b.states[p.right as int].trs,
        p.filter,
    ) + left_moves(a.states[p.left as int].trs, p.right, p.filter)
}

/// Whether the transitions are the steps, one by one: each has the labels
/// and the weight of its step and leads to the state that stands for the
/// target of its step.
pub open spec fn agree_with<W: Semiring>(
    trs: Seq<Tr<W>>,
    moves: Seq<Move<W>>,
    table: Seq<PairState>,
) -> bool {
    &&& trs.len() == moves.len()
    &&& forall|m: int|
        0 <= m < trs.len() ==> {
            &&& (#[trigger] trs[m]).ilabel == moves[m].ilabel
            &&& trs[m].olabel == moves[m].olabel
            &&& trs[m].weight == moves[m].weight
            &&& trs[m].nextstate < table.len()
            &&& table[trs[m].nextstate as int] == moves[m].target
        }
}

/// The final weight of the state that stands for `p`: the product of the
/// final weights of its two states, where both are final.
pub open spec fn pair_final<W: Semiring>(a: FstView<W>, b: FstView<W>, p: PairState) -> Option<W> {
    FstView::<W>::kept_final(
        final_weight_or_zero(a, p.left as int).times_spec(final_weight_or_zero(b, p.right as int)),
    )
}

/// Whether `state` is the state of the composition that stands for `p`.
pub open spec fn is_pair_state<W: Semiring>(
    state: StateView<W>,
    a: FstView<W>,
    b: FstView<W>,
    table: Seq<PairState>,
    p: PairState,
) -> bool {
    state.final_weight == pair_final(a, b, p) && agree_with(state.trs, moves_of(a, b, p), table)
}

/// Whether `p` stands for states that exist.
pub open spec fn is_in_range<W: Semiring>(a: FstView<W>, b: FstView<W>, p: PairState) -> bool {
    p.left < a.states.len() && p.right < b.states.len() && p.filter < 3
}

/// Whether a transition of an earlier state leads to state `k`.
pub open spec fn is_met_from_earlier<W: Semiring>(g: FstView<W>, k: int) -> bool {
    exists|j: int, m: int| 0 <= j < k && g.has_tr(j, m) && #[trigger] g.tr(j, m).nextstate == k
}

/// Whether `g` is the composition of `a` and `b`, its state `k` standing
/// for `table[k]`: state 0 stands for the two start states with the filter
/// in state 0, each state has the steps that can be taken from what it
/// stands for, no two states stand for the same, and each state but the
/// first is led to from an earlier one. Where one of `a` and `b` has no
/// start state the composition has no state. The input symbols are those of
/// `a`, the output symbols those of `b`, and no property bit is set.
pub open spec fn is_composition<W: Semiring>(
    g: FstView<W>,
    a: FstView<W>,
    b: FstView<W>,
    table: Seq<PairState>,
) -> bool {
    &&& g.states.len() == table.len()
    &&& forall|k: int| 0 <= k < table.len() ==> is_in_range(a, b, #[trigger] table[k])
    &&& forall|i: int, j: int|
        0 <= i < j < table.len() ==> #[trigger] table[i] != #[trigger] table[j]
    &&& match (a.start, b.start) {
        (Some(s1), Some(s2)) => table.len() > 0 && table[0] == (PairState {
            left: s1,
            right: s2,
            filter: 0,
        }) && g.start == Some(0usize),
        _ => table.len() == 0 && g.start is None,
    }
    &&& forall|k: int|
        0 <= k < table.len() ==> is_pair_state(#[trigger] g.states[k], a, b, table, table[k])
    &&& forall|k: int| 1 <= k < table.len() ==> #[trigger] is_met_from_earlier(g, k)
    &&& g.isymt == a.isymt
    &&& g.osymt == b.osymt
    &&& g.properties == Set::<u64>::empty()
}

// ----- the table of the states that were met -----

/// The place of `p` in the index of the states that were met.
pub open spec fn code_of(p: PairState, n2: nat) -> nat {
    ((p.left * n2 + p.right) * 3 + p.filter) as nat
}

/// The mark of a place of the index that stands for no state yet.
pub const NO_STATE: usize = usize::MAX;

/// Whether `place` is the index of `table`: the place of each state met
/// holds its number, and every other place is free.
pub open spec fn table_ok(table: Seq<PairState>, place: Seq<usize>, n1: nat, n2: nat) -> bool {
    &&& place.len() == n1 * n2 * 3
    &&& forall|k: int|
        0 <= k < table.len() ==> {
            &&& (#[trigger] table[k]).left < n1
            &&& table[k].right < n2
            &&& table[k].filter < 3
            &&& place[code_of(table[k], n2) as int] == k
        }
    &&& forall|c: int|
        0 <= c < place.len() ==> (#[trigger] place[c]) == NO_STATE || (place[c] < table.len()
            && code_of(table[place[c] as int], n2) == c)
}

/// Each state has a place of its own in the index.
proof fn lemma_code_bound(p: PairState, n1: nat, n2: nat)
    requires
        p.left < n1,
        p.right < n2,
        p.filter < 3,
    ensures
        code_of(p, n2) < n1 * n2 * 3,
        p.left * n2 + p.right < n1 * n2,
{
    let l = p.left as int;
    let r = p.right as int;
    assert(l * n2 + r < n1 * n2) by (nonlinear_arith)
        requires
            0 <= l < n1,
            0 <= r < n2,
    ;
}

proof fn lemma_code_injective(p: PairState, q: PairState, n2: nat)
    requires
        p.right < n2,
        q.right < n2,
        p.filter < 3,
        q.filter < 3,
        code_of(p, n2) == code_of(q, n2),
    ensures
        p == q,
{
    let a = p.left * n2 + p.right;
    let b = q.left * n2 + q.right;
    assert(a == b && p.filter == q.filter);
    let pl = p.left as int;
    let ql = q.left as int;
    let pr = p.right as int;
    let qr = q.right as int;
    assert(pl == ql) by (nonlinear_arith)
        requires
            pl * n2 + pr == ql * n2 + qr,
            0 <= pr < n2,
            0 <= qr < n2,
            0 <= pl,
            0 <= ql,
    ;
}

/// The states that were met are distinct, and there are no more of them
/// than the index has places.
proof fn lemma_table_ok(table: Seq<PairState>, place: Seq<usize>, n1: nat, n2: nat)
    requires
        table_ok(table, place, n1, n2),
        n1 * n2 * 3 <= usize::MAX,
    ensures
        table.len() <= n1 * n2 * 3,
        forall|i: int, j: int|
            0 <= i < j < table.len() ==> #[trigger] table[i] != #[trigger] table[j],
{
    let codes = Seq::new(table.len(), |k: int| code_of(table[k], n2) as usize);
    assert forall|k: int| 0 <= k < codes.len() implies codes[k] < n1 * n2 * 3 by {
        lemma_code_bound(table[k], n1, n2);
    }
    assert(codes.no_duplicates()) by {
        assert forall|i: int, j: int| 0 <= i < codes.len() && 0 <= j < codes.len() && i
            != j implies codes[i] != codes[j] by {
            lemma_code_bound(table[i], n1, n2);
            lemma_code_bound(table[j], n1, n2);
            assert(place[code_of(table[i], n2) as int] == i);
            assert(place[code_of(table[j], n2) as int] == j);
        }
    }
    lemma_queue_len(n1 * n2 * 3, codes);
    assert forall|i: int, j: int| 0 <= i < j < table.len() implies #[trigger] table[i]
        != #[trigger] table[j] by {
        assert(place[code_of(table[i], n2) as int] == i);
        assert(place[code_of(table[j], n2) as int] == j);
    }
}

/// The steps stay what they are when more states are met.
proof fn lemma_agree_stable<W: Semiring>(
    trs: Seq<Tr<W>>,
    moves: Seq<Move<W>>,
    before: Seq<PairState>,
    after: Seq<PairState>,
)
    requires
        agree_with(trs, moves, before),
        before.len() <= after.len(),
        forall|k: int| 0 <= k < before.len() ==> #[trigger] after[k] == before[k],
    ensures
        agree_with(trs, moves, after),
{
    assert forall|m: int| 0 <= m < trs.len() implies {
        &&& (#[trigger] trs[m]).ilabel == moves[m].ilabel
        &&& trs[m].olabel == moves[m].olabel
        &&& trs[m].weight == moves[m].weight
        &&& trs[m].nextstate < after.len()
        &&& after[trs[m].nextstate as int] == moves[m].target
    } by {
        assert(after[trs[m].nextstate as int] == before[trs[m].nextstate as int]);
    }
}

/// Whether one of the transitions leads to state `j`.
pub open spec fn is_target_of<W: Semiring>(trs: Seq<Tr<W>>, j: int) -> bool {
    exists|m: int| 0 <= m < trs.len() && (#[trigger] trs[m]).nextstate == j
}

/// What holds while the composition is built: the index is that of the
/// states that were met, and the result has one state for each of them.
pub open spec fn building<W: Semiring>(
    table: Seq<PairState>,
    place: Seq<usize>,
    out: FstView<W>,
    n1: nat,
    n2: nat,
) -> bool {
    &&& table_ok(table, place, n1, n2)
    &&& n1 * n2 * 3 <= usize::MAX
    &&& out.wf()
    &&& out.states.len() == table.len()
}

/// The number of the state that stands for `target`, which is met now if it
/// was not before.
fn find_or_add<W: Semiring, F: MutableFst<W>>(
    table: &mut Vec<PairState>,
    place: &mut Vec<usize>,
    out: &mut F,
    target: PairState,
    n1: usize,
    n2: usize,
) -> (id: usize)
    requires
        building(old(table)@, old(place)@, old(out)@, n1 as nat, n2 as nat),
        target.left < n1,
        target.right < n2,
        target.filter < 3,
    ensures
        building(final(table)@, final(place)@, final(out)@, n1 as nat, n2 as nat),
        id < final(table)@.len(),
        final(table)@[id as int] == target,
        final(table)@ == old(table)@ || (final(table)@ == old(table)@.push(target) && id == old(
            table,
        )@.len()),
        final(table)@ == old(table)@ ==> final(out)@ == old(out)@,
        final(table)@ != old(table)@ ==> final(out)@ == old(out)@.add_states(1),
{
    proof {
        lemma_code_bound(target, n1 as nat, n2 as nat);
        lemma_table_ok(table@, place@, n1 as nat, n2 as nat);
    }
    let code = (target.left * n2 + target.right) * 3 + target.filter as usize;
    let found = place[code];
    if found != NO_STATE {
        proof {
            lemma_code_injective(table@[found as int], target, n2 as nat);
        }
        found
    } else {
        let id = table.len();
        let ghost before = table@;
        let ghost places = place@;
        assert(before.len() < n1 * n2 * 3) by {
            if before.len() == n1 * n2 * 3 {
                // every place is taken when there are as many states as places
                let codes = Seq::new(before.len(), |k: int| code_of(before[k], n2 as nat) as usize);
                assert forall|k: int| 0 <= k < before.len() implies code_of(before[k], n2 as nat)
                    != code by {
                    assert(places[code_of(before[k], n2 as nat) as int] == k);
                }
                let more = codes.push(code);
                assert(more.no_duplicates()) by {
                    assert forall|i: int, j: int|
                        0 <= i < more.len() && 0 <= j < more.len() && i != j implies more[i]
                        != more[j] by {
                        if i < before.len() {
                            lemma_code_bound(before[i], n1 as nat, n2 as nat);
                            assert(places[code_of(before[i], n2 as nat) as int] == i);
                        }
                        if j < before.len() {
                            lemma_code_bound(before[j], n1 as nat, n2 as nat);
                            assert(places[code_of(before[j], n2 as nat) as int] == j);
                        }
                    }
                }
                assert forall|k: int| 0 <= k < more.len() implies more[k] < n1 * n2 * 3 by {
                    if k < before.len() {
                        lemma_code_bound(before[k], n1 as nat, n2 as nat);
                    }
                }
                lemma_queue_len((n1 * n2 * 3) as nat, more);
            }
        }
        table.push(target);
        place.set(code, id);
        let added = out.add_state();
        proof {
            let n2n = n2 as nat;
            assert forall|k: int| 0 <= k < table@.len() implies {
                &&& (#[trigger] table@[k]).left < n1
                &&& table@[k].right < n2
                &&& table@[k].filter < 3
                &&& place@[code_of(table@[k], n2n) as int] == k
            } by {
                if k < before.len() {
                    assert(table@[k] == before[k]);
                    lemma_code_bound(before[k], n1 as nat, n2n);
                    assert(places[code_of(before[k], n2n) as int] == k);
                }
            }
            assert forall|c: int| 0 <= c < place@.len() implies (#[trigger] place@[c]) == NO_STATE
                || (place@[c] < table@.len() && code_of(table@[place@[c] as int], n2n) == c) by {
                if c != code {
                    assert(place@[c] == places[c]);
                    if places[c] != NO_STATE {
                        assert(table@[places[c] as int] == before[places[c] as int]);
                    }
                }
            }
        }
        id
    }
}

/// Appends to `trs` the transition for one more step, whose target is met
/// now if it was not before.
fn push_move<W: Semiring, F: MutableFst<W>>(
    trs: &mut Vec<Tr<W>>,
    table: &mut Vec<PairState>,
    place: &mut Vec<usize>,
    out: &mut F,
    ilabel: Label,
    olabel: Label,
    weight: W,
    target: PairState,
    n1: usize,
    n2: usize,
    Ghost(moves): Ghost<Seq<Move<W>>>,
    Ghost(first_new): Ghost<int>,
)
    requires
        building(old(table)@, old(place)@, old(out)@, n1 as nat, n2 as nat),
        target.left < n1,
        target.right < n2,
        target.filter < 3,
        agree_with(old(trs)@, moves, old(table)@),
        first_new <= old(table)@.len(),
        forall|j: int| first_new <= j < old(table)@.len() ==> #[trigger] is_target_of(old(trs)@, j),
    ensures
        building(final(table)@, final(place)@, final(out)@, n1 as nat, n2 as nat),
        agree_with(final(trs)@, moves.push(Move { ilabel, olabel, weight, target }), final(table)@),
        forall|j: int| first_new <= j < final(table)@.len() ==> #[trigger] is_target_of(final(trs)@, j),
        old(table)@.len() <= final(table)@.len(),
        forall|k: int| 0 <= k < old(table)@.len() ==> #[trigger] final(table)@[k] == old(table)@[k],
        final(out)@.start == old(out)@.start,
        final(out)@.isymt == old(out)@.isymt,
        final(out)@.osymt == old(out)@.osymt,
        final(out)@.properties == old(out)@.properties,
        forall|k: int|
            0 <= k < old(table)@.len() ==> #[trigger] final(out)@.states[k] == old(out)@.states[k],
        forall|k: int|
            old(table)@.len() <= k < final(table)@.len() ==> #[trigger] final(out)@.states[k]
                == StateView::<W>::empty(),
{
    let ghost table0 = table@;
    let ghost trs0 = trs@;
    let id = find_or_add(table, place, out, target, n1, n2);
    trs.push(Tr::new(ilabel, olabel, weight, id));
    proof {
        let mv = Move { ilabel, olabel, weight, target };
        lemma_agree_stable(trs0, moves, table0, table@);
        assert forall|m: int| 0 <= m < trs@.len() implies {
            &&& (#[trigger] trs@[m]).ilabel == moves.push(mv)[m].ilabel
            &&& trs@[m].olabel == moves.push(mv)[m].olabel
            &&& trs@[m].weight == moves.push(mv)[m].weight
            &&& trs@[m].nextstate < table@.len()
            &&& table@[trs@[m].nextstate as int] == moves.push(mv)[m].target
        } by {
            if m < trs0.len() {
                assert(trs@[m] == trs0[m]);
            }
        }
        assert forall|j: int| first_new <= j < table@.len() implies #[trigger] is_target_of(
            trs@,
            j,
        ) by {
            if j < table0.len() {
                assert(is_target_of(trs0, j));
                let m = choose|m: int| 0 <= m < trs0.len() && (#[trigger] trs0[m]).nextstate == j;
                assert(trs@[m] == trs0[m]);
            } else {
                assert(trs@[trs0.len() as int].nextstate == j);
            }
        }
    }
}

/// Gives state `k` of the composition its transitions and its final weight.
/// The states that its transitions lead to are met, if they were not
/// before.
fn expand<W: Semiring, F1: Fst<W>, F2: Fst<W>, F3: MutableFst<W>>(
    fst1: &F1,
    fst2: &F2,
    k: usize,
    table: &mut Vec<PairState>,
    place: &mut Vec<usize>,
    out: &mut F3,
)
    requires
        fst1@.graph_wf(),
        fst2@.graph_wf(),
        building(
            old(table)@,
            old(place)@,
            old(out)@,
            fst1@.states.len(),
            fst2@.states.len(),
        ),
        k < old(table)@.len(),
        old(out)@.properties == Set::<u64>::empty(),
    ensures
        building(
            final(table)@,
            final(place)@,
            final(out)@,
            fst1@.states.len(),
            fst2@.states.len(),
        ),
        old(table)@.len() <= final(table)@.len(),
        forall|j: int| 0 <= j < old(table)@.len() ==> #[trigger] final(table)@[j] == old(table)@[j],
        is_pair_state(
            final(out)@.states[k as int],
            fst1@,
            fst2@,
            final(table)@,
            old(table)@[k as int],
        ),
        forall|j: int|
            old(table)@.len() <= j < final(table)@.len() ==> #[trigger] is_target_of(
                final(out)@.states[k as int].trs,
                j,
            ),
        forall|j: int|
            0 <= j < old(table)@.len() && j != k ==> #[trigger] final(out)@.states[j] == old(
                out,
            )@.states[j],
        forall|j: int|
            old(table)@.len() <= j < final(table)@.len() ==> #[trigger] final(out)@.states[j]
                == StateView::<W>::empty(),
        final(out)@.start == old(out)@.start,
        final(out)@.isymt == old(out)@.isymt,
        final(out)@.osymt == old(out)@.osymt,
        final(out)@.properties == Set::<u64>::empty(),
{
    let ghost a = fst1@;
    let ghost b = fst2@;
    let ghost table0 = table@;
    let ghost out0 = out@;
    let n1 = fst1.num_states();
    let n2 = fst2.num_states();
    let p = table[k];
    let trs1 = fst1.get_trs_unchecked(p.left);
    let trs2 = fst2.get_trs_unchecked(p.right);
    let first_new = table.len();
    let mut trs: Vec<Tr<W>> = Vec::new();
    let ghost mut moves: Seq<Move<W>> = Seq::empty();
    proof {
        assert forall|i: int| 0 <= i < trs1@.len() implies (#[trigger] trs1@[i]).nextstate < n1 by {
            assert(a.has_tr(p.left as int, i));
        }
        assert forall|j: int| 0 <= j < trs2@.len() implies (#[trigger] trs2@[j]).nextstate < n2 by {
            assert(b.has_tr(p.right as int, j));
        }
        assert(trs1@.take(0) =~= Seq::<Tr<W>>::empty());
    }
    // both sides together
    let mut i: usize = 0;
    while i < trs1.len()
        invariant
            i <= trs1.len(),
            n1 == a.states.len(),
            n2 == b.states.len(),
            p == table0[k as int],
            p.left < n1,
            p.right < n2,
            first_new == table0.len(),
            forall|x: int| 0 <= x < trs1@.len() ==> (#[trigger] trs1@[x]).nextstate < n1,
            forall|x: int| 0 <= x < trs2@.len() ==> (#[trigger] trs2@[x]).nextstate < n2,
            building(table@, place@, out@, n1 as nat, n2 as nat),
            table0.len() <= table@.len(),
            forall|x: int| 0 <= x < table0.len() ==> #[trigger] table@[x] == table0[x],
            moves == match_moves(trs1@.take(i as int), trs2@, p.filter),
            agree_with(trs@, moves, table@),
            forall|x: int| first_new <= x < table@.len() ==> #[trigger] is_target_of(trs@, x),
            out@.start == out0.start,
            out@.isymt == out0.isymt,
            out@.osymt == out0.osymt,
            out@.properties == out0.properties,
            forall|x: int| 0 <= x < table0.len() ==> #[trigger] out@.states[x] == out0.states[x],
            forall|x: int|
                table0.len() <= x < table@.len() ==> #[trigger] out@.states[x]
                    == StateView::<W>::empty(),
        decreases trs1.len() - i,
    {
        let e1 = trs1[i];
        let ghost start_moves = moves;
        let mut j: usize = 0;
        proof {
            assert(trs2@.take(0) =~= Seq::<Tr<W>>::empty());
            assert(moves =~= start_moves + row_moves(e1, trs2@.take(0), p.filter));
        }
        while j < trs2.len()
            invariant
                j <= trs2.len(),
                i < trs1.len(),
                e1 == trs1@[i as int],
                n1 == a.states.len(),
                n2 == b.states.len(),
                p.left < n1,
                p.right < n2,
                first_new == table0.len(),
                forall|x: int| 0 <= x < trs1@.len() ==> (#[trigger] trs1@[x]).nextstate < n1,
                forall|x: int| 0 <= x < trs2@.len() ==> (#[trigger] trs2@[x]).nextstate < n2,
                building(table@, place@, out@, n1 as nat, n2 as nat),
                table0.len() <= table@.len(),
                forall|x: int| 0 <= x < table0.len() ==> #[trigger] table@[x] == table0[x],
                moves == start_moves + row_moves(e1, trs2@.take(j as int), p.filter),
                agree_with(trs@, moves, table@),
                forall|x: int| first_new <= x < table@.len() ==> #[trigger] is_target_of(trs@, x),
                out@.start == out0.start,
                out@.isymt == out0.isymt,
                out@.osymt == out0.osymt,
                out@.properties == out0.properties,
                forall|x: int| 0 <= x < table0.len() ==> #[trigger] out@.states[x] == out0.states[x],
                forall|x: int|
                    table0.len() <= x < table@.len() ==> #[trigger] out@.states[x]
                        == StateView::<W>::empty(),
            decreases trs2.len() - j,
        {
            let e2 = trs2[j];
            proof {
                assert(trs2@.take(j + 1).drop_last() =~= trs2@.take(j as int));
            }
            if e1.olabel == e2.ilabel && (e1.olabel != EPS_LABEL || p.filter == 0) {
                let target = PairState { left: e1.nextstate, right: e2.nextstate, filter: 0 };
                push_move(
                    &mut trs,
                    table,
                    place,
                    out,
                    e1.ilabel,
                    e2.olabel,
                    e1.weight.times(&e2.weight),
                    target,
                    n1,
                    n2,
                    Ghost(moves),
                    Ghost(first_new as int),
                );
                proof {
                    moves = moves.push(match_move(e1, e2));
                    assert(moves =~= start_moves + row_moves(e1, trs2@.take(j + 1), p.filter));
                }
            }
            j += 1;
        }
        proof {
            assert(trs2@.take(trs2@.len() as int) =~= trs2@);
            assert(trs1@.take(i + 1).drop_last() =~= trs1@.take(i as int));
        }
        i += 1;
    }
    let ghost matched = moves;
    proof {
        assert(trs1@.take(trs1@.len() as int) =~= trs1@);
        assert(trs2@.take(0) =~= Seq::<Tr<W>>::empty());
        assert(moves =~= matched + right_moves::<W>(p.left, trs2@.take(0), p.filter));
    }
    // the second transducer alone
    let mut j: usize = 0;
    while j < trs2.len()
        invariant
            j <= trs2.len(),
            n1 == a.states.len(),
            n2 == b.states.len(),
            p.left < n1,
            p.right < n2,
            first_new == table0.len(),
            forall|x: int| 0 <= x < trs2@.len() ==> (#[trigger] trs2@[x]).nextstate < n2,
            building(table@, place@, out@, n1 as nat, n2 as nat),
            table0.len() <= table@.len(),
            forall|x: int| 0 <= x < table0.len() ==> #[trigger] table@[x] == table0[x],
            moves == matched + right_moves(p.left, trs2@.take(j as int), p.filter),
            agree_with(trs@, moves, table@),
            forall|x: int| first_new <= x < table@.len() ==> #[trigger] is_target_of(trs@, x),
            out@.start == out0.start,
            out@.isymt == out0.isymt,
            out@.osymt == out0.osymt,
            out@.properties == out0.properties,
            forall|x: int| 0 <= x < table0.len() ==> #[trigger] out@.states[x] == out0.states[x],
            forall|x: int|
                table0.len() <= x < table@.len() ==> #[trigger] out@.states[x]
                    == StateView::<W>::empty(),
        decreases trs2.len() - j,
    {
        let e2 = trs2[j];
        proof {
            assert(trs2@.take(j + 1).drop_last() =~= trs2@.take(j as int));
        }
        if e2.ilabel == EPS_LABEL && p.filter != 2 {
            let target = PairState { left: p.left, right: e2.nextstate, filter: 1 };
            push_move(
                &mut trs,
                table,
                place,
                out,
                EPS_LABEL,
                e2.olabel,
                e2.weight,
                target,
                n1,
                n2,
                Ghost(moves),
                Ghost(first_new as int),
            );
            proof {
                moves = moves.push(right_move(p.left, e2));
                assert(moves =~= matched + right_moves(p.left, trs2@.take(j + 1), p.filter));
            }
        }
        j += 1;
    }
    let ghost halfway = moves;
    proof {
        assert(trs2@.take(trs2@.len() as int) =~= trs2@);
        assert(trs1@.take(0) =~= Seq::<Tr<W>>::empty());
        assert(moves =~= halfway + left_moves::<W>(trs1@.take(0), p.right, p.filter));
    }
    // the first transducer alone
    let mut i: usize = 0;
    while i < trs1.len()
        invariant
            i <= trs1.len(),
            n1 == a.states.len(),
            n2 == b.states.len(),
            p.left < n1,
            p.right < n2,
            first_new == table0.len(),
            forall|x: int| 0 <= x < trs1@.len() ==> (#[trigger] trs1@[x]).nextstate < n1,
            building(table@, place@, out@, n1 as nat, n2 as nat),
            table0.len() <= table@.len(),
            forall|x: int| 0 <= x < table0.len() ==> #[trigger] table@[x] == table0[x],
            moves == halfway + left_moves(trs1@.take(i as int), p.right, p.filter),
            agree_with(trs@, moves, table@),
            forall|x: int| first_new <= x < table@.len() ==> #[trigger] is_target_of(trs@, x),
            out@.start == out0.start,
            out@.isymt == out0.isymt,
            out@.osymt == out0.osymt,
            out@.properties == out0.properties,
            forall|x: int| 0 <= x < table0.len() ==> #[trigger] out@.states[x] == out0.states[x],
            forall|x: int|
                table0.len() <= x < table@.len() ==> #[trigger] out@.states[x]
                    == StateView::<W>::empty(),
        decreases trs1.len() - i,
    {
        let e1 = trs1[i];
        proof {
            assert(trs1@.take(i + 1).drop_last() =~= trs1@.take(i as int));
        }
        if e1.olabel == EPS_LABEL && p.filter != 1 {
            let target = PairState { left: e1.nextstate, right: p.right, filter: 2 };
            push_move(
                &mut trs,
                table,
                place,
                out,
                e1.ilabel,
                EPS_LABEL,
                e1.weight,
                target,
                n1,
                n2,
                Ghost(moves),
                Ghost(first_new as int),
            );
            proof {
                moves = moves.push(left_move(e1, p.right));
                assert(moves =~= halfway + left_moves(trs1@.take(i + 1), p.right, p.filter));
            }
        }
        i += 1;
    }
    proof {
        assert(trs1@.take(trs1@.len() as int) =~= trs1@);
        assert(moves == moves_of(a, b, p));
    }
    let weight = match (fst1.final_weight_unchecked(p.left), fst2.final_weight_unchecked(p.right)) {
        (Some(x), Some(y)) => x.times(&y),
        _ => W::zero(),
    };
    proof {
        W::lemma_times_zero(final_weight_or_zero(a, p.left as int));
        W::lemma_times_zero(final_weight_or_zero(b, p.right as int));
    }
    let ghost mid = out@;
    let ghost trs_view = trs@;
    out.set_trs_unchecked(k, trs);
    out.set_final_unchecked(k, weight);
    proof {
        out@.lemma_with_properties_wf(Set::empty());
    }
    out.set_properties(FstProperties::empty());
    proof {
        assert(out@.states[k as int].trs == trs_view);
        assert forall|j: int| 0 <= j < table0.len() && j != k implies #[trigger] out@.states[j]
            == out0.states[j] by {
            assert(mid.states[j] == out0.states[j]);
        }
        assert forall|j: int| table0.len() <= j < table@.len() implies #[trigger] out@.states[j]
            == StateView::<W>::empty() by {
            assert(mid.states[j] == StateView::<W>::empty());
        }
    }
}

/// Builds the composition of two transducers whose pairs of states can be
/// counted, and tells what each of its states stands for.
fn build_composition<W: Semiring, F1: Fst<W>, F2: Fst<W>, F3: MutableFst<W>>(
    fst1: &F1,
    fst2: &F2,
    cap: usize,
) -> (r: (F3, Ghost<Seq<PairState>>))
    requires
        fst1@.wf(),
        fst2@.wf(),
        cap == fst1@.states.len() * fst2@.states.len() * 3,
    ensures
        r.0@.wf(),
        is_composition(r.0@, fst1@, fst2@, r.1@),
{
    let ghost a = fst1@;
    let ghost b = fst2@;
    let n1 = fst1.num_states();
    let n2 = fst2.num_states();
    let mut place: Vec<usize> = Vec::new();
    let mut c: usize = 0;
    while c < cap
        invariant
            c <= cap,
            place@.len() == c,
            forall|x: int| 0 <= x < c ==> #[trigger] place@[x] == NO_STATE,
        decreases cap - c,
    {
        place.push(NO_STATE);
        c += 1;
    }
    let mut table: Vec<PairState> = Vec::new();
    let mut out = F3::new();
    match fst1.input_symbols() {
        Some(symt) => {
            out.set_input_symbols(share_symbol_table(symt));
        },
        None => {},
    }
    match fst2.output_symbols() {
        Some(symt) => {
            out.set_output_symbols(share_symbol_table(symt));
        },
        None => {},
    }
    proof {
        out@.lemma_with_properties_wf(Set::empty());
    }
    out.set_properties(FstProperties::empty());
    match (fst1.start(), fst2.start()) {
        (Some(s1), Some(s2)) => {
            let first = PairState { left: s1, right: s2, filter: 0 };
            let id = find_or_add(&mut table, &mut place, &mut out, first, n1, n2);
            assert(table@ =~= seq![first]);
            out.set_start_unchecked(0);
        },
        _ => {},
    }
    let mut k: usize = 0;
    proof {
        lemma_table_ok(table@, place@, n1 as nat, n2 as nat);
    }
    while k < table.len()
        invariant
            k <= table.len(),
            a == fst1@,
            b == fst2@,
            a.wf(),
            b.wf(),
            n1 == a.states.len(),
            n2 == b.states.len(),
            cap == n1 * n2 * 3,
            building(table@, place@, out@, n1 as nat, n2 as nat),
            table@.len() <= cap,
            out@.isymt == a.isymt,
            out@.osymt == b.osymt,
            out@.properties == Set::<u64>::empty(),
            match (a.start, b.start) {
                (Some(s1), Some(s2)) => table@.len() > 0 && table@[0] == (PairState {
                    left: s1,
                    right: s2,
                    filter: 0,
                }) && out@.start == Some(0usize),
                _ => table@.len() == 0 && out@.start is None,
            },
            forall|j: int|
                0 <= j < k ==> is_pair_state(#[trigger] out@.states[j], a, b, table@, table@[j]),
            forall|j: int| k <= j < table@.len() ==> #[trigger] out@.states[j] == StateView::<W>::empty(),
            forall|j: int| 1 <= j < table@.len() ==> #[trigger] is_met_from_earlier(out@, j),
        decreases cap - table@.len(), table@.len() - k,
    {
        let ghost table0 = table@;
        let ghost out0 = out@;
        expand(fst1, fst2, k, &mut table, &mut place, &mut out);
        proof {
            lemma_table_ok(table@, place@, n1 as nat, n2 as nat);
            assert forall|j: int| 0 <= j < k + 1 implies is_pair_state(
                #[trigger] out@.states[j],
                a,
                b,
                table@,
                table@[j],
            ) by {
                if j < k {
                    assert(out@.states[j] == out0.states[j]);
                    assert(is_pair_state(out0.states[j], a, b, table0, table0[j]));
                    lemma_agree_stable(
                        out0.states[j].trs,
                        moves_of(a, b, table0[j]),
                        table0,
                        table@,
                    );
                }
            }
            assert forall|j: int| k + 1 <= j < table@.len() implies #[trigger] out@.states[j]
                == StateView::<W>::empty() by {
                if j < table0.len() {
                    assert(out@.states[j] == out0.states[j]);
                }
            }
            assert forall|j: int| 1 <= j < table@.len() implies #[trigger] is_met_from_earlier(
                out@,
                j,
            ) by {
                if j < table0.len() {
                    assert(is_met_from_earlier(out0, j));
                    let (u, m) = choose|u: int, m: int|
                        0 <= u < j && out0.has_tr(u, m) && #[trigger] out0.tr(u, m).nextstate == j;
                    assert(u != k) by {
                        assert(out0.states[k as int] == StateView::<W>::empty());
                    }
                    assert(out@.states[u] == out0.states[u]);
                    assert(out@.has_tr(u, m) && out@.tr(u, m).nextstate == j);
                } else {
                    assert(is_target_of(out@.states[k as int].trs, j));
                    let m = choose|m: int|
                        0 <= m < out@.states[k as int].trs.len() && (#[trigger] out@.states[k as int].trs[m]).nextstate
                            == j;
                    assert(out@.has_tr(k as int, m) && out@.tr(k as int, m).nextstate == j);
                }
            }
        }
        k += 1;
    }
    proof {
        lemma_table_ok(table@, place@, n1 as nat, n2 as nat);
        assert(is_composition(out@, a, b, table@));
    }
    (out, Ghost(table@))
}

/// Composes two transducers: the result maps `x` to `z` wherever `fst1` maps
/// `x` to some `y` and `fst2` maps `y` to `z`, with the product of the two
/// weights. Its states are the pairs of states that can be reached
/// together from the two start states, numbered as they are met. Two
/// transducers with more pairs of states than a machine word can count
/// thrice over are refused.
pub fn compose<W: Semiring, F1: Fst<W>, F2: Fst<W>, F3: MutableFst<W>>(fst1: &F1, fst2: &F2) -> (r:
    Result<F3, FstError>)
    requires
        fst1@.wf(),
        fst2@.wf(),
    ensures
        match r {
            Ok(g) => g@.wf() && (exists|table: Seq<PairState>| #[trigger]
                is_composition(g@, fst1@, fst2@, table)),
            Err(e) => e == FstError::InvalidInput && fst1@.states.len() * fst2@.states.len() * 3
                > usize::MAX,
        },
{
    let n1 = fst1.num_states();
    let n2 = fst2.num_states();
    let pairs = match n1.checked_mul(n2) {
        Some(pairs) => pairs,
        None => {
            assert(n1 * n2 * 3 > usize::MAX) by (nonlinear_arith)
                requires
                    n1 * n2 > usize::MAX,
            ;
            return Err(FstError::InvalidInput);
        },
    };
    let cap = match pairs.checked_mul(3) {
        Some(cap) => cap,
        None => {
            return Err(FstError::InvalidInput);
        },
    };
    let (out, Ghost(table)) = build_composition::<W, F1, F2, F3>(fst1, fst2, cap);
    assert(is_composition(out@, fst1@, fst2@, table));
    Ok(out)
}

} // verus!
