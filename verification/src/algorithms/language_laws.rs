//! What inversion, union and closure do to the weight of a pair of strings.

use vstd::prelude::*;
use crate::algorithms::inversion::{inverted, inverted_trs};
use crate::algorithms::rational::{
    closure_star, eps_tr, moved_start, shifted_state, shifted_tr, union_entries, united,
};
use crate::fst_view::FstView;
use crate::pair_weight::{
    ending_weight, lemma_trivial_semiring, lemma_weight_through_concat,
    lemma_weight_through_same, pair_weight, step_weight, weight_from, weight_through,
};
use crate::semirings::semiring::Semiring;
use crate::tr::{Label, Tr};

verus! {

// ----- inversion -----

/// From each state the inverted transducer gives the pair `(y, x)` what the
/// transducer gives the pair `(x, y)`.
pub proof fn lemma_invert_swaps_strings_from<W: Semiring>(
    f: FstView<W>,
    s: int,
    x: Seq<Label>,
    y: Seq<Label>,
    k: nat,
)
    requires
        f.graph_wf(),
        f.has_state(s),
    ensures
        weight_from(inverted(f), s, y, x, k) == weight_from(f, s, x, y, k),
    decreases k, 0nat, 0nat,
{
    let g = inverted(f);
    assert(ending_weight(g, s, y, x) == ending_weight(f, s, x, y));
    if k > 0 {
        assert(g.states[s].trs == inverted_trs(f.states[s].trs));
        lemma_invert_swaps_strings_through(
            f,
            s,
            f.states[s].trs.len() as int,
            x,
            y,
            (k - 1) as nat,
        );
        assert(f.states[s].trs.take(f.states[s].trs.len() as int) =~= f.states[s].trs);
        assert(inverted_trs(f.states[s].trs) =~= inverted_trs(
            f.states[s].trs.take(f.states[s].trs.len() as int),
        ));
    }
}

/// The same of the first `n` transitions that leave a state.
proof fn lemma_invert_swaps_strings_through<W: Semiring>(
    f: FstView<W>,
    s: int,
    n: int,
    x: Seq<Label>,
    y: Seq<Label>,
    k: nat,
)
    requires
        f.graph_wf(),
        f.has_state(s),
        0 <= n <= f.states[s].trs.len(),
    ensures
        weight_through(inverted(f), inverted_trs(f.states[s].trs.take(n)), y, x, k)
            == weight_through(f, f.states[s].trs.take(n), x, y, k),
    decreases k, 1nat, n,
{
    let g = inverted(f);
    let trs = f.states[s].trs.take(n);
    if n > 0 {
        lemma_invert_swaps_strings_through(f, s, n - 1, x, y, k);
        assert(trs.drop_last() =~= f.states[s].trs.take(n - 1));
        assert(inverted_trs(trs).drop_last() =~= inverted_trs(f.states[s].trs.take(n - 1)));
        let tr = trs.last();
        assert(inverted_trs(trs).last() == tr.inverted());
        assert(f.has_tr(s, n - 1));
        assert(tr == f.tr(s, n - 1));
        match (crate::pair_weight::consume(tr.ilabel, x), crate::pair_weight::consume(tr.olabel, y)) {
            (Some(x2), Some(y2)) => {
                lemma_invert_swaps_strings_from(f, tr.nextstate as int, x2, y2, k);
            },
            _ => {},
        }
    }
}

/// The inverted transducer gives the pair `(y, x)` the weight that the
/// transducer gives the pair `(x, y)`.
pub proof fn lemma_invert_swaps_strings<W: Semiring>(
    f: FstView<W>,
    x: Seq<Label>,
    y: Seq<Label>,
    k: nat,
)
    requires
        f.graph_wf(),
    ensures
        pair_weight(inverted(f), y, x, k) == pair_weight(f, x, y, k),
{
    match f.start {
        Some(s) => {
            lemma_invert_swaps_strings_from(f, s as int, x, y, k);
        },
        None => {},
    }
}

// ----- transducers that hold the states of another -----

/// Where two transducers have the same first `n` states, and none of these
/// leads out of them, they give each pair of strings the same weight from
/// each of these states.
pub proof fn lemma_same_states_same_weight<W: Semiring>(
    a: FstView<W>,
    b: FstView<W>,
    n: int,
    s: int,
    x: Seq<Label>,
    y: Seq<Label>,
    k: nat,
)
    requires
        0 <= s < n,
        n <= a.states.len(),
        n <= b.states.len(),
        forall|t: int| 0 <= t < n ==> #[trigger] a.states[t] == b.states[t],
        forall|t: int, i: int|
            0 <= t < n && 0 <= i < a.states[t].trs.len() ==> (#[trigger] a.states[t].trs[i]).nextstate
                < n,
    ensures
        weight_from(a, s, x, y, k) == weight_from(b, s, x, y, k),
    decreases k,
{
    assert(a.states[s] == b.states[s]);
    if k > 0 {
        let trs = a.states[s].trs;
        let j = (k - 1) as nat;
        assert forall|i: int| 0 <= i < trs.len() implies step_weight(a, #[trigger] trs[i], x, y, j)
            == step_weight(b, trs[i], x, y, j) by {
            let tr = trs[i];
            assert(tr == a.states[s].trs[i]);
            match (
                crate::pair_weight::consume(tr.ilabel, x),
                crate::pair_weight::consume(tr.olabel, y),
            ) {
                (Some(x2), Some(y2)) => {
                    lemma_same_states_same_weight(a, b, n, tr.nextstate as int, x2, y2, j);
                },
                _ => {},
            }
        }
        lemma_weight_through_same(a, trs, b, trs, x, y, j, j);
    }
}

/// Where a transducer holds the states of another `shift` places further
/// on, it gives each pair of strings from the state `s + shift` the weight
/// that the other gives it from the state `s`.
pub proof fn lemma_shifted_states_same_weight<W: Semiring>(
    u: FstView<W>,
    g: FstView<W>,
    shift: nat,
    s: int,
    x: Seq<Label>,
    y: Seq<Label>,
    k: nat,
)
    requires
        g.graph_wf(),
        g.has_state(s),
        shift + g.states.len() <= u.states.len(),
        u.states.len() <= usize::MAX,
        forall|t: int|
            0 <= t < g.states.len() ==> #[trigger] u.states[t + shift] == shifted_state(
                g.states[t],
                shift,
            ),
    ensures
        weight_from(u, s + shift, x, y, k) == weight_from(g, s, x, y, k),
    decreases k,
{
    assert(u.states[s + shift] == shifted_state(g.states[s], shift));
    if k > 0 {
        let trs = g.states[s].trs;
        let moved = u.states[s + shift].trs;
        let j = (k - 1) as nat;
        assert forall|i: int| 0 <= i < moved.len() implies step_weight(
            u,
            #[trigger] moved[i],
            x,
            y,
            j,
        ) == step_weight(g, trs[i], x, y, j) by {
            let tr = trs[i];
            assert(g.has_tr(s, i));
            assert(tr == g.tr(s, i));
            assert(moved[i] == shifted_tr(tr, shift));
            match (
                crate::pair_weight::consume(tr.ilabel, x),
                crate::pair_weight::consume(tr.olabel, y),
            ) {
                (Some(x2), Some(y2)) => {
                    lemma_shifted_states_same_weight(u, g, shift, tr.nextstate as int, x2, y2, j);
                },
                _ => {},
            }
        }
        lemma_weight_through_same(u, moved, g, trs, x, y, j, j);
    }
}

// ----- union -----

/// What the ε-transition with weight `1̄` to the start state of a part
/// contributes, as far as the part has a start state.
proof fn lemma_entry_weight<W: Semiring>(
    u: FstView<W>,
    start: Option<usize>,
    x: Seq<Label>,
    y: Seq<Label>,
    k: nat,
)
    ensures
        weight_through(
            u,
            match start {
                Some(s) => seq![eps_tr(W::one_spec(), s)],
                None => Seq::<Tr<W>>::empty(),
            },
            x,
            y,
            k,
        ) == (match start {
            Some(s) => weight_from(u, s as int, x, y, k),
            None => W::zero_spec(),
        }),
{
    match start {
        Some(s) => {
            let e = eps_tr(W::one_spec(), s);
            let one = seq![e];
            assert(one.drop_last() =~= Seq::<Tr<W>>::empty());
            assert(one.last() == e);
            assert(weight_through(u, one.drop_last(), x, y, k) == W::zero_spec());
            W::lemma_times_one(weight_from(u, s as int, x, y, k));
            W::lemma_plus_zero(weight_from(u, s as int, x, y, k));
        },
        None => {},
    }
}

/// The union gives each pair of strings the `⊕`-sum of the weights that its
/// two parts give it; its paths have one transition more, the one that
/// leaves the new start state.
pub proof fn lemma_union_sums_weights<W: Semiring>(
    f: FstView<W>,
    g: FstView<W>,
    x: Seq<Label>,
    y: Seq<Label>,
    k: nat,
)
    requires
        f.graph_wf(),
        g.graph_wf(),
        f.states.len() + g.states.len() < usize::MAX,
    ensures
        pair_weight(united(f, g), x, y, k + 1) == pair_weight(f, x, y, k).plus_spec(
            pair_weight(g, x, y, k),
        ),
{
    let u = united(f, g);
    let n1 = f.states.len();
    let n2 = g.states.len();
    let entry = (n1 + n2) as int;
    let first = match f.start {
        Some(s) => seq![eps_tr(W::one_spec(), s)],
        None => Seq::<Tr<W>>::empty(),
    };
    let second = match moved_start(g.start, n1) {
        Some(s) => seq![eps_tr(W::one_spec(), s)],
        None => Seq::<Tr<W>>::empty(),
    };
    assert(u.states[entry].trs == first + second);
    assert(u.states[entry].final_weight is None);
    assert(ending_weight(u, entry, x, y) == W::zero_spec());
    lemma_weight_through_concat(u, first, second, x, y, k);
    lemma_entry_weight(u, f.start, x, y, k);
    lemma_entry_weight(u, moved_start(g.start, n1), x, y, k);
    match f.start {
        Some(s) => {
            assert forall|t: int, i: int|
                0 <= t < n1 && 0 <= i < u.states[t].trs.len() implies (#[trigger] u.states[t].trs[i]).nextstate
                < n1 by {
                assert(u.states[t] == f.states[t]);
                assert(f.has_tr(t, i));
            }
            lemma_same_states_same_weight(u, f, n1 as int, s as int, x, y, k);
        },
        None => {},
    }
    match g.start {
        Some(s) => {
            lemma_shifted_states_same_weight(u, g, n1, s as int, x, y, k);
        },
        None => {},
    }
    W::lemma_plus_zero(
        weight_through(u, first, x, y, k).plus_spec(weight_through(u, second, x, y, k)),
    );
}

// ----- closure -----

/// The closure that accepts the empty string gives the pair of empty
/// strings the weight `1̄` on the path without transitions.
pub proof fn lemma_closure_star_accepts_nothing<W: Semiring>(f: FstView<W>)
    requires
        f.states.len() < usize::MAX,
    ensures
        pair_weight(closure_star(f), Seq::<Label>::empty(), Seq::<Label>::empty(), 0)
            == W::one_spec(),
{
    if W::one_spec() == W::zero_spec() {
        lemma_trivial_semiring(W::one_spec());
    }
}

} // verus!
