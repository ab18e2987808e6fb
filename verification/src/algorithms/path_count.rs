//! How often the search for the best paths has left each state, against how
//! many candidates wait for it: what shows that the search ends no path too
//! few.

use vstd::prelude::*;
use crate::algorithms::path_search::Candidate;
use crate::fst_view::{FstView, Step};
use crate::semirings::semiring::Semiring;
use crate::tr::StateId;

verus! {

/// Whether the candidate gets to state `v`.
pub open spec fn gets_to<W: Semiring>(x: Candidate<W>, v: int) -> bool {
    x.state matches Some(t) && t == v
}

/// The number of candidates in the heap that get to state `v`.
pub open spec fn count_at<W: Semiring>(heap: Seq<Candidate<W>>, v: int) -> nat
    decreases heap.len(),
{
    if heap.len() == 0 {
        0
    } else {
        count_at(heap.drop_last(), v) + if gets_to(heap.last(), v) {
            1nat
        } else {
            0nat
        }
    }
}

/// The number of candidates in the heap that end a path.
pub open spec fn count_end<W: Semiring>(heap: Seq<Candidate<W>>) -> nat
    decreases heap.len(),
{
    if heap.len() == 0 {
        0
    } else {
        count_end(heap.drop_last()) + if heap.last().state is None {
            1nat
        } else {
            0nat
        }
    }
}

/// What one more candidate counts for.
pub proof fn lemma_count_push<W: Semiring>(heap: Seq<Candidate<W>>, c: Candidate<W>, v: int)
    ensures
        count_at(heap.push(c), v) == count_at(heap, v) + if gets_to(c, v) {
            1nat
        } else {
            0nat
        },
        count_end(heap.push(c)) == count_end(heap) + if c.state is None {
            1nat
        } else {
            0nat
        },
{
    assert(heap.push(c).drop_last() =~= heap);
}

/// What the counts are when one candidate is replaced by another.
proof fn lemma_count_update<W: Semiring>(heap: Seq<Candidate<W>>, i: int, c: Candidate<W>, v: int)
    requires
        0 <= i < heap.len(),
    ensures
        count_at(heap.update(i, c), v) + (if gets_to(heap[i], v) {
            1nat
        } else {
            0nat
        }) == count_at(heap, v) + if gets_to(c, v) {
            1nat
        } else {
            0nat
        },
        count_end(heap.update(i, c)) + (if heap[i].state is None {
            1nat
        } else {
            0nat
        }) == count_end(heap) + if c.state is None {
            1nat
        } else {
            0nat
        },
    decreases heap.len(),
{
    let u = heap.update(i, c);
    if i == heap.len() - 1 {
        assert(u.drop_last() =~= heap.drop_last());
    } else {
        lemma_count_update(heap.drop_last(), i, c, v);
        assert(u.drop_last() =~= heap.drop_last().update(i, c));
    }
}

/// What the counts are when a candidate is taken out of the heap and the
/// last one put in its place.
pub proof fn lemma_count_remove<W: Semiring>(heap: Seq<Candidate<W>>, i: int, v: int)
    requires
        0 <= i < heap.len(),
    ensures
        count_at(heap.update(i, heap.last()).drop_last(), v) + (if gets_to(heap[i], v) {
            1nat
        } else {
            0nat
        }) == count_at(heap, v),
        count_end(heap.update(i, heap.last()).drop_last()) + (if heap[i].state is None {
            1nat
        } else {
            0nat
        }) == count_end(heap),
{
    if i == heap.len() - 1 {
        assert(heap.update(i, heap.last()).drop_last() =~= heap.drop_last());
    } else {
        lemma_count_update(heap.drop_last(), i, heap.last(), v);
        assert(heap.update(i, heap.last()).drop_last() =~= heap.drop_last().update(
            i,
            heap.last(),
        ));
    }
}

/// An empty heap counts nothing.
pub proof fn lemma_count_empty<W: Semiring>(heap: Seq<Candidate<W>>, v: int)
    requires
        heap.len() == 0,
    ensures
        count_at(heap, v) == 0,
        count_end(heap) == 0,
{
}

/// The lesser of two numbers.
pub open spec fn lesser(a: int, b: int) -> int {
    if a <= b {
        a
    } else {
        b
    }
}

/// Whether the heap `after` counts what the heap `before` counts but for
/// the candidate `c`, which it counts once less.
pub open spec fn counts_without<W: Semiring>(
    after: Seq<Candidate<W>>,
    before: Seq<Candidate<W>>,
    c: Candidate<W>,
) -> bool {
    &&& forall|v: int|
        #[trigger] count_at(after, v) + (if gets_to(c, v) {
            1nat
        } else {
            0nat
        }) == count_at(before, v)
    &&& count_end(after) + (if c.state is None {
        1nat
    } else {
        0nat
    }) == count_end(before)
}

/// Whether the heap `after` counts for each state what `before` counts and
/// maybe more.
pub open spec fn counts_all<W: Semiring>(after: Seq<Candidate<W>>, before: Seq<Candidate<W>>) -> bool {
    &&& forall|v: int| #[trigger] count_at(after, v) >= count_at(before, v)
    &&& count_end(after) >= count_end(before)
}

/// Whether the search keeps count: for each transition, the state it leads
/// to was left, or is waited for, as often as the state it leaves was left,
/// or as often as a state may be left; and as many paths were ended, or wait
/// to be ended, as a final state was left. The transitions of state `s` from
/// the index `upto` on are behind by one: their candidates are yet to be
/// made.
pub open spec fn keeps_count<W: Semiring>(
    f: FstView<W>,
    heap: Seq<Candidate<W>>,
    visits: Seq<usize>,
    emitted: int,
    n: int,
    s: int,
    upto: int,
) -> bool {
    &&& visits.len() == f.states.len()
    &&& forall|u: int, i: int|
        #[trigger] f.has_tr(u, i) ==> visits[f.tr(u, i).nextstate as int] + count_at(
            heap,
            f.tr(u, i).nextstate as int,
        ) >= lesser(
            n,
            if u == s && i >= upto {
                visits[u] - 1
            } else {
                visits[u] as int
            },
        )
    &&& forall|z: int| #[trigger] f.is_final(z) ==> emitted + count_end(heap) >= visits[z]
}

/// The count is kept when a path is ended.
pub proof fn lemma_count_final_pop<W: Semiring>(
    f: FstView<W>,
    before: Seq<Candidate<W>>,
    after: Seq<Candidate<W>>,
    visits: Seq<usize>,
    emitted: int,
    n: int,
    c: Candidate<W>,
)
    requires
        keeps_count(f, before, visits, emitted, n, -1, 0),
        c.state is None,
        counts_without(after, before, c),
    ensures
        keeps_count(f, after, visits, emitted + 1, n, -1, 0),
{
    assert forall|u: int, i: int| #[trigger] f.has_tr(u, i) implies visits[f.tr(
        u,
        i,
    ).nextstate as int] + count_at(after, f.tr(u, i).nextstate as int) >= lesser(
        n,
        visits[u] as int,
    ) by {
        let v = f.tr(u, i).nextstate as int;
        assert(count_at(after, v) + 0 == count_at(before, v));
    }
}

/// The count is kept when a candidate is dropped that gets to a state that
/// was left as often as a state may be left.
pub proof fn lemma_count_drop<W: Semiring>(
    f: FstView<W>,
    before: Seq<Candidate<W>>,
    after: Seq<Candidate<W>>,
    visits: Seq<usize>,
    emitted: int,
    n: int,
    c: Candidate<W>,
    s: StateId,
)
    requires
        keeps_count(f, before, visits, emitted, n, -1, 0),
        c.state == Some(s),
        s < visits.len(),
        visits[s as int] >= n,
        counts_without(after, before, c),
    ensures
        keeps_count(f, after, visits, emitted, n, -1, 0),
{
    assert forall|u: int, i: int| #[trigger] f.has_tr(u, i) implies visits[f.tr(
        u,
        i,
    ).nextstate as int] + count_at(after, f.tr(u, i).nextstate as int) >= lesser(
        n,
        visits[u] as int,
    ) by {
        let v = f.tr(u, i).nextstate as int;
        if v != s {
            assert(count_at(after, v) + 0 == count_at(before, v));
        }
    }
}

/// The count is kept when a state is left, but for its own transitions,
/// which are behind by one.
pub proof fn lemma_count_expand<W: Semiring>(
    f: FstView<W>,
    before: Seq<Candidate<W>>,
    popped: Seq<Candidate<W>>,
    after: Seq<Candidate<W>>,
    visits: Seq<usize>,
    now: Seq<usize>,
    emitted: int,
    n: int,
    c: Candidate<W>,
    s: StateId,
)
    requires
        keeps_count(f, before, visits, emitted, n, -1, 0),
        f.graph_wf(),
        c.state == Some(s),
        s < visits.len(),
        now.len() == visits.len(),
        now[s as int] == visits[s as int] + 1,
        forall|u: int| 0 <= u < visits.len() && u != s ==> #[trigger] now[u] == visits[u],
        counts_without(popped, before, c),
        counts_all(after, popped),
        f.is_final(s as int) ==> count_end(after) >= count_end(popped) + 1,
    ensures
        keeps_count(f, after, now, emitted, n, s as int, 0),
{
    assert forall|u: int, i: int| #[trigger] f.has_tr(u, i) implies now[f.tr(
        u,
        i,
    ).nextstate as int] + count_at(after, f.tr(u, i).nextstate as int) >= lesser(
        n,
        if u == s && i >= 0 {
            now[u] - 1
        } else {
            now[u] as int
        },
    ) by {
        let v = f.tr(u, i).nextstate as int;
        assert(0 <= v < f.states.len());
        assert(count_at(after, v) >= count_at(popped, v));
        if v == s {
            assert(count_at(popped, v) + 1 == count_at(before, v));
        } else {
            assert(count_at(popped, v) + 0 == count_at(before, v));
        }
    }
    assert forall|z: int| #[trigger] f.is_final(z) implies emitted + count_end(after) >= now[z] by {
        assert(count_end(popped) + 0 == count_end(before));
    }
}

/// One more transition of the state that is being left catches up.
pub proof fn lemma_count_push_child<W: Semiring>(
    f: FstView<W>,
    before: Seq<Candidate<W>>,
    visits: Seq<usize>,
    emitted: int,
    n: int,
    s: int,
    i: int,
    c: Candidate<W>,
)
    requires
        keeps_count(f, before, visits, emitted, n, s, i),
        f.graph_wf(),
        f.has_tr(s, i),
        c.state == Some(f.tr(s, i).nextstate),
    ensures
        keeps_count(f, before.push(c), visits, emitted, n, s, i + 1),
{
    let after = before.push(c);
    assert forall|u: int, j: int| #[trigger] f.has_tr(u, j) implies visits[f.tr(
        u,
        j,
    ).nextstate as int] + count_at(after, f.tr(u, j).nextstate as int) >= lesser(
        n,
        if u == s && j >= i + 1 {
            visits[u] - 1
        } else {
            visits[u] as int
        },
    ) by {
        let v = f.tr(u, j).nextstate as int;
        lemma_count_push(before, c, v);
        if u == s && j == i {
            assert(gets_to(c, v));
        }
    }
    lemma_count_push(before, c, 0);
}

/// When the search has ended with an empty heap and fewer paths than were
/// asked for, no state from which a final state can be reached was left as
/// often as a state may be left.
pub proof fn lemma_left_less_often<W: Semiring>(
    f: FstView<W>,
    heap: Seq<Candidate<W>>,
    visits: Seq<usize>,
    emitted: int,
    n: int,
    from: int,
    p: Seq<Step>,
    to: int,
)
    requires
        keeps_count(f, heap, visits, emitted, n, -1, 0),
        heap.len() == 0,
        emitted < n,
        f.graph_wf(),
        f.is_path(from, p, to),
        f.is_final(to),
    ensures
        0 <= from < visits.len(),
        visits[from] < n,
    decreases p.len(),
{
    lemma_count_empty(heap, 0);
    if p.len() == 0 {
        assert(f.is_final(from));
    } else {
        let next = f.tr(p[0].0, p[0].1).nextstate as int;
        assert(f.has_tr(from, p[0].1));
        lemma_left_less_often(f, heap, visits, emitted, n, next, p.drop_first(), to);
        lemma_count_empty(heap, next);
    }
}

/// Whether no two candidates in the heap end a path in the same node.
pub open spec fn ends_once<W: Semiring>(heap: Seq<Candidate<W>>) -> bool {
    forall|i: int, j: int|
        0 <= i < j < heap.len() && (#[trigger] heap[i]).state is None && (#[trigger] heap[j]).state is None
            ==> heap[i].parent != heap[j].parent
}

/// Whether the heap `after` is the heap `before` with the candidate at one
/// index taken out and the last one put in its place, the candidate taken
/// out being `c`.
pub open spec fn is_removal<W: Semiring>(
    after: Seq<Candidate<W>>,
    before: Seq<Candidate<W>>,
    c: Candidate<W>,
) -> bool {
    exists|i: int|
        0 <= i < before.len() && #[trigger] before[i] == c && after == before.update(
            i,
            before.last(),
        ).drop_last()
}

/// What a removal does to the counts and to the candidates that end a
/// path: the counts go down by one for the candidate taken out, no two
/// candidates that are left end a path in the same node, and none ends one
/// where the candidate taken out did.
pub proof fn lemma_removal<W: Semiring>(
    after: Seq<Candidate<W>>,
    before: Seq<Candidate<W>>,
    c: Candidate<W>,
)
    requires
        is_removal(after, before, c),
        ends_once(before),
    ensures
        counts_without(after, before, c),
        ends_once(after),
        c.state is None ==> forall|x: Candidate<W>|
            #[trigger] after.contains(x) && x.state is None ==> x.parent != c.parent,
{
    let i = choose|i: int|
        0 <= i < before.len() && #[trigger] before[i] == c && after == before.update(
            i,
            before.last(),
        ).drop_last();
    assert forall|v: int|
        #[trigger] count_at(after, v) + (if gets_to(c, v) {
            1nat
        } else {
            0nat
        }) == count_at(before, v) by {
        lemma_count_remove(before, i, v);
    }
    lemma_count_remove(before, i, 0);
    let last = before.len() - 1;
    assert forall|a: int, b: int|
        0 <= a < b < after.len() && (#[trigger] after[a]).state is None && (#[trigger] after[b]).state is None implies after[a].parent
        != after[b].parent by {
        let a0 = if a == i {
            last
        } else {
            a
        };
        let b0 = if b == i {
            last
        } else {
            b
        };
        assert(after[a] == before[a0]);
        assert(after[b] == before[b0]);
        if a0 < b0 {
            assert(before[a0].parent != before[b0].parent);
        } else {
            assert(before[b0].parent != before[a0].parent);
        }
    }
    if c.state is None {
        assert forall|x: Candidate<W>| #[trigger] after.contains(x) && x.state is None implies x.parent
            != c.parent by {
            let a = choose|a: int| 0 <= a < after.len() && after[a] == x;
            let a0 = if a == i {
                last
            } else {
                a
            };
            assert(after[a] == before[a0]);
            if a0 < i {
                assert(before[a0].parent != before[i].parent);
            } else {
                assert(before[i].parent != before[a0].parent);
            }
        }
    }
}

/// No two candidates end a path in the same node when one more candidate
/// waits, which ends no path, or which ends one in a node for which none
/// waited.
pub proof fn lemma_ends_once_push<W: Semiring>(heap: Seq<Candidate<W>>, c: Candidate<W>)
    requires
        ends_once(heap),
        c.state is None ==> forall|x: Candidate<W>|
            #[trigger] heap.contains(x) && x.state is None ==> x.parent != c.parent,
    ensures
        ends_once(heap.push(c)),
{
    let after = heap.push(c);
    assert forall|a: int, b: int|
        0 <= a < b < after.len() && (#[trigger] after[a]).state is None && (#[trigger] after[b]).state is None implies after[a].parent
        != after[b].parent by {
        if b == heap.len() {
            assert(heap.contains(heap[a]));
        }
    }
}

} // verus!
