//! Depth-first search: a topological order, or a cycle.

use vstd::prelude::*;
use crate::algorithms::shortest_distance::lemma_queue_len;
use crate::fst_traits::Fst;
use crate::fst_view::{FstView, Step};
use crate::semirings::semiring::Semiring;
use crate::tr::StateId;

verus! {

/// A state that the search has not reached.
pub const WHITE: u8 = 0;

/// A state that the search has entered and not left.
pub const GRAY: u8 = 1;

/// A state that the search has left.
pub const BLACK: u8 = 2;

/// An entry of the search stack: a state and the number of its transitions
/// that were followed.
pub type Frame = (StateId, usize);

/// Whether `order` gives each state a place of its own such that every
/// transition leads to a later place.
pub open spec fn is_topological_order<W: Semiring>(f: FstView<W>, order: Seq<StateId>) -> bool {
    &&& order.len() == f.states.len()
    &&& forall|s: int| 0 <= s < order.len() ==> #[trigger] order[s] < f.states.len()
    &&& forall|s: int, t: int|
        0 <= s < order.len() && 0 <= t < order.len() && s != t ==> #[trigger] order[s]
            != #[trigger] order[t]
    &&& forall|s: int, i: int| #[trigger]
        f.has_tr(s, i) ==> order[s] < order[f.tr(s, i).nextstate as int]
}

/// A transducer with a topological order has no cycle.
pub proof fn lemma_topological_order_is_rank<W: Semiring>(f: FstView<W>, order: Seq<StateId>)
    requires
        f.graph_wf(),
        is_topological_order(f, order),
    ensures
        f.is_acyclic(),
        f.is_topological_rank(Seq::new(order.len(), |s: int| order[s] as nat)),
{
    let rank = Seq::new(order.len(), |s: int| order[s] as nat);
    assert forall|s: int, i: int| #[trigger] f.has_tr(s, i) implies rank[s] < rank[f.tr(
        s,
        i,
    ).nextstate as int] by {
        assert(order[s] < order[f.tr(s, i).nextstate as int]);
        assert(order[f.tr(s, i).nextstate as int] < f.states.len());
    }
    assert(f.is_topological_rank(rank));
}

/// What holds of the search between two steps: the states it has left are
/// numbered in the order in which it left them, and from such a state every
/// transition leads to a state that it left earlier.
pub open spec fn search_ok<W: Semiring>(
    f: FstView<W>,
    color: Seq<u8>,
    fin_pos: Seq<usize>,
    finished: Seq<StateId>,
) -> bool {
    &&& color.len() == f.states.len()
    &&& fin_pos.len() == f.states.len()
    &&& finished.len() <= f.states.len()
    &&& forall|s: int| 0 <= s < color.len() ==> #[trigger] color[s] <= BLACK
    &&& forall|s: int|
        0 <= s < color.len() && #[trigger] color[s] == BLACK ==> fin_pos[s] < finished.len()
            && finished[fin_pos[s] as int] == s
    &&& forall|p: int|
        0 <= p < finished.len() ==> (#[trigger] finished[p]) < color.len()
            && color[finished[p] as int] == BLACK && fin_pos[finished[p] as int] == p
    &&& forall|s: int, i: int|
        color[s] == BLACK && #[trigger] f.has_tr(s, i) ==> color[f.tr(s, i).nextstate as int]
            == BLACK && fin_pos[f.tr(s, i).nextstate as int] < fin_pos[s]
}

/// What holds of the stack: its states are those that the search has entered
/// and not left, each entered from the one below it, and the transitions
/// that were followed from a state lead to states that the search has left,
/// but for the one that leads to the state above it.
pub open spec fn stack_ok<W: Semiring>(f: FstView<W>, color: Seq<u8>, stack: Seq<Frame>) -> bool {
    &&& forall|k: int|
        0 <= k < stack.len() ==> (#[trigger] stack[k]).0 < f.states.len()
            && color[stack[k].0 as int] == GRAY && stack[k].1
            <= f.states[stack[k].0 as int].trs.len()
    &&& forall|k: int|
        0 <= k < stack.len() - 1 ==> (#[trigger] stack[k]).1 >= 1 && f.tr(
            stack[k].0 as int,
            stack[k].1 - 1,
        ).nextstate == stack[k + 1].0
    &&& forall|k: int, l: int|
        0 <= k < l < stack.len() ==> (#[trigger] stack[k]).0 != (#[trigger] stack[l]).0
    &&& forall|s: int|
        0 <= s < color.len() && #[trigger] color[s] == GRAY ==> exists|k: int|
            0 <= k < stack.len() && (#[trigger] stack[k]).0 == s
    &&& forall|k: int, j: int|
        0 <= k < stack.len() && 0 <= j < (#[trigger] stack[k]).1 && !(k < stack.len() - 1 && j
            == stack[k].1 - 1) ==> color[(#[trigger] f.tr(stack[k].0 as int, j)).nextstate as int]
            == BLACK
}

/// The transitions that the stack entries from `k` on were left by, but for
/// the top entry.
pub open spec fn stack_steps(stack: Seq<Frame>, k: int) -> Seq<Step>
    decreases stack.len() - k,
{
    if k >= stack.len() - 1 {
        Seq::empty()
    } else {
        seq![(stack[k].0 as int, stack[k].1 - 1)] + stack_steps(stack, k + 1)
    }
}

/// The stack is a path from each of its states to the top one.
proof fn lemma_stack_is_path<W: Semiring>(f: FstView<W>, color: Seq<u8>, stack: Seq<Frame>, k: int)
    requires
        stack_ok(f, color, stack),
        0 <= k < stack.len(),
    ensures
        f.is_path(stack[k].0 as int, stack_steps(stack, k), stack.last().0 as int),
    decreases stack.len() - k,
{
    if k < stack.len() - 1 {
        lemma_stack_is_path(f, color, stack, k + 1);
        let p = stack_steps(stack, k);
        assert(p[0] == (stack[k].0 as int, stack[k].1 - 1));
        assert(p.drop_first() =~= stack_steps(stack, k + 1));
        assert(f.has_tr(stack[k].0 as int, stack[k].1 - 1));
    } else {
        assert(f.has_state(stack[k].0 as int));
    }
}

/// The transitions that are left to follow from the states of the stack.
pub open spec fn stack_work<W: Semiring>(f: FstView<W>, stack: Seq<Frame>) -> int
    decreases stack.len(),
{
    if stack.len() == 0 {
        0
    } else {
        stack_work(f, stack.drop_last()) + f.states[stack.last().0 as int].trs.len()
            - stack.last().1
    }
}

/// The transitions of the first `m` states that the search has not reached,
/// and one more for each such state.
pub open spec fn white_work<W: Semiring>(f: FstView<W>, color: Seq<u8>, m: int) -> int
    decreases m,
{
    if m <= 0 {
        0
    } else {
        white_work(f, color, m - 1) + if color[m - 1] == WHITE {
            f.states[m - 1].trs.len() + 1
        } else {
            0
        }
    }
}

proof fn lemma_white_work_nonnegative<W: Semiring>(f: FstView<W>, color: Seq<u8>, m: int)
    ensures
        white_work(f, color, m) >= 0,
    decreases m,
{
    if m > 0 {
        lemma_white_work_nonnegative(f, color, m - 1);
    }
}

proof fn lemma_stack_work_nonnegative<W: Semiring>(f: FstView<W>, color: Seq<u8>, stack: Seq<Frame>)
    requires
        forall|k: int|
            0 <= k < stack.len() ==> (#[trigger] stack[k]).0 < f.states.len() && stack[k].1
                <= f.states[stack[k].0 as int].trs.len(),
    ensures
        stack_work(f, stack) >= 0,
    decreases stack.len(),
{
    if stack.len() > 0 {
        assert forall|k: int| 0 <= k < stack.drop_last().len() implies (#[trigger] stack.drop_last()[k]).0
            < f.states.len() && stack.drop_last()[k].1
            <= f.states[stack.drop_last()[k].0 as int].trs.len() by {
            assert(stack.drop_last()[k] == stack[k]);
        }
        lemma_stack_work_nonnegative(f, color, stack.drop_last());
        assert(stack.last() == stack[stack.len() - 1]);
    }
}

/// What changes when a state is no longer white.
proof fn lemma_white_work_update<W: Semiring>(
    f: FstView<W>,
    color: Seq<u8>,
    v: int,
    c: u8,
    m: int,
)
    requires
        0 <= v < color.len(),
        c != WHITE,
        m <= color.len(),
    ensures
        white_work(f, color.update(v, c), m) == white_work(f, color, m) - if v < m && color[v]
            == WHITE {
            f.states[v].trs.len() + 1
        } else {
            0
        },
    decreases m,
{
    if m > 0 {
        lemma_white_work_update(f, color, v, c, m - 1);
    }
}

/// The work that is left when a frame is put on the stack.
proof fn lemma_stack_work_push<W: Semiring>(f: FstView<W>, stack: Seq<Frame>, frame: Frame)
    ensures
        stack_work(f, stack.push(frame)) == stack_work(f, stack) + f.states[frame.0 as int].trs.len()
            - frame.1,
{
    assert(stack.push(frame).drop_last() =~= stack);
}

/// Following a transition into a state that the search has not reached.
proof fn lemma_enter<W: Semiring>(
    f: FstView<W>,
    color: Seq<u8>,
    fin_pos: Seq<usize>,
    finished: Seq<StateId>,
    stack: Seq<Frame>,
    v: StateId,
)
    requires
        f.graph_wf(),
        search_ok(f, color, fin_pos, finished),
        stack_ok(f, color, stack),
        stack.len() > 0,
        stack.last().1 < f.states[stack.last().0 as int].trs.len(),
        stack.last().1 < usize::MAX,
        v == f.tr(stack.last().0 as int, stack.last().1 as int).nextstate,
        color[v as int] == WHITE,
    ensures
        stack_ok(
            f,
            color.update(v as int, GRAY),
            stack.drop_last().push((stack.last().0, (stack.last().1 + 1) as usize)).push(
                (v, 0usize),
            ),
        ),
        stack_work(
            f,
            stack.drop_last().push((stack.last().0, (stack.last().1 + 1) as usize)).push(
                (v, 0usize),
            ),
        ) + white_work(f, color.update(v as int, GRAY), f.states.len() as int) < stack_work(
            f,
            stack,
        ) + white_work(f, color, f.states.len() as int),
{
    let top = stack.len() - 1;
    let u = stack.last().0;
    let i = stack.last().1;
    let rest = stack.drop_last();
    let st = rest.push((u, (i + 1) as usize)).push((v, 0usize));
    let c2 = color.update(v as int, GRAY);
    assert(f.has_tr(u as int, i as int));
    assert(stack[top] == (u, i));
    lemma_white_work_update(f, color, v as int, GRAY, f.states.len() as int);
    lemma_stack_work_push(f, rest.push((u, (i + 1) as usize)), (v, 0usize));
    lemma_stack_work_push(f, rest, (u, (i + 1) as usize));
    assert forall|k: int| 0 <= k < st.len() implies (#[trigger] st[k]).0 < f.states.len()
        && c2[st[k].0 as int] == GRAY && st[k].1 <= f.states[st[k].0 as int].trs.len() by {
        if k < top {
            assert(st[k] == stack[k]);
        }
    }
    assert forall|k: int| 0 <= k < st.len() - 1 implies (#[trigger] st[k]).1 >= 1 && f.tr(
        st[k].0 as int,
        st[k].1 - 1,
    ).nextstate == st[k + 1].0 by {
        if k < top {
            assert(st[k] == stack[k]);
            assert(st[k + 1].0 == stack[k + 1].0);
        }
    }
    assert forall|k: int, l: int| 0 <= k < l < st.len() implies (#[trigger] st[k]).0
        != (#[trigger] st[l]).0 by {
        assert(st[k].0 == stack[k].0);
        if l <= top {
            assert(st[l].0 == stack[l].0);
            assert(stack[k].0 != stack[l].0);
        } else {
            assert(color[stack[k].0 as int] == GRAY);
        }
    }
    assert forall|s: int| 0 <= s < c2.len() && #[trigger] c2[s] == GRAY implies exists|k: int|
        0 <= k < st.len() && (#[trigger] st[k]).0 == s by {
        if s == v {
            assert(st[top + 1].0 == v);
        } else {
            assert(color[s] == GRAY);
            let k = choose|k: int| 0 <= k < stack.len() && (#[trigger] stack[k]).0 == s;
            assert(st[k].0 == s);
        }
    }
    assert forall|k: int, j: int|
        0 <= k < st.len() && 0 <= j < (#[trigger] st[k]).1 && !(k < st.len() - 1 && j == st[k].1
            - 1) implies c2[(#[trigger] f.tr(st[k].0 as int, j)).nextstate as int] == BLACK by {
        if k <= top {
            assert(st[k].0 == stack[k].0);
            assert(f.has_tr(stack[k].0 as int, j));
            let t = f.tr(stack[k].0 as int, j).nextstate as int;
            assert(color[t] == BLACK);
        }
    }
}

/// Entering a state changes nothing for the states that the search has left.
proof fn lemma_enter_keeps_search<W: Semiring>(
    f: FstView<W>,
    color: Seq<u8>,
    fin_pos: Seq<usize>,
    finished: Seq<StateId>,
    v: StateId,
)
    requires
        f.graph_wf(),
        search_ok(f, color, fin_pos, finished),
        v < color.len(),
        color[v as int] == WHITE,
    ensures
        search_ok(f, color.update(v as int, GRAY), fin_pos, finished),
{
    let c2 = color.update(v as int, GRAY);
    assert forall|s: int, j: int| c2[s] == BLACK && #[trigger] f.has_tr(s, j) implies c2[f.tr(
        s,
        j,
    ).nextstate as int] == BLACK && fin_pos[f.tr(s, j).nextstate as int] < fin_pos[s] by {
        assert(color[s] == BLACK);
    }
    assert forall|p: int| 0 <= p < finished.len() implies (#[trigger] finished[p]) < c2.len()
        && c2[finished[p] as int] == BLACK && fin_pos[finished[p] as int] == p by {
        assert(color[finished[p] as int] == BLACK);
    }
    assert forall|s: int| 0 <= s < c2.len() && #[trigger] c2[s] == BLACK implies fin_pos[s]
        < finished.len() && finished[fin_pos[s] as int] == s by {
        assert(color[s] == BLACK);
    }
}

/// Following a transition into a state that the search has left.
proof fn lemma_pass<W: Semiring>(f: FstView<W>, color: Seq<u8>, stack: Seq<Frame>)
    requires
        f.graph_wf(),
        color.len() == f.states.len(),
        stack_ok(f, color, stack),
        stack.len() > 0,
        stack.last().1 < f.states[stack.last().0 as int].trs.len(),
        stack.last().1 < usize::MAX,
        color[f.tr(stack.last().0 as int, stack.last().1 as int).nextstate as int] == BLACK,
    ensures
        stack_ok(
            f,
            color,
            stack.drop_last().push((stack.last().0, (stack.last().1 + 1) as usize)),
        ),
        stack_work(f, stack.drop_last().push((stack.last().0, (stack.last().1 + 1) as usize)))
            < stack_work(f, stack),
{
    let top = stack.len() - 1;
    let u = stack.last().0;
    let i = stack.last().1;
    let rest = stack.drop_last();
    let st = rest.push((u, (i + 1) as usize));
    assert(stack[top] == (u, i));
    lemma_stack_work_push(f, rest, (u, (i + 1) as usize));
    assert forall|k: int| 0 <= k < st.len() implies (#[trigger] st[k]).0 < f.states.len()
        && color[st[k].0 as int] == GRAY && st[k].1 <= f.states[st[k].0 as int].trs.len() by {
        if k < top {
            assert(st[k] == stack[k]);
        }
    }
    assert forall|k: int| 0 <= k < st.len() - 1 implies (#[trigger] st[k]).1 >= 1 && f.tr(
        st[k].0 as int,
        st[k].1 - 1,
    ).nextstate == st[k + 1].0 by {
        assert(st[k] == stack[k]);
        assert(st[k + 1].0 == stack[k + 1].0);
    }
    assert forall|k: int, l: int| 0 <= k < l < st.len() implies (#[trigger] st[k]).0
        != (#[trigger] st[l]).0 by {
        assert(st[k].0 == stack[k].0 && st[l].0 == stack[l].0);
        assert(stack[k].0 != stack[l].0);
    }
    assert forall|s: int| 0 <= s < color.len() && #[trigger] color[s] == GRAY implies exists|
        k: int,
    |
        0 <= k < st.len() && (#[trigger] st[k]).0 == s by {
        let k = choose|k: int| 0 <= k < stack.len() && (#[trigger] stack[k]).0 == s;
        assert(st[k].0 == s);
    }
    assert forall|k: int, j: int|
        0 <= k < st.len() && 0 <= j < (#[trigger] st[k]).1 && !(k < st.len() - 1 && j == st[k].1
            - 1) implies color[(#[trigger] f.tr(st[k].0 as int, j)).nextstate as int]
        == BLACK by {
        assert(st[k].0 == stack[k].0);
        if k < top || j < i {
            let t = f.tr(stack[k].0 as int, j).nextstate as int;
            assert(color[t] == BLACK);
        }
    }
}

/// Leaving the state on top of the stack, all of whose transitions were
/// followed.
proof fn lemma_leave<W: Semiring>(
    f: FstView<W>,
    color: Seq<u8>,
    fin_pos: Seq<usize>,
    finished: Seq<StateId>,
    stack: Seq<Frame>,
)
    requires
        f.graph_wf(),
        f.states.len() <= usize::MAX,
        search_ok(f, color, fin_pos, finished),
        stack_ok(f, color, stack),
        stack.len() > 0,
        stack.last().1 == f.states[stack.last().0 as int].trs.len(),
    ensures
        finished.len() < f.states.len(),
        search_ok(
            f,
            color.update(stack.last().0 as int, BLACK),
            fin_pos.update(stack.last().0 as int, finished.len() as usize),
            finished.push(stack.last().0),
        ),
        stack_ok(f, color.update(stack.last().0 as int, BLACK), stack.drop_last()),
        stack_work(f, stack.drop_last()) == stack_work(f, stack),
        white_work(f, color.update(stack.last().0 as int, BLACK), f.states.len() as int)
            == white_work(f, color, f.states.len() as int),
{
    let n = f.states.len() as int;
    let top = stack.len() - 1;
    let u = stack.last().0;
    let st = stack.drop_last();
    let c2 = color.update(u as int, BLACK);
    let fp2 = fin_pos.update(u as int, finished.len() as usize);
    let fin2 = finished.push(u);
    assert(stack[top].0 == u);
    lemma_white_work_update(f, color, u as int, BLACK, n);
    assert forall|k: int| 0 <= k < st.len() implies (#[trigger] st[k]).0 < f.states.len()
        && c2[st[k].0 as int] == GRAY && st[k].1 <= f.states[st[k].0 as int].trs.len() by {
        assert(st[k] == stack[k]);
        assert(stack[k].0 != stack[top].0);
    }
    assert forall|k: int| 0 <= k < st.len() - 1 implies (#[trigger] st[k]).1 >= 1 && f.tr(
        st[k].0 as int,
        st[k].1 - 1,
    ).nextstate == st[k + 1].0 by {
        assert(st[k] == stack[k]);
        assert(st[k + 1] == stack[k + 1]);
    }
    assert forall|k: int, l: int| 0 <= k < l < st.len() implies (#[trigger] st[k]).0
        != (#[trigger] st[l]).0 by {
        assert(stack[k].0 != stack[l].0);
    }
    assert forall|s: int| 0 <= s < c2.len() && #[trigger] c2[s] == GRAY implies exists|k: int|
        0 <= k < st.len() && (#[trigger] st[k]).0 == s by {
        assert(color[s] == GRAY);
        let k = choose|k: int| 0 <= k < stack.len() && (#[trigger] stack[k]).0 == s;
        assert(k != top);
        assert(st[k].0 == s);
    }
    assert forall|k: int, j: int|
        0 <= k < st.len() && 0 <= j < (#[trigger] st[k]).1 && !(k < st.len() - 1 && j == st[k].1
            - 1) implies c2[(#[trigger] f.tr(st[k].0 as int, j)).nextstate as int] == BLACK by {
        assert(st[k] == stack[k]);
        assert(f.has_tr(stack[k].0 as int, j));
        if k == st.len() - 1 && j == st[k].1 - 1 {
            assert(f.tr(stack[k].0 as int, stack[k].1 - 1).nextstate == stack[k + 1].0);
        } else {
            let t = f.tr(stack[k].0 as int, j).nextstate as int;
            assert(color[t] == BLACK);
        }
    }
    // the new place is free
    assert(finished.len() < n) by {
        assert forall|a: int, b: int|
            0 <= a < fin2.len() && 0 <= b < fin2.len() && a != b implies fin2[a] != fin2[b] by {
            if a < finished.len() {
                assert(color[finished[a] as int] == BLACK);
                assert(fin_pos[finished[a] as int] == a);
            }
            if b < finished.len() {
                assert(color[finished[b] as int] == BLACK);
                assert(fin_pos[finished[b] as int] == b);
            }
        }
        assert forall|a: int| 0 <= a < fin2.len() implies fin2[a] < n by {
            if a < finished.len() {
                assert(finished[a] < color.len());
            }
        }
        lemma_queue_len(n as nat, fin2);
    }
    assert forall|s: int| 0 <= s < c2.len() && #[trigger] c2[s] == BLACK implies fp2[s]
        < fin2.len() && fin2[fp2[s] as int] == s by {
        if s != u {
            assert(color[s] == BLACK);
            assert(finished[fin_pos[s] as int] == s);
        }
    }
    assert forall|p: int| 0 <= p < fin2.len() implies (#[trigger] fin2[p]) < c2.len()
        && c2[fin2[p] as int] == BLACK && fp2[fin2[p] as int] == p by {
        if p < finished.len() {
            assert(fin2[p] == finished[p]);
            assert(color[finished[p] as int] == BLACK);
        }
    }
    assert forall|s: int, j: int| c2[s] == BLACK && #[trigger] f.has_tr(s, j) implies c2[f.tr(
        s,
        j,
    ).nextstate as int] == BLACK && fp2[f.tr(s, j).nextstate as int] < fp2[s] by {
        let t = f.tr(s, j).nextstate as int;
        if s == u {
            assert(color[f.tr(stack[top].0 as int, j).nextstate as int] == BLACK);
            assert(t != u);
            assert(fin_pos[t] < finished.len());
        } else {
            assert(color[s] == BLACK);
            assert(color[t] == BLACK);
            assert(t != u);
        }
    }
}

/// A transition from the top of the stack into a state of the stack closes a
/// cycle.
proof fn lemma_cycle_found<W: Semiring>(f: FstView<W>, color: Seq<u8>, stack: Seq<Frame>)
    requires
        f.graph_wf(),
        color.len() == f.states.len(),
        stack_ok(f, color, stack),
        stack.len() > 0,
        stack.last().1 < f.states[stack.last().0 as int].trs.len(),
        color[f.tr(stack.last().0 as int, stack.last().1 as int).nextstate as int] == GRAY,
    ensures
        f.has_cycle(),
{
    let u = stack.last().0;
    let i = stack.last().1;
    let v = f.tr(u as int, i as int).nextstate;
    assert(f.has_tr(u as int, i as int));
    let k0 = choose|k0: int| 0 <= k0 < stack.len() && (#[trigger] stack[k0]).0 == v;
    lemma_stack_is_path(f, color, stack, k0);
    let p = stack_steps(stack, k0);
    f.lemma_path_push(v as int, p, u as int, i as int);
    assert(f.is_path(v as int, p.push((u as int, i as int)), v as int));
    assert(p.push((u as int, i as int)).len() > 0);
}

/// Entering the root.
proof fn lemma_enter_root<W: Semiring>(
    f: FstView<W>,
    color: Seq<u8>,
    fin_pos: Seq<usize>,
    finished: Seq<StateId>,
    root: StateId,
)
    requires
        f.graph_wf(),
        search_ok(f, color, fin_pos, finished),
        forall|s: int| 0 <= s < color.len() ==> color[s] != GRAY,
        root < f.states.len(),
        color[root as int] == WHITE,
    ensures
        search_ok(f, color.update(root as int, GRAY), fin_pos, finished),
        stack_ok(f, color.update(root as int, GRAY), seq![(root, 0usize)]),
{
    let c2 = color.update(root as int, GRAY);
    let st = seq![(root, 0usize)];
    assert(st[0] == (root, 0usize));
    assert forall|s: int| 0 <= s < c2.len() && #[trigger] c2[s] == GRAY implies exists|k: int|
        0 <= k < st.len() && (#[trigger] st[k]).0 == s by {
        if s != root {
            assert(color[s] == c2[s]);
        }
        assert(st[0].0 == root);
    }
    lemma_enter_keeps_search(f, color, fin_pos, finished, root);
}

/// Visits the states that can be reached from `root` and that the search has
/// not left before. Returns whether it met a cycle.
fn dfs_visit<W: Semiring, F: Fst<W>>(
    fst: &F,
    root: StateId,
    color: &mut Vec<u8>,
    fin_pos: &mut Vec<usize>,
    finished: &mut Vec<StateId>,
) -> (cyclic: bool)
    requires
        fst@.graph_wf(),
        search_ok(fst@, old(color)@, old(fin_pos)@, old(finished)@),
        forall|s: int| 0 <= s < old(color)@.len() ==> old(color)@[s] != GRAY,
        root < fst@.states.len(),
        old(color)@[root as int] == WHITE,
    ensures
        cyclic ==> fst@.has_cycle(),
        !cyclic ==> {
            &&& search_ok(fst@, final(color)@, final(fin_pos)@, final(finished)@)
            &&& forall|s: int| 0 <= s < final(color)@.len() ==> final(color)@[s] != GRAY
            &&& final(color)@[root as int] == BLACK
            &&& forall|s: int|
                0 <= s < old(color)@.len() && old(color)@[s] == BLACK ==> final(color)@[s] == BLACK
        },
{
    let ghost f = fst@;
    let ghost n = f.states.len() as int;
    let ghost old_color = color@;
    let mut stack: Vec<Frame> = Vec::new();
    let count = color.len();
    proof {
        lemma_enter_root(f, color@, fin_pos@, finished@, root);
    }
    color[root] = GRAY;
    stack.push((root, 0));
    proof {
        assert(stack@ =~= seq![(root, 0usize)]);
        assert(color@ =~= old_color.update(root as int, GRAY));
        lemma_white_work_nonnegative(f, color@, n);
    }
    while stack.len() > 0
        invariant
            f == fst@,
            f.graph_wf(),
            n == f.states.len(),
            n == count,
            root < n,
            search_ok(f, color@, fin_pos@, finished@),
            stack_ok(f, color@, stack@),
            color@[root as int] != WHITE,
            forall|s: int| 0 <= s < n && old_color[s] == BLACK ==> color@[s] == BLACK,
        decreases n - finished@.len(), stack_work(f, stack@) + white_work(f, color@, n),
    {
        let ghost stack_before = stack@;
        let ghost color_before = color@;
        let ghost fin_pos_before = fin_pos@;
        let ghost finished_before = finished@;
        let top = stack.len() - 1;
        let (u, i) = stack[top];
        let _ = stack.pop();
        assert(stack@ =~= stack_before.drop_last());
        assert(stack_before.last() == (u, i));
        assert(stack_before[top as int] == (u, i));
        let trs = fst.get_trs_unchecked(u);
        proof {
            lemma_stack_work_nonnegative(f, color@, stack_before);
            lemma_white_work_nonnegative(f, color@, n);
        }
        if i < trs.len() {
            let v = trs[i].nextstate;
            assert(f.has_tr(u as int, i as int) && f.tr(u as int, i as int).nextstate == v);
            stack.push((u, i + 1));
            let c = color[v];
            if c == WHITE {
                proof {
                    lemma_enter(f, color_before, fin_pos@, finished@, stack_before, v);
                    lemma_enter_keeps_search(f, color_before, fin_pos@, finished@, v);
                }
                color[v] = GRAY;
                stack.push((v, 0));
                proof {
                    assert(color@ =~= color_before.update(v as int, GRAY));
                    lemma_white_work_nonnegative(f, color@, n);
                    let st = stack_before.drop_last().push((u, (i + 1) as usize)).push(
                        (v, 0usize),
                    );
                    assert(stack@ =~= st);
                    assert forall|k: int| 0 <= k < st.len() implies (#[trigger] st[k]).0
                        < f.states.len() && st[k].1 <= f.states[st[k].0 as int].trs.len() by {}
                    lemma_stack_work_nonnegative(f, color@, st);
                }
            } else if c == GRAY {
                proof {
                    lemma_cycle_found(f, color_before, stack_before);
                }
                return true;
            } else {
                proof {
                    assert(color_before[v as int] <= BLACK);
                    lemma_pass(f, color_before, stack_before);
                    let st = stack_before.drop_last().push((u, (i + 1) as usize));
                    assert(stack@ =~= st);
                    assert forall|k: int| 0 <= k < st.len() implies (#[trigger] st[k]).0
                        < f.states.len() && st[k].1 <= f.states[st[k].0 as int].trs.len() by {}
                    lemma_stack_work_nonnegative(f, color@, st);
                }
            }
        } else {
            proof {
                lemma_leave(f, color_before, fin_pos_before, finished_before, stack_before);
            }
            color[u] = BLACK;
            fin_pos[u] = finished.len();
            finished.push(u);
            proof {
                assert(color@ =~= color_before.update(u as int, BLACK));
                assert(fin_pos@ =~= fin_pos_before.update(u as int, finished_before.len() as usize));
                assert(finished@ =~= finished_before.push(u));
                let st = stack_before.drop_last();
                assert forall|k: int| 0 <= k < st.len() implies (#[trigger] st[k]).0
                    < f.states.len() && st[k].1 <= f.states[st[k].0 as int].trs.len() by {}
                lemma_stack_work_nonnegative(f, color@, st);
                lemma_white_work_nonnegative(f, color@, n);
            }
        }
    }
    proof {
        assert forall|s: int| 0 <= s < color@.len() implies color@[s] != GRAY by {
            if color@[s] == GRAY {
                let k = choose|k: int| 0 <= k < stack@.len() && (#[trigger] stack@[k]).0 == s;
                assert(false);
            }
        }
        assert(color@[root as int] <= BLACK);
    }
    false
}

/// Gives each state a place in a topological order: `order[s]` is the place
/// of state `s`. Where the transducer has a cycle there is no such order:
/// `None`.
pub fn compute_top_order<W: Semiring, F: Fst<W>>(fst: &F) -> (r: Option<Vec<StateId>>)
    requires
        fst@.graph_wf(),
    ensures
        match r {
            Some(order) => is_topological_order(fst@, order@),
            None => fst@.has_cycle(),
        },
{
    let ghost f = fst@;
    let n = fst.num_states();
    let mut color: Vec<u8> = Vec::new();
    let mut fin_pos: Vec<usize> = Vec::new();
    let mut finished: Vec<StateId> = Vec::new();
    let mut s: usize = 0;
    while s < n
        invariant
            s <= n,
            color.len() == s,
            fin_pos.len() == s,
            forall|t: int| 0 <= t < s ==> color@[t] == WHITE,
        decreases n - s,
    {
        color.push(WHITE);
        fin_pos.push(0);
        s += 1;
    }
    if let Some(start) = fst.start() {
        if start < n {
            let cyclic = dfs_visit(fst, start, &mut color, &mut fin_pos, &mut finished);
            if cyclic {
                return None;
            }
        }
    }
    let mut root: usize = 0;
    while root < n
        invariant
            root <= n,
            f == fst@,
            f.graph_wf(),
            n == f.states.len(),
            search_ok(f, color@, fin_pos@, finished@),
            forall|t: int| 0 <= t < n ==> color@[t] != GRAY,
            forall|t: int| 0 <= t < root ==> color@[t] == BLACK,
        decreases n - root,
    {
        if color[root] == WHITE {
            let cyclic = dfs_visit(fst, root, &mut color, &mut fin_pos, &mut finished);
            if cyclic {
                return None;
            }
        }
        root += 1;
    }
    let mut order: Vec<StateId> = Vec::new();
    let mut t: usize = 0;
    while t < n
        invariant
            t <= n,
            n == f.states.len(),
            search_ok(f, color@, fin_pos@, finished@),
            forall|x: int| 0 <= x < n ==> color@[x] == BLACK,
            order.len() == t,
            forall|x: int| 0 <= x < t ==> order@[x] == n - 1 - fin_pos@[x],
        decreases n - t,
    {
        assert(color@[t as int] == BLACK);
        order.push(n - 1 - fin_pos[t]);
        t += 1;
    }
    proof {
        assert forall|a: int, b: int|
            0 <= a < order@.len() && 0 <= b < order@.len() && a != b implies #[trigger] order@[a]
            != #[trigger] order@[b] by {
            assert(color@[a] == BLACK && color@[b] == BLACK);
            assert(finished@[fin_pos@[a] as int] == a);
            assert(finished@[fin_pos@[b] as int] == b);
        }
        assert forall|a: int, i: int| #[trigger] f.has_tr(a, i) implies order@[a] < order@[f.tr(
            a,
            i,
        ).nextstate as int] by {
            assert(color@[a] == BLACK);
        }
    }
    Some(order)
}

} // verus!
