//! That the search for the best paths makes one child at most for each
//! transition of the state of a node, so that the tree it builds from a
//! deterministic transducer is deterministic: no string is spelled by two
//! of its paths.

use vstd::prelude::*;
use crate::algorithms::path_search::{holds_all, Candidate};
use crate::fst_view::{FstView, Step};
use crate::fst_view_delete::{
    kept_trs, lemma_kept_states_len, lemma_kept_states_origin, lemma_kept_trs_origin,
};
use crate::semirings::semiring::Semiring;
use crate::tr::StateId;

verus! {

/// Whether the candidate, where it gets to a state from a node, names a
/// transition of the state of that node that has its input label.
pub open spec fn is_indexed<W: Semiring>(f: FstView<W>, h: Seq<StateId>, c: Candidate<W>) -> bool {
    c.state is Some && c.parent is Some ==> c.parent->0 < h.len() && f.has_tr(
        h[c.parent->0 as int] as int,
        c.index as int,
    ) && f.tr(h[c.parent->0 as int] as int, c.index as int).ilabel == c.ilabel
}

/// Whether the search keeps the transitions of each state apart: no
/// candidate waits twice, no two candidates of a node name the same
/// transition, each node but the first was made for the transition `via` of
/// the state of its parent, no two children of a node for the same one, and
/// none for one that a candidate names that still waits. While the node
/// `node` makes its candidates, it has no child, and its candidates name
/// transitions below `upto`.
pub open spec fn keeps_apart<W: Semiring>(
    f: FstView<W>,
    t: FstView<W>,
    h: Seq<StateId>,
    heap: Seq<Candidate<W>>,
    via: Seq<int>,
    node: int,
    upto: int,
) -> bool {
    &&& via.len() == h.len()
    &&& t.states.len() == h.len()
    &&& heap.no_duplicates()
    &&& forall|c: Candidate<W>| #[trigger] heap.contains(c) ==> is_indexed(f, h, c)
    &&& forall|a: Candidate<W>, b: Candidate<W>|
        #![trigger heap.contains(a), heap.contains(b)]
        heap.contains(a) && heap.contains(b) && a.state is Some && b.state is Some && a.parent
            is Some && a.parent == b.parent && a.index == b.index ==> a == b
    &&& forall|c: Candidate<W>|
        #[trigger] heap.contains(c) && c.state is Some && c.parent is Some && c.parent->0 == node
            ==> c.index < upto
    &&& forall|x: int, m: int|
        #[trigger] t.has_tr(x, m) ==> t.tr(x, m).nextstate < h.len() && f.has_tr(
            h[x] as int,
            via[t.tr(x, m).nextstate as int],
        ) && f.tr(h[x] as int, via[t.tr(x, m).nextstate as int]).ilabel == t.tr(x, m).ilabel
    &&& forall|x: int, m1: int, m2: int|
        #![trigger t.tr(x, m1), t.tr(x, m2)]
        t.has_tr(x, m1) && t.has_tr(x, m2) && m1 != m2 ==> via[t.tr(x, m1).nextstate as int]
            != via[t.tr(x, m2).nextstate as int]
    &&& forall|c: Candidate<W>, m: int|
        #![trigger heap.contains(c), t.tr(c.parent->0 as int, m)]
        heap.contains(c) && c.state is Some && c.parent is Some && t.has_tr(c.parent->0 as int, m)
            ==> via[t.tr(c.parent->0 as int, m).nextstate as int] != c.index
    &&& node >= 0 ==> node < h.len() && t.states[node].trs.len() == 0
}

/// The transitions are kept apart at the start of the search.
pub proof fn lemma_apart_start<W: Semiring>(f: FstView<W>, t: FstView<W>, heap: Seq<Candidate<W>>)
    requires
        t.states.len() == 0,
        heap.len() <= 1,
        forall|c: Candidate<W>| #[trigger] heap.contains(c) ==> c.parent is None,
    ensures
        keeps_apart(f, t, Seq::empty(), heap, Seq::empty(), -1, 0),
{
}

/// The transitions are kept apart when candidates are taken out of the
/// heap and the tree keeps its transitions.
pub proof fn lemma_apart_shrink<W: Semiring>(
    f: FstView<W>,
    t0: FstView<W>,
    t1: FstView<W>,
    h: Seq<StateId>,
    before: Seq<Candidate<W>>,
    after: Seq<Candidate<W>>,
    via: Seq<int>,
)
    requires
        keeps_apart(f, t0, h, before, via, -1, 0),
        after.no_duplicates(),
        holds_all(before, after),
        t1.states.len() == t0.states.len(),
        forall|x: int| 0 <= x < t0.states.len() ==> (#[trigger] t1.states[x]).trs == t0.states[x].trs,
    ensures
        keeps_apart(f, t1, h, after, via, -1, 0),
{
    assert forall|x: int, m: int| #[trigger] t1.has_tr(x, m) implies t0.has_tr(x, m) && t1.tr(x, m)
        == t0.tr(x, m) by {
        assert(t1.states[x].trs == t0.states[x].trs);
    }
    assert forall|c: Candidate<W>| #[trigger] after.contains(c) implies before.contains(c) by {}
    assert forall|x: int, m1: int, m2: int|
        #![trigger t1.tr(x, m1), t1.tr(x, m2)]
        t1.has_tr(x, m1) && t1.has_tr(x, m2) && m1 != m2 implies via[t1.tr(x, m1).nextstate as int]
        != via[t1.tr(x, m2).nextstate as int] by {
        assert(t0.has_tr(x, m1) && t0.has_tr(x, m2));
        assert(t1.tr(x, m1) == t0.tr(x, m1) && t1.tr(x, m2) == t0.tr(x, m2));
    }
    assert forall|c: Candidate<W>, m: int|
        #![trigger after.contains(c), t1.tr(c.parent->0 as int, m)]
        after.contains(c) && c.state is Some && c.parent is Some && t1.has_tr(
            c.parent->0 as int,
            m,
        ) implies via[t1.tr(c.parent->0 as int, m).nextstate as int] != c.index by {
        assert(before.contains(c));
        assert(t0.has_tr(c.parent->0 as int, m));
        assert(t1.tr(c.parent->0 as int, m) == t0.tr(c.parent->0 as int, m));
    }
}

/// The transitions are kept apart when the tree gets a node for the
/// candidate that was taken out of the heap; the node has no child and no
/// candidate yet.
pub proof fn lemma_apart_expand<W: Semiring>(
    f: FstView<W>,
    t0: FstView<W>,
    t1: FstView<W>,
    h: Seq<StateId>,
    before: Seq<Candidate<W>>,
    after: Seq<Candidate<W>>,
    via: Seq<int>,
    c: Candidate<W>,
    s: StateId,
)
    requires
        keeps_apart(f, t0, h, before, via, -1, 0),
        t0.graph_wf(),
        before.contains(c),
        c.state == Some(s),
        after.no_duplicates(),
        !after.contains(c),
        holds_all(before, after),
        h.len() < usize::MAX,
        t1.states.len() == t0.states.len() + 1,
        forall|x: int, i: int|
            #[trigger] t0.has_tr(x, i) ==> t1.has_tr(x, i) && t1.tr(x, i) == t0.tr(x, i),
        forall|x: int, i: int|
            #[trigger] t1.has_tr(x, i) ==> t0.has_tr(x, i) || (c.parent == Some(x as usize) && i
                == t0.states[x].trs.len() && t1.tr(x, i).nextstate == t0.states.len() && t1.tr(
                x,
                i,
            ).ilabel == c.ilabel),
    ensures
        keeps_apart(f, t1, h.push(s), after, via.push(c.index as int), h.len() as int, 0),
{
    let h1 = h.push(s);
    let via1 = via.push(c.index as int);
    let node = h.len() as int;
    assert(is_indexed(f, h, c));
    assert forall|x: Candidate<W>| #[trigger] after.contains(x) implies before.contains(x)
        && is_indexed(f, h1, x) by {
        assert(before.contains(x));
        assert(is_indexed(f, h, x));
    }
    assert forall|x: int, m: int| #[trigger] t1.has_tr(x, m) implies t1.tr(x, m).nextstate
        < h1.len() && f.has_tr(h1[x] as int, via1[t1.tr(x, m).nextstate as int]) && f.tr(
        h1[x] as int,
        via1[t1.tr(x, m).nextstate as int],
    ).ilabel == t1.tr(x, m).ilabel by {
        if t0.has_tr(x, m) {
            assert(t1.tr(x, m) == t0.tr(x, m));
            assert(t0.tr(x, m).nextstate < t0.states.len());
        }
    }
    assert forall|x: int, m1: int, m2: int|
        #![trigger t1.tr(x, m1), t1.tr(x, m2)]
        t1.has_tr(x, m1) && t1.has_tr(x, m2) && m1 != m2 implies via1[t1.tr(
            x,
            m1,
        ).nextstate as int] != via1[t1.tr(x, m2).nextstate as int] by {
        if t0.has_tr(x, m1) {
            assert(t1.tr(x, m1) == t0.tr(x, m1));
            assert(t0.tr(x, m1).nextstate < t0.states.len());
        }
        if t0.has_tr(x, m2) {
            assert(t1.tr(x, m2) == t0.tr(x, m2));
            assert(t0.tr(x, m2).nextstate < t0.states.len());
        }
        if t0.has_tr(x, m1) && !t0.has_tr(x, m2) {
            assert(before.contains(c) && t0.has_tr(c.parent->0 as int, m1));
        }
        if t0.has_tr(x, m2) && !t0.has_tr(x, m1) {
            assert(before.contains(c) && t0.has_tr(c.parent->0 as int, m2));
        }
    }
    assert forall|y: Candidate<W>, m: int|
        #![trigger after.contains(y), t1.tr(y.parent->0 as int, m)]
        after.contains(y) && y.state is Some && y.parent is Some && t1.has_tr(
            y.parent->0 as int,
            m,
        ) implies via1[t1.tr(y.parent->0 as int, m).nextstate as int] != y.index by {
        let x = y.parent->0 as int;
        assert(before.contains(y));
        if t0.has_tr(x, m) {
            assert(t1.tr(x, m) == t0.tr(x, m));
            assert(t0.tr(x, m).nextstate < t0.states.len());
        } else {
            if y.index == c.index {
                assert(before.contains(y) && before.contains(c));
                assert(y == c);
            }
        }
    }
    assert(t1.states[node].trs.len() == 0) by {
        if t1.states[node].trs.len() > 0 {
            assert(t1.has_tr(node, 0));
        }
    }
}

/// The transitions are kept apart when the candidate that ends the path in
/// a node is put into the heap, where no candidate ends it there yet.
pub proof fn lemma_apart_push_end<W: Semiring>(
    f: FstView<W>,
    t: FstView<W>,
    h: Seq<StateId>,
    heap: Seq<Candidate<W>>,
    via: Seq<int>,
    node: int,
    upto: int,
    end: Candidate<W>,
)
    requires
        keeps_apart(f, t, h, heap, via, node, upto),
        end.state is None,
        forall|x: Candidate<W>| #[trigger] heap.contains(x) && x.state is None ==> x.parent
            != end.parent,
    ensures
        keeps_apart(f, t, h, heap.push(end), via, node, upto),
{
    let after = heap.push(end);
    assert forall|x: Candidate<W>| #[trigger] after.contains(x) implies x == end || heap.contains(
        x,
    ) by {
        let j = choose|j: int| 0 <= j < after.len() && after[j] == x;
        if j < heap.len() {
            assert(heap[j] == x);
        }
    }
    assert forall|a: int, b: int|
        0 <= a < after.len() && 0 <= b < after.len() && a != b implies after[a] != after[b] by {
        if a < heap.len() {
            assert(heap.contains(heap[a]));
        }
        if b < heap.len() {
            assert(heap.contains(heap[b]));
        }
    }
}

/// The transitions are kept apart when the new node makes the candidate
/// for one more transition of its state.
pub proof fn lemma_apart_push_child<W: Semiring>(
    f: FstView<W>,
    t: FstView<W>,
    h: Seq<StateId>,
    heap: Seq<Candidate<W>>,
    via: Seq<int>,
    node: int,
    i: int,
    cand: Candidate<W>,
)
    requires
        keeps_apart(f, t, h, heap, via, node, i),
        0 <= node < h.len(),
        node <= usize::MAX,
        cand.state is Some,
        cand.parent == Some(node as usize),
        cand.index == i,
        f.has_tr(h[node] as int, i),
        f.tr(h[node] as int, i).ilabel == cand.ilabel,
    ensures
        keeps_apart(f, t, h, heap.push(cand), via, node, i + 1),
{
    let after = heap.push(cand);
    assert forall|x: Candidate<W>| #[trigger] after.contains(x) implies x == cand || heap.contains(
        x,
    ) by {
        let j = choose|j: int| 0 <= j < after.len() && after[j] == x;
        if j < heap.len() {
            assert(heap[j] == x);
        }
    }
    assert forall|a: int, b: int|
        0 <= a < after.len() && 0 <= b < after.len() && a != b implies after[a] != after[b] by {
        if a < heap.len() {
            assert(heap.contains(heap[a]));
        }
        if b < heap.len() {
            assert(heap.contains(heap[b]));
        }
    }
    assert forall|y: Candidate<W>, m: int|
        #![trigger after.contains(y), t.tr(y.parent->0 as int, m)]
        after.contains(y) && y.state is Some && y.parent is Some && t.has_tr(
            y.parent->0 as int,
            m,
        ) implies via[t.tr(y.parent->0 as int, m).nextstate as int] != y.index by {
        if y != cand {
            assert(heap.contains(y));
        }
    }
}

/// When the new node has made its candidates, the transitions are kept
/// apart with no node set aside.
pub proof fn lemma_apart_expanded<W: Semiring>(
    f: FstView<W>,
    t: FstView<W>,
    h: Seq<StateId>,
    heap: Seq<Candidate<W>>,
    via: Seq<int>,
    node: int,
    upto: int,
)
    requires
        keeps_apart(f, t, h, heap, via, node, upto),
    ensures
        keeps_apart(f, t, h, heap, via, -1, 0),
{
}

/// The tree that the search builds from a deterministic transducer is
/// deterministic.
pub proof fn lemma_apart_is_deterministic<W: Semiring>(
    f: FstView<W>,
    t: FstView<W>,
    h: Seq<StateId>,
    heap: Seq<Candidate<W>>,
    via: Seq<int>,
)
    requires
        keeps_apart(f, t, h, heap, via, -1, 0),
        f.i_deterministic(),
    ensures
        t.i_deterministic(),
{
    assert forall|s: int, i: int, j: int|
        #![trigger t.tr(s, i), t.tr(s, j)]
        t.has_tr(s, i) && t.has_tr(s, j) && i != j implies t.tr(s, i).ilabel != t.tr(
        s,
        j,
    ).ilabel by {
        let a = via[t.tr(s, i).nextstate as int];
        let b = via[t.tr(s, j).nextstate as int];
        assert(f.has_tr(h[s] as int, a) && f.has_tr(h[s] as int, b));
        assert(a != b);
        assert(f.tr(h[s] as int, a).ilabel != f.tr(h[s] as int, b).ilabel);
    }
}

/// A deterministic transducer stays deterministic when states are removed
/// from it.
pub proof fn lemma_del_states_keeps_deterministic<W: Semiring>(f: FstView<W>, dead: Set<int>)
    requires
        f.i_deterministic(),
    ensures
        f.del_states(dead).i_deterministic(),
{
    let g = f.del_states(dead);
    lemma_kept_states_len(f.states, dead);
    assert forall|s: int, i: int, j: int|
        #![trigger g.tr(s, i), g.tr(s, j)]
        g.has_tr(s, i) && g.has_tr(s, j) && i != j implies g.tr(s, i).ilabel != g.tr(
        s,
        j,
    ).ilabel by {
        let o = lemma_kept_states_origin(f.states, dead, s);
        let trs = f.states[o].trs;
        assert(g.states[s].trs == kept_trs(trs, dead));
        let a = lemma_kept_trs_origin(trs, dead, i);
        let b = lemma_kept_trs_origin(trs, dead, j);
        assert(a != b);
        assert(f.has_tr(o, a) && f.has_tr(o, b));
        assert(f.tr(o, a).ilabel != f.tr(o, b).ilabel);
    }
}

/// In a deterministic transducer no string is spelled by two paths from
/// one state: two paths from it with the same input labels are the same
/// path.
pub proof fn lemma_deterministic_paths_are_one<W: Semiring>(
    g: FstView<W>,
    from: int,
    p: Seq<Step>,
    a: int,
    q: Seq<Step>,
    b: int,
)
    requires
        g.i_deterministic(),
        g.is_path(from, p, a),
        g.is_path(from, q, b),
        g.path_ilabels(p) == g.path_ilabels(q),
    ensures
        p == q,
        a == b,
    decreases p.len(),
{
    let x = g.path_ilabels(p);
    let y = g.path_ilabels(q);
    assert(x.len() == p.len() && y.len() == q.len() && x.len() == y.len());
    if p.len() == 0 {
        assert(p =~= q);
    } else {
        assert(x[0] == g.tr(p[0].0, p[0].1).ilabel);
        assert(y[0] == g.tr(q[0].0, q[0].1).ilabel);
        assert(g.has_tr(p[0].0, p[0].1) && g.has_tr(q[0].0, q[0].1));
        assert(p[0].1 == q[0].1);
        let next = g.tr(p[0].0, p[0].1).nextstate as int;
        assert(g.path_ilabels(p.drop_first()) =~= g.path_ilabels(q.drop_first())) by {
            assert forall|k: int| 0 <= k < p.len() - 1 implies g.path_ilabels(p.drop_first())[k]
                == g.path_ilabels(q.drop_first())[k] by {
                assert(x[k + 1] == g.tr(p[k + 1].0, p[k + 1].1).ilabel);
                assert(y[k + 1] == g.tr(q[k + 1].0, q[k + 1].1).ilabel);
                assert(p.drop_first()[k] == p[k + 1]);
                assert(q.drop_first()[k] == q[k + 1]);
            }
        }
        lemma_deterministic_paths_are_one(g, next, p.drop_first(), a, q.drop_first(), b);
        assert(p =~= seq![p[0]] + p.drop_first());
        assert(q =~= seq![q[0]] + q.drop_first());
    }
}

} // verus!
