//! What becomes of each transition of each node of the tree that the search
//! for the best paths builds: it has a child in the tree, or its candidate
//! waits in the heap, or the state it leads to was left as often as a state
//! may be left.

use vstd::prelude::*;
use crate::algorithms::path_count::{keeps_count, lemma_left_less_often};
use crate::algorithms::path_search::{holds_all, is_without, Candidate};
use crate::fst_view::{FstView, Step};
use crate::semirings::semiring::Semiring;
use crate::tr::{StateId, Tr};

verus! {

/// Whether the two transitions have the same labels and the same weight.
pub open spec fn is_like<W: Semiring>(a: Tr<W>, b: Tr<W>) -> bool {
    a.ilabel == b.ilabel && a.olabel == b.olabel && a.weight == b.weight
}

/// Whether node `x` of the tree has a transition like `tr` to a node that
/// stands for the state that `tr` leads to.
pub open spec fn has_child<W: Semiring>(t: FstView<W>, h: Seq<StateId>, x: int, tr: Tr<W>) -> bool {
    exists|m: int|
        t.has_tr(x, m) && is_like(#[trigger] t.tr(x, m), tr) && t.tr(x, m).nextstate < h.len()
            && h[t.tr(x, m).nextstate as int] == tr.nextstate
}

/// Whether the candidate is the one that node `x` made for the transition
/// `tr`.
pub open spec fn is_for<W: Semiring>(c: Candidate<W>, x: int, tr: Tr<W>) -> bool {
    c.parent == Some(x as usize) && c.state == Some(tr.nextstate) && c.ilabel == tr.ilabel
        && c.olabel == tr.olabel && c.weight == tr.weight
}

/// Whether the candidate that node `x` made for the transition `tr` waits
/// in the heap.
pub open spec fn waits_for<W: Semiring>(heap: Seq<Candidate<W>>, x: int, tr: Tr<W>) -> bool {
    exists|c: Candidate<W>| #[trigger] heap.contains(c) && is_for(c, x, tr)
}

/// Whether the candidate that ends the path in node `x` waits in the heap.
pub open spec fn waits_to_end<W: Semiring>(heap: Seq<Candidate<W>>, x: int) -> bool {
    exists|c: Candidate<W>| #[trigger] heap.contains(c) && c.state is None && c.parent == Some(
        x as usize,
    )
}

/// Whether the search keeps track of its nodes: the first node stands for
/// the start state; each transition of the state of each node has a child
/// in the tree, or its candidate waits, or the state it leads to was left as
/// often as a state may be left; and each node that stands for a final state
/// is final, or the candidate that ends the path in it waits. The
/// transitions of node `node` from the index `upto` on are left aside.
pub open spec fn tracks_nodes<W: Semiring>(
    f: FstView<W>,
    t: FstView<W>,
    h: Seq<StateId>,
    heap: Seq<Candidate<W>>,
    visits: Seq<usize>,
    n: int,
    node: int,
    upto: int,
) -> bool {
    &&& t.states.len() == h.len()
    &&& h.len() <= usize::MAX
    &&& visits.len() == f.states.len()
    &&& forall|x: int| 0 <= x < h.len() ==> (#[trigger] h[x]) < f.states.len()
    &&& t.states.len() > 0 ==> f.start == Some(h[0])
    &&& forall|s: int| 0 <= s < visits.len() && (#[trigger] visits[s]) >= 1 ==> t.states.len() > 0
    &&& forall|x: int, i: int|
        0 <= x < h.len() && #[trigger] f.has_tr(h[x] as int, i) && (x != node || i < upto)
            ==> has_child(t, h, x, f.tr(h[x] as int, i)) || waits_for(
            heap,
            x,
            f.tr(h[x] as int, i),
        ) || visits[f.tr(h[x] as int, i).nextstate as int] >= n
    &&& forall|x: int|
        0 <= x < h.len() && f.is_final(#[trigger] h[x] as int) ==> t.states[x].final_weight is Some
            || waits_to_end(heap, x)
}

/// Track is kept of the nodes when a path is ended in one of them.
pub proof fn lemma_nodes_final_pop<W: Semiring>(
    f: FstView<W>,
    t0: FstView<W>,
    t1: FstView<W>,
    h: Seq<StateId>,
    before: Seq<Candidate<W>>,
    after: Seq<Candidate<W>>,
    visits: Seq<usize>,
    n: int,
    c: Candidate<W>,
    k: int,
)
    requires
        tracks_nodes(f, t0, h, before, visits, n, -1, 0),
        c.state is None,
        c.parent == Some(k as usize),
        0 <= k < h.len(),
        is_without(after, before, c),
        t1.states.len() == t0.states.len(),
        forall|x: int| 0 <= x < t0.states.len() ==> (#[trigger] t1.states[x]).trs == t0.states[x].trs,
        forall|x: int|
            0 <= x < t0.states.len() && x != k ==> (#[trigger] t1.states[x]).final_weight
                == t0.states[x].final_weight,
        t1.states[k].final_weight is Some,
    ensures
        tracks_nodes(f, t1, h, after, visits, n, -1, 0),
{
    assert forall|x: int, i: int|
        0 <= x < h.len() && #[trigger] f.has_tr(h[x] as int, i) implies has_child(
        t1,
        h,
        x,
        f.tr(h[x] as int, i),
    ) || waits_for(after, x, f.tr(h[x] as int, i)) || visits[f.tr(h[x] as int, i).nextstate as int]
        >= n by {
        let tr = f.tr(h[x] as int, i);
        if has_child(t0, h, x, tr) {
            let m = choose|m: int|
                t0.has_tr(x, m) && is_like(#[trigger] t0.tr(x, m), tr) && t0.tr(x, m).nextstate
                    < h.len() && h[t0.tr(x, m).nextstate as int] == tr.nextstate;
            assert(t1.states[x].trs == t0.states[x].trs);
            assert(t1.has_tr(x, m) && t1.tr(x, m) == t0.tr(x, m));
        } else if waits_for(before, x, tr) {
            let w = choose|w: Candidate<W>| #[trigger] before.contains(w) && is_for(w, x, tr);
            assert(after.contains(w));
        }
    }
    assert forall|x: int| 0 <= x < h.len() && f.is_final(#[trigger] h[x] as int) implies t1.states[x].final_weight is Some
        || waits_to_end(after, x) by {
        if x != k && t0.states[x].final_weight is None {
            let w = choose|w: Candidate<W>|
                #[trigger] before.contains(w) && w.state is None && w.parent == Some(x as usize);
            assert(after.contains(w));
        }
    }
}

/// Track is kept of the nodes when a candidate is dropped that gets to a
/// state that was left as often as a state may be left.
pub proof fn lemma_nodes_drop<W: Semiring>(
    f: FstView<W>,
    t: FstView<W>,
    h: Seq<StateId>,
    before: Seq<Candidate<W>>,
    after: Seq<Candidate<W>>,
    visits: Seq<usize>,
    n: int,
    c: Candidate<W>,
    s: StateId,
)
    requires
        tracks_nodes(f, t, h, before, visits, n, -1, 0),
        c.state == Some(s),
        s < visits.len(),
        visits[s as int] >= n,
        is_without(after, before, c),
    ensures
        tracks_nodes(f, t, h, after, visits, n, -1, 0),
{
    assert forall|x: int, i: int|
        0 <= x < h.len() && #[trigger] f.has_tr(h[x] as int, i) implies has_child(
        t,
        h,
        x,
        f.tr(h[x] as int, i),
    ) || waits_for(after, x, f.tr(h[x] as int, i)) || visits[f.tr(h[x] as int, i).nextstate as int]
        >= n by {
        let tr = f.tr(h[x] as int, i);
        if !has_child(t, h, x, tr) && waits_for(before, x, tr) {
            let w = choose|w: Candidate<W>| #[trigger] before.contains(w) && is_for(w, x, tr);
            if w != c {
                assert(after.contains(w));
            }
        }
    }
    assert forall|x: int| 0 <= x < h.len() && f.is_final(#[trigger] h[x] as int) implies t.states[x].final_weight is Some
        || waits_to_end(after, x) by {
        if t.states[x].final_weight is None {
            let w = choose|w: Candidate<W>|
                #[trigger] before.contains(w) && w.state is None && w.parent == Some(x as usize);
            assert(after.contains(w));
        }
    }
}

/// Track is kept of the nodes when the tree gets a node for the candidate
/// that was taken out of the heap, but for the transitions of the new node.
pub proof fn lemma_nodes_expand<W: Semiring>(
    f: FstView<W>,
    t0: FstView<W>,
    t1: FstView<W>,
    h: Seq<StateId>,
    before: Seq<Candidate<W>>,
    after: Seq<Candidate<W>>,
    visits: Seq<usize>,
    now: Seq<usize>,
    n: int,
    c: Candidate<W>,
    s: StateId,
)
    requires
        tracks_nodes(f, t0, h, before, visits, n, -1, 0),
        f.graph_wf(),
        c.state == Some(s),
        s < f.states.len(),
        h.len() < usize::MAX,
        is_without(after, before, c),
        now.len() == visits.len(),
        forall|u: int| 0 <= u < visits.len() ==> #[trigger] now[u] >= visits[u],
        t1.states.len() == t0.states.len() + 1,
        forall|x: int, i: int|
            #[trigger] t0.has_tr(x, i) ==> t1.has_tr(x, i) && t1.tr(x, i) == t0.tr(x, i),
        forall|x: int|
            0 <= x < t0.states.len() ==> (#[trigger] t1.states[x]).final_weight
                == t0.states[x].final_weight,
        match c.parent {
            Some(k) => k < t0.states.len() && exists|i: int|
                t1.has_tr(k as int, i) && (#[trigger] t1.tr(k as int, i)).nextstate
                    == t0.states.len() && t1.tr(k as int, i).ilabel == c.ilabel && t1.tr(
                    k as int,
                    i,
                ).olabel == c.olabel && t1.tr(k as int, i).weight == c.weight,
            None => t0.states.len() == 0 && f.start == Some(s),
        },
        f.is_final(s as int) ==> waits_to_end(after, t0.states.len() as int),
    ensures
        tracks_nodes(f, t1, h.push(s), after, now, n, h.len() as int, 0),
{
    let h1 = h.push(s);
    let node = h.len() as int;
    assert forall|x: int| 0 <= x < h1.len() implies (#[trigger] h1[x]) < f.states.len() by {
        if x < h.len() {
            assert(h1[x] == h[x]);
        }
    }
    assert forall|x: int, i: int|
        0 <= x < h1.len() && #[trigger] f.has_tr(h1[x] as int, i) && (x != node || i < 0) implies has_child(
        t1,
        h1,
        x,
        f.tr(h1[x] as int, i),
    ) || waits_for(after, x, f.tr(h1[x] as int, i)) || now[f.tr(h1[x] as int, i).nextstate as int]
        >= n by {
        assert(x < node);
        assert(h1[x] == h[x]);
        let tr = f.tr(h[x] as int, i);
        assert(0 <= tr.nextstate < f.states.len());
        if has_child(t0, h, x, tr) {
            let m = choose|m: int|
                t0.has_tr(x, m) && is_like(#[trigger] t0.tr(x, m), tr) && t0.tr(x, m).nextstate
                    < h.len() && h[t0.tr(x, m).nextstate as int] == tr.nextstate;
            assert(t1.has_tr(x, m) && t1.tr(x, m) == t0.tr(x, m));
            assert(h1[t0.tr(x, m).nextstate as int] == h[t0.tr(x, m).nextstate as int]);
        } else if waits_for(before, x, tr) {
            let w = choose|w: Candidate<W>| #[trigger] before.contains(w) && is_for(w, x, tr);
            if w != c {
                assert(after.contains(w));
            } else {
                let k = c.parent->0;
                let m = choose|m: int|
                    t1.has_tr(k as int, m) && (#[trigger] t1.tr(k as int, m)).nextstate
                        == t0.states.len() && t1.tr(k as int, m).ilabel == c.ilabel && t1.tr(
                        k as int,
                        m,
                    ).olabel == c.olabel && t1.tr(k as int, m).weight == c.weight;
                assert(h1[node] == s);
                assert(is_like(t1.tr(x, m), tr));
                assert(has_child(t1, h1, x, tr));
            }
        } else {
            assert(visits[tr.nextstate as int] >= n);
        }
    }
    assert forall|x: int| 0 <= x < h1.len() && f.is_final(#[trigger] h1[x] as int) implies t1.states[x].final_weight is Some
        || waits_to_end(after, x) by {
        if x < node {
            assert(h1[x] == h[x]);
            if t0.states[x].final_weight is None {
                let w = choose|w: Candidate<W>|
                    #[trigger] before.contains(w) && w.state is None && w.parent == Some(
                        x as usize,
                    );
                assert(after.contains(w));
            }
        }
    }
    if t0.states.len() > 0 {
        assert(h1[0] == h[0]);
    }
}

/// One more transition of the new node has its candidate.
pub proof fn lemma_nodes_push_child<W: Semiring>(
    f: FstView<W>,
    t: FstView<W>,
    h: Seq<StateId>,
    before: Seq<Candidate<W>>,
    after: Seq<Candidate<W>>,
    visits: Seq<usize>,
    n: int,
    node: int,
    i: int,
    c: Candidate<W>,
)
    requires
        tracks_nodes(f, t, h, before, visits, n, node, i),
        0 <= node < h.len(),
        f.has_tr(h[node] as int, i),
        holds_all(after, before),
        after.contains(c),
        is_for(c, node, f.tr(h[node] as int, i)),
    ensures
        tracks_nodes(f, t, h, after, visits, n, node, i + 1),
{
    assert forall|x: int, j: int|
        0 <= x < h.len() && #[trigger] f.has_tr(h[x] as int, j) && (x != node || j < i + 1) implies has_child(
        t,
        h,
        x,
        f.tr(h[x] as int, j),
    ) || waits_for(after, x, f.tr(h[x] as int, j)) || visits[f.tr(h[x] as int, j).nextstate as int]
        >= n by {
        let tr = f.tr(h[x] as int, j);
        if x == node && j == i {
            assert(waits_for(after, x, tr));
        } else if !has_child(t, h, x, tr) && waits_for(before, x, tr) {
            let w = choose|w: Candidate<W>| #[trigger] before.contains(w) && is_for(w, x, tr);
            assert(after.contains(w));
        }
    }
    assert forall|x: int| 0 <= x < h.len() && f.is_final(#[trigger] h[x] as int) implies t.states[x].final_weight is Some
        || waits_to_end(after, x) by {
        if t.states[x].final_weight is None {
            let w = choose|w: Candidate<W>|
                #[trigger] before.contains(w) && w.state is None && w.parent == Some(x as usize);
            assert(after.contains(w));
        }
    }
}

/// When the search has ended with an empty heap and fewer paths than were
/// asked for, the tree holds the like of each path of the transducer that
/// leads to a final state, from each node that stands for the state that the
/// path leaves.
pub proof fn lemma_path_in_tree<W: Semiring>(
    f: FstView<W>,
    t: FstView<W>,
    h: Seq<StateId>,
    heap: Seq<Candidate<W>>,
    visits: Seq<usize>,
    emitted: int,
    n: int,
    x: int,
    p: Seq<Step>,
    to: int,
) -> (r: (Seq<Step>, int))
    requires
        tracks_nodes(f, t, h, heap, visits, n, -1, 0),
        keeps_count(f, heap, visits, emitted, n, -1, 0),
        heap.len() == 0,
        emitted < n,
        f.graph_wf(),
        t.graph_wf(),
        0 <= x < h.len(),
        f.is_path(h[x] as int, p, to),
        f.is_final(to),
    ensures
        t.is_path(x, r.0, r.1),
        r.0.len() == p.len(),
        0 <= r.1 < h.len(),
        h[r.1] == to,
        t.states[r.1].final_weight is Some,
        t.path_ilabels(r.0) == f.path_ilabels(p),
        t.path_olabels(r.0) == f.path_olabels(p),
        t.path_weight(r.0) == f.path_weight(p),
    decreases p.len(),
{
    if p.len() == 0 {
        let q = Seq::<Step>::empty();
        assert(t.path_ilabels(q) =~= f.path_ilabels(p));
        assert(t.path_olabels(q) =~= f.path_olabels(p));
        if t.states[x].final_weight is None {
            let w = choose|w: Candidate<W>|
                #[trigger] heap.contains(w) && w.state is None && w.parent == Some(x as usize);
            let k = choose|k: int| 0 <= k < heap.len() && heap[k] == w;
        }
        (q, x)
    } else {
        let i = p[0].1;
        let tr = f.tr(h[x] as int, i);
        let next = tr.nextstate as int;
        assert(f.has_tr(h[x] as int, i));
        lemma_left_less_often(f, heap, visits, emitted, n, next, p.drop_first(), to);
        if waits_for(heap, x, tr) {
            let w = choose|w: Candidate<W>| #[trigger] heap.contains(w) && is_for(w, x, tr);
            let k = choose|k: int| 0 <= k < heap.len() && heap[k] == w;
        }
        assert(has_child(t, h, x, tr));
        let m = choose|m: int|
            t.has_tr(x, m) && is_like(#[trigger] t.tr(x, m), tr) && t.tr(x, m).nextstate < h.len()
                && h[t.tr(x, m).nextstate as int] == tr.nextstate;
        let y = t.tr(x, m).nextstate as int;
        let (rest, end) = lemma_path_in_tree(f, t, h, heap, visits, emitted, n, y, p.drop_first(), to);
        let q = seq![(x, m)] + rest;
        assert(q[0] == (x, m));
        assert(p[0].0 == h[x] as int);
        assert(t.tr(q[0].0, q[0].1).ilabel == f.tr(p[0].0, p[0].1).ilabel);
        assert(t.tr(q[0].0, q[0].1).olabel == f.tr(p[0].0, p[0].1).olabel);
        assert(q.drop_first() =~= rest);
        assert(t.is_path(x, q, end));
        assert(t.path_ilabels(q) =~= f.path_ilabels(p)) by {
            assert forall|j: int| 0 <= j < q.len() implies t.path_ilabels(q)[j] == f.path_ilabels(
                p,
            )[j] by {
                if j > 0 {
                    assert(q[j] == rest[j - 1]);
                    assert(t.path_ilabels(rest)[j - 1] == f.path_ilabels(p.drop_first())[j - 1]);
                    assert(p.drop_first()[j - 1] == p[j]);
                }
            }
        }
        assert(t.path_olabels(q) =~= f.path_olabels(p)) by {
            assert forall|j: int| 0 <= j < q.len() implies t.path_olabels(q)[j] == f.path_olabels(
                p,
            )[j] by {
                if j > 0 {
                    assert(q[j] == rest[j - 1]);
                    assert(t.path_olabels(rest)[j - 1] == f.path_olabels(p.drop_first())[j - 1]);
                    assert(p.drop_first()[j - 1] == p[j]);
                }
            }
        }
        (q, end)
    }
}

/// Whether each candidate that ends a path does so in a node of the tree
/// that is not final yet.
pub open spec fn ends_fit<W: Semiring>(t: FstView<W>, heap: Seq<Candidate<W>>) -> bool {
    forall|c: Candidate<W>|
        #[trigger] heap.contains(c) && c.state is None ==> (c.parent matches Some(k) && k
            < t.states.len() && t.states[k as int].final_weight is None)
}

/// The candidates that end a path still fit when one of them was taken out
/// and its node made final.
pub proof fn lemma_ends_fit_final<W: Semiring>(
    t0: FstView<W>,
    t1: FstView<W>,
    before: Seq<Candidate<W>>,
    after: Seq<Candidate<W>>,
    c: Candidate<W>,
    k: int,
)
    requires
        ends_fit(t0, before),
        holds_all(before, after),
        c.parent == Some(k as usize),
        0 <= k < t0.states.len(),
        t0.states.len() <= usize::MAX,
        forall|x: Candidate<W>|
            #[trigger] after.contains(x) && x.state is None ==> x.parent != c.parent,
        t1.states.len() == t0.states.len(),
        forall|x: int|
            0 <= x < t0.states.len() && x != k ==> (#[trigger] t1.states[x]).final_weight
                == t0.states[x].final_weight,
    ensures
        ends_fit(t1, after),
{
    assert forall|x: Candidate<W>| #[trigger] after.contains(x) && x.state is None implies (
    x.parent matches Some(j) && j < t1.states.len() && t1.states[j as int].final_weight is None) by {
        assert(before.contains(x));
    }
}

/// The candidates that end a path still fit when the tree gets a node and
/// candidates are taken out of the heap.
pub proof fn lemma_ends_fit_grow<W: Semiring>(
    t0: FstView<W>,
    t1: FstView<W>,
    before: Seq<Candidate<W>>,
    after: Seq<Candidate<W>>,
)
    requires
        ends_fit(t0, before),
        holds_all(before, after),
        t0.states.len() <= t1.states.len(),
        forall|x: int|
            0 <= x < t0.states.len() ==> (#[trigger] t1.states[x]).final_weight
                == t0.states[x].final_weight,
    ensures
        ends_fit(t1, after),
{
    assert forall|x: Candidate<W>| #[trigger] after.contains(x) && x.state is None implies (
    x.parent matches Some(j) && j < t1.states.len() && t1.states[j as int].final_weight is None) by {
        assert(before.contains(x));
    }
}

/// The candidates that end a path still fit when one more candidate waits,
/// which ends no path or ends one in a node that is not final.
pub proof fn lemma_ends_fit_push<W: Semiring>(
    t: FstView<W>,
    heap: Seq<Candidate<W>>,
    c: Candidate<W>,
)
    requires
        ends_fit(t, heap),
        c.state is None ==> (c.parent matches Some(k) && k < t.states.len()
            && t.states[k as int].final_weight is None),
    ensures
        ends_fit(t, heap.push(c)),
{
    let after = heap.push(c);
    assert forall|x: Candidate<W>| #[trigger] after.contains(x) && x.state is None implies (
    x.parent matches Some(j) && j < t.states.len() && t.states[j as int].final_weight is None) by {
        let a = choose|a: int| 0 <= a < after.len() && after[a] == x;
        if a < heap.len() {
            assert(heap[a] == x);
            assert(heap.contains(x));
        }
    }
}

/// Whether `g` has the like of the successful path `p` of `f`: a successful
/// path with the same labels, the same weight and the same final weight.
pub open spec fn has_like<W: Semiring>(g: FstView<W>, f: FstView<W>, p: Seq<Step>, to: int) -> bool {
    exists|q: Seq<Step>, end: int|
        g.is_accepting_path(q, end) && g.path_ilabels(q) == f.path_ilabels(p) && g.path_olabels(q)
            == f.path_olabels(p) && g.path_weight(q) == f.path_weight(p)
            && g.states[end].final_weight == f.states[to].final_weight
}

/// Whether `g` has the like of each successful path of `f`.
pub open spec fn holds_all_paths<W: Semiring>(g: FstView<W>, f: FstView<W>) -> bool {
    forall|p: Seq<Step>, to: int| f.is_accepting_path(p, to) ==> has_like(g, f, p, to)
}

} // verus!
