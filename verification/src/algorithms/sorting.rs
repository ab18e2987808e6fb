//! A stable sort whose order is given by a function.

use vstd::prelude::*;
use vstd::seq_lib::{to_multiset_build, to_multiset_insert};

verus! {

/// Whether `less` answers as the relation `lt` does.
pub open spec fn less_models<T, L: Fn(&T, &T) -> bool>(less: L, lt: spec_fn(T, T) -> bool) -> bool {
    forall|a: T, b: T, r: bool| #[trigger] call_ensures(less, (&a, &b), r) ==> r == lt(a, b)
}

/// Whether `lt` is the strict part of a total preorder: irreflexive,
/// transitive, and with a transitive "not less".
pub open spec fn is_strict_weak_order<T>(lt: spec_fn(T, T) -> bool) -> bool {
    &&& forall|a: T| !#[trigger] lt(a, a)
    &&& forall|a: T, b: T, c: T| #[trigger] lt(a, b) && #[trigger] lt(b, c) ==> lt(a, c)
    &&& forall|a: T, b: T, c: T| !#[trigger] lt(a, b) && !#[trigger] lt(b, c) ==> !lt(a, c)
}

/// Whether neither of the two comes before the other.
pub open spec fn equivalent<T>(lt: spec_fn(T, T) -> bool, a: T, b: T) -> bool {
    !lt(a, b) && !lt(b, a)
}

/// The elements that are equivalent to `x`.
pub open spec fn class_of<T>(lt: spec_fn(T, T) -> bool, x: T) -> spec_fn(T) -> bool {
    |y: T| equivalent(lt, x, y)
}

/// Whether no element comes before an earlier one.
pub open spec fn is_sorted_by<T>(s: Seq<T>, lt: spec_fn(T, T) -> bool) -> bool {
    forall|i: int, j: int| 0 <= i < j < s.len() ==> !lt(#[trigger] s[j], #[trigger] s[i])
}

/// Whether `sorted` holds the elements of `given` in the order of `lt`,
/// equivalent elements in the order they had.
pub open spec fn is_stable_sort_of<T>(
    sorted: Seq<T>,
    given: Seq<T>,
    lt: spec_fn(T, T) -> bool,
) -> bool {
    &&& sorted.len() == given.len()
    &&& is_sorted_by(sorted, lt)
    &&& forall|x: T| #[trigger]
        sorted.filter(class_of(lt, x)) == given.filter(class_of(lt, x))
}

/// A filter that no element passes leaves nothing.
pub proof fn lemma_filter_none<T>(s: Seq<T>, pred: spec_fn(T) -> bool)
    requires
        forall|i: int| 0 <= i < s.len() ==> !pred(#[trigger] s[i]),
    ensures
        s.filter(pred) == Seq::<T>::empty(),
    decreases s.len(),
{
    reveal(Seq::filter);
    if s.len() > 0 {
        lemma_filter_none(s.drop_last(), pred);
    }
}

/// Filtering a sequence into which an element was inserted.
pub proof fn lemma_filter_insert<T>(s: Seq<T>, j: int, x: T, pred: spec_fn(T) -> bool)
    requires
        0 <= j <= s.len(),
    ensures
        s.insert(j, x).filter(pred) == s.take(j).filter(pred) + (if pred(x) {
            seq![x]
        } else {
            Seq::<T>::empty()
        }) + s.skip(j).filter(pred),
        s.filter(pred) == s.take(j).filter(pred) + s.skip(j).filter(pred),
{
    let a = s.take(j);
    let b = s.skip(j);
    assert(s =~= a + b);
    assert(s.insert(j, x) =~= a.push(x) + b);
    Seq::filter_distributes_over_add(a, b, pred);
    Seq::filter_distributes_over_add(a.push(x), b, pred);
    crate::fst_traits::lemma_filter_push(a, x, pred);
    assert(a.filter(pred).push(x) =~= a.filter(pred) + seq![x]);
    assert(a.filter(pred) + Seq::<T>::empty() =~= a.filter(pred));
}

/// Inserting an element behind all that are not greater and before all that
/// are greater keeps a sequence sorted, and keeps equivalent elements in
/// their order when the new element is counted as the last.
pub proof fn lemma_insert_keeps_stable_sort<T>(
    prefix: Seq<T>,
    given: Seq<T>,
    j: int,
    x: T,
    lt: spec_fn(T, T) -> bool,
)
    requires
        is_strict_weak_order(lt),
        is_stable_sort_of(prefix, given, lt),
        0 <= j <= prefix.len(),
        forall|k: int| j <= k < prefix.len() ==> lt(x, #[trigger] prefix[k]),
        j > 0 ==> !lt(x, prefix[j - 1]),
    ensures
        is_stable_sort_of(prefix.insert(j, x), given.push(x), lt),
{
    let new = prefix.insert(j, x);
    assert forall|a: int, b: int| 0 <= a < b < new.len() implies !lt(
        #[trigger] new[b],
        #[trigger] new[a],
    ) by {
        if b < j {
            assert(new[a] == prefix[a] && new[b] == prefix[b]);
        } else if b == j {
            assert(new[a] == prefix[a]);
            // x is not less than prefix[j-1], which is not less than prefix[a]
            if a < j - 1 {
                assert(!lt(prefix[j - 1], prefix[a]));
            }
            assert(!lt(x, prefix[j - 1]));
        } else if a == j {
            assert(new[b] == prefix[b - 1]);
            assert(lt(x, prefix[b - 1]));
        } else if a < j {
            assert(new[a] == prefix[a] && new[b] == prefix[b - 1]);
        } else {
            assert(new[a] == prefix[a - 1] && new[b] == prefix[b - 1]);
        }
    }
    assert forall|z: T| #[trigger]
        new.filter(class_of(lt, z)) == given.push(x).filter(class_of(lt, z)) by {
        let c = class_of(lt, z);
        lemma_filter_insert(prefix, j, x, c);
        crate::fst_traits::lemma_filter_push(given, x, c);
        assert(prefix.filter(c) == given.filter(c));
        let a = prefix.take(j).filter(c);
        let b = prefix.skip(j).filter(c);
        if c(x) {
            assert forall|i: int| 0 <= i < prefix.skip(j).len() implies !c(
                #[trigger] prefix.skip(j)[i],
            ) by {
                let y = prefix[j + i];
                assert(lt(x, y));
                // z ~ x and z ~ y would give x ~ y
                if c(y) {
                    assert(!lt(x, z) && !lt(z, y));
                    assert(false);
                }
            }
            lemma_filter_none(prefix.skip(j), c);
            assert(a + seq![x] + b =~= (a + b).push(x));
        } else {
            assert(a + Seq::<T>::empty() + b =~= a + b);
        }
    }
}

/// Sorts `v` by insertion. The elements stay the same whatever `less`
/// answers; where it answers as a strict weak order does, they end up in
/// that order, equivalent elements in the order they had.
pub fn insertion_sort_by<T: Copy, L: Fn(&T, &T) -> bool>(v: &mut Vec<T>, less: L)
    requires
        forall|a: T, b: T| call_requires(less, (&a, &b)),
    ensures
        final(v)@.to_multiset() == old(v)@.to_multiset(),
        forall|lt: spec_fn(T, T) -> bool| #[trigger]
            less_models(less, lt) && is_strict_weak_order(lt) ==> is_stable_sort_of(
                final(v)@,
                old(v)@,
                lt,
            ),
{
    let ghost given = v@;
    let n = v.len();
    let mut i: usize = 0;
    proof {
        assert(v@.take(0) =~= given.take(0));
        assert forall|lt: spec_fn(T, T) -> bool| #[trigger]
            less_models(less, lt) && is_strict_weak_order(lt) implies is_stable_sort_of(
            v@.take(0),
            given.take(0),
            lt,
        ) by {}
    }
    while i < n
        invariant
            v.len() == n,
            n == given.len(),
            i <= n,
            forall|a: T, b: T| call_requires(less, (&a, &b)),
            v@.skip(i as int) == given.skip(i as int),
            v@.take(i as int).to_multiset() == given.take(i as int).to_multiset(),
            forall|lt: spec_fn(T, T) -> bool| #[trigger]
                less_models(less, lt) && is_strict_weak_order(lt) ==> is_stable_sort_of(
                    v@.take(i as int),
                    given.take(i as int),
                    lt,
                ),
        decreases n - i,
    {
        let x = v[i];
        let ghost prefix = v@.take(i as int);
        assert(x == given[i as int]) by {
            assert(v@.skip(i as int)[0] == given.skip(i as int)[0]);
        }
        let mut j: usize = i;
        let mut searching = true;
        proof {
            assert(v@.skip(i as int + 1) =~= v@.skip(i as int).skip(1));
            assert(given.skip(i as int + 1) =~= given.skip(i as int).skip(1));
        }
        while j > 0 && searching
            invariant
                j <= i < n,
                v.len() == n,
                prefix.len() == i,
                forall|a: T, b: T| call_requires(less, (&a, &b)),
                v@.skip(i as int + 1) == given.skip(i as int + 1),
                forall|k: int| 0 <= k < j ==> v@[k] == prefix[k],
                forall|k: int| j < k <= i ==> v@[k] == prefix[k - 1],
                forall|lt: spec_fn(T, T) -> bool, k: int|
                    #![trigger less_models(less, lt), prefix[k]]
                    less_models(less, lt) && j <= k < i ==> lt(x, prefix[k]),
                !searching ==> j > 0 && forall|lt: spec_fn(T, T) -> bool| #[trigger]
                    less_models(less, lt) ==> !lt(x, prefix[j - 1]),
            decreases j + (if searching { 1nat } else { 0nat }),
        {
            let y = v[j - 1];
            let ghost before = v@;
            if less(&x, &y) {
                v[j] = y;
                j -= 1;
                proof {
                    assert(v@.skip(i as int + 1) =~= before.skip(i as int + 1));
                }
            } else {
                searching = false;
            }
        }
        let ghost before = v@;
        v[j] = x;
        proof {
            let new = prefix.insert(j as int, x);
            assert(v@.take(i as int + 1) =~= new);
            assert(given.take(i as int + 1) =~= given.take(i as int).push(x));
            to_multiset_insert(prefix, j as int, x);
            to_multiset_build(given.take(i as int), x);
            assert(v@.skip(i as int + 1) =~= before.skip(i as int + 1));
            assert forall|lt: spec_fn(T, T) -> bool| #[trigger]
                less_models(less, lt) && is_strict_weak_order(lt) implies is_stable_sort_of(
                v@.take(i as int + 1),
                given.take(i as int + 1),
                lt,
            ) by {
                assert forall|k: int| j <= k < prefix.len() implies lt(x, #[trigger] prefix[k]) by {}
                lemma_insert_keeps_stable_sort(prefix, given.take(i as int), j as int, x, lt);
            }
        }
        i += 1;
    }
    proof {
        assert(v@.take(n as int) =~= v@);
        assert(given.take(n as int) =~= given);
    }
}

} // verus!
