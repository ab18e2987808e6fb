//! A cache for what was computed of a lazy transducer.

use vstd::prelude::*;
use crate::semirings::semiring::Semiring;
use crate::tr::{StateId, Tr};

verus! {

/// Whether something is in the cache, and what.
#[derive(Clone, Copy, Debug, PartialEq, Eq)]
pub enum CacheStatus<T> {
    Computed(T),
    NotComputed,
}

/// Remembers the start state, the final weights and the transitions that
/// were computed. What it was given once it returns ever after; it never
/// forgets.
#[derive(Debug)]
pub struct SimpleVecCache<W: Semiring> {
    start: CacheStatus<Option<StateId>>,
    trs: Vec<Option<Vec<Tr<W>>>>,
    final_weights: Vec<CacheStatus<Option<W>>>,
}

impl<W: Semiring> SimpleVecCache<W> {
    /// The start state that was put in, if one was.
    pub closed spec fn start_view(&self) -> CacheStatus<Option<StateId>> {
        self.start
    }

    /// The transitions that were put in, by state.
    pub closed spec fn trs_view(&self) -> Map<int, Seq<Tr<W>>> {
        Map::new(
            |s: int| 0 <= s < self.trs.len() && self.trs[s] is Some,
            |s: int| self.trs[s]->0@,
        )
    }

    /// The final weights that were put in, by state.
    pub closed spec fn final_weights_view(&self) -> Map<int, Option<W>> {
        Map::new(
            |s: int| 0 <= s < self.final_weights.len() && self.final_weights[s] is Computed,
            |s: int| self.final_weights[s]->Computed_0,
        )
    }

    /// An empty cache.
    pub fn new() -> (cache: Self)
        ensures
            cache.start_view() is NotComputed,
            cache.trs_view() == Map::<int, Seq<Tr<W>>>::empty(),
            cache.final_weights_view() == Map::<int, Option<W>>::empty(),
    {
        let cache = SimpleVecCache {
            start: CacheStatus::NotComputed,
            trs: Vec::new(),
            final_weights: Vec::new(),
        };
        assert(cache.trs_view() =~= Map::<int, Seq<Tr<W>>>::empty());
        assert(cache.final_weights_view() =~= Map::<int, Option<W>>::empty());
        cache
    }

    pub fn get_start(&self) -> (r: CacheStatus<Option<StateId>>)
        ensures
            r == self.start_view(),
    {
        self.start
    }

    pub fn insert_start(&mut self, start: Option<StateId>)
        ensures
            final(self).start_view() == CacheStatus::Computed(start),
            final(self).trs_view() == old(self).trs_view(),
            final(self).final_weights_view() == old(self).final_weights_view(),
    {
        self.start = CacheStatus::Computed(start);
        assert(self.trs_view() =~= old(self).trs_view());
        assert(self.final_weights_view() =~= old(self).final_weights_view());
    }

    /// A copy of the transitions of state `id`, if they are in the cache.
    pub fn get_trs(&self, id: StateId) -> (r: CacheStatus<Vec<Tr<W>>>)
        ensures
            match r {
                CacheStatus::Computed(trs) => self.trs_view().contains_key(id as int)
                    && trs@ == self.trs_view()[id as int],
                CacheStatus::NotComputed => !self.trs_view().contains_key(id as int),
            },
    {
        if id < self.trs.len() {
            match &self.trs[id] {
                Some(trs) => {
                    let mut copy: Vec<Tr<W>> = Vec::new();
                    let mut i: usize = 0;
                    while i < trs.len()
                        invariant
                            i <= trs.len(),
                            copy@ =~= trs@.take(i as int),
                        decreases trs.len() - i,
                    {
                        copy.push(trs[i]);
                        i += 1;
                    }
                    proof {
                        assert(trs@.take(trs@.len() as int) =~= trs@);
                    }
                    CacheStatus::Computed(copy)
                },
                None => CacheStatus::NotComputed,
            }
        } else {
            CacheStatus::NotComputed
        }
    }

    /// The number of transitions of state `id`, if they are in the cache.
    pub fn num_trs(&self, id: StateId) -> (r: CacheStatus<usize>)
        ensures
            match r {
                CacheStatus::Computed(n) => self.trs_view().contains_key(id as int) && n
                    == self.trs_view()[id as int].len(),
                CacheStatus::NotComputed => !self.trs_view().contains_key(id as int),
            },
    {
        if id < self.trs.len() {
            match &self.trs[id] {
                Some(trs) => CacheStatus::Computed(trs.len()),
                None => CacheStatus::NotComputed,
            }
        } else {
            CacheStatus::NotComputed
        }
    }

    pub fn insert_trs(&mut self, id: StateId, trs: Vec<Tr<W>>)
        ensures
            final(self).start_view() == old(self).start_view(),
            final(self).trs_view() == old(self).trs_view().insert(id as int, trs@),
            final(self).final_weights_view() == old(self).final_weights_view(),
    {
        while self.trs.len() <= id
            invariant
                self.start_view() == old(self).start_view(),
                self.trs_view() =~= old(self).trs_view(),
                self.final_weights_view() == old(self).final_weights_view(),
            decreases id + 1 - self.trs.len(),
        {
            self.trs.push(None);
            assert(self.final_weights_view() =~= old(self).final_weights_view());
        }
        self.trs[id] = Some(trs);
        assert(self.trs_view() =~= old(self).trs_view().insert(id as int, trs@));
        assert(self.final_weights_view() =~= old(self).final_weights_view());
    }

    pub fn get_final_weight(&self, id: StateId) -> (r: CacheStatus<Option<W>>)
        ensures
            match r {
                CacheStatus::Computed(w) => self.final_weights_view().contains_key(id as int) && w
                    == self.final_weights_view()[id as int],
                CacheStatus::NotComputed => !self.final_weights_view().contains_key(id as int),
            },
    {
        if id < self.final_weights.len() {
            self.final_weights[id]
        } else {
            CacheStatus::NotComputed
        }
    }

    pub fn insert_final_weight(&mut self, id: StateId, weight: Option<W>)
        ensures
            final(self).start_view() == old(self).start_view(),
            final(self).trs_view() == old(self).trs_view(),
            final(self).final_weights_view() == old(self).final_weights_view().insert(
                id as int,
                weight,
            ),
    {
        while self.final_weights.len() <= id
            invariant
                self.start_view() == old(self).start_view(),
                self.trs_view() == old(self).trs_view(),
                self.final_weights_view() =~= old(self).final_weights_view(),
            decreases id + 1 - self.final_weights.len(),
        {
            self.final_weights.push(CacheStatus::NotComputed);
            assert(self.trs_view() =~= old(self).trs_view());
        }
        self.final_weights[id] = CacheStatus::Computed(weight);
        assert(self.final_weights_view() =~= old(self).final_weights_view().insert(
            id as int,
            weight,
        ));
        assert(self.trs_view() =~= old(self).trs_view());
    }
}

} // verus!
