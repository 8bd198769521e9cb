//! Iteration over a table: shared, exclusive, and consuming.
//!
//! All three walk the slots in ascending index order.  The shared iterator
//! tracks, in ghost state, the exact sequence of key views it has yielded,
//! which is how the no-duplicates guarantee is stated.  The consuming
//! iterator takes ownership of every pair up front and hands them out one
//! by one.

use vstd::prelude::*;

use crate::f14_map::{distinct_pair_keys, pairs_map, F14VectorMap, SlotState};
use crate::traits::{BuildHasherExt, MapKey};

verus! {

/// Shared iteration: yields `(&K, &V)` for each full slot.
pub struct Iter<'a, K: MapKey, V, S: BuildHasherExt> {
    map: &'a F14VectorMap<K, V, S>,
    current: usize,
    emitted: Ghost<Seq<K::V>>,
}

impl<'a, K: MapKey, V, S: BuildHasherExt> Iter<'a, K, V, S> {
    /// The iterator's table.
    pub closed spec fn spec_map(&self) -> F14VectorMap<K, V, S> {
        *self.map
    }

    /// The key views yielded so far, in order.
    pub closed spec fn spec_emitted(&self) -> Seq<K::V> {
        self.emitted@
    }

    /// The iterator points into a well-formed table, and what it has
    /// yielded is exactly the keys of the full slots already passed.
    pub closed spec fn wf_iter(&self) -> bool {
        &&& self.map.wf()
        &&& self.current as int <= self.map.spec_capacity()
        &&& self.emitted@ == self.map.spec_keys_upto(self.current as int)
    }

    pub(crate) fn new(map: &'a F14VectorMap<K, V, S>) -> (r: Self)
        requires
            map.wf(),
        ensures
            r.wf_iter(),
            r.spec_emitted() == Seq::<K::V>::empty(),
            r.spec_map() == *map,
    {
        proof {
            map.lemma_keys_upto_zero();
        }
        Iter { map, current: 0, emitted: Ghost(Seq::empty()) }
    }

    /// The next full slot's pair, in slot order.  Each yielded key is one
    /// the iterator has not yielded before; after `None`, every live key
    /// has been yielded exactly once.
    pub fn next(&mut self) -> (r: Option<(&'a K, &'a V)>)
        requires
            old(self).wf_iter(),
        ensures
            final(self).wf_iter(),
            final(self).spec_map() == old(self).spec_map(),
            match r {
                Some((k, v)) => {
                    &&& final(self).spec_emitted() == old(self).spec_emitted().push(k@)
                    &&& !old(self).spec_emitted().contains(k@)
                    &&& old(self).spec_map()@.dom().contains(k@)
                    &&& *v == old(self).spec_map()@[k@]
                },
                None => {
                    &&& final(self).spec_emitted() == old(self).spec_emitted()
                    &&& final(self).spec_emitted().len() == old(self).spec_map().spec_len()
                    &&& final(self).spec_emitted().no_duplicates()
                },
            },
    {
        while self.current < self.map.capacity()
            invariant
                self.map.wf(),
                self.map == old(self).map,
                self.current as int <= self.map.spec_capacity(),
                self.emitted@ == self.map.spec_keys_upto(self.current as int),
                self.emitted@ == old(self).emitted@,
            decreases self.map.spec_capacity() - self.current,
        {
            let i = self.current;
            match self.map.entry_at(i) {
                Some((k, v)) => {
                    self.current = i + 1;
                    proof {
                        self.map.lemma_keys_upto_entry(i as int);
                        self.map.lemma_keys_upto_contains(i as int, k@);
                        if exists|j: int|
                            0 <= j < i as int && (#[trigger] self.map.spec_slot_state(j))
                                is Full && self.map.spec_key_at(j) == k@ {
                            let j = choose|j: int|
                                0 <= j < i as int && (#[trigger] self.map.spec_slot_state(
                                    j,
                                )) is Full && self.map.spec_key_at(j) == k@;
                            self.map.lemma_distinct_at(j, i as int);
                        }
                    }
                    self.emitted = Ghost(self.emitted@.push(k@));
                    return Some((k, v));
                }
                None => {
                    proof {
                        self.map.lemma_keys_upto_skip(i as int, i as int + 1);
                    }
                    self.current = i + 1;
                }
            }
        }
        proof {
            self.map.lemma_enumeration_distinct();
        }
        None
    }

    /// Bounds on how many pairs are still to come: the table's length is
    /// an upper bound.
    pub fn size_hint(&self) -> (r: (usize, Option<usize>))
        requires
            self.wf_iter(),
        ensures
            r.0 as int == self.spec_map().spec_len(),
            r.1 == Some(r.0),
    {
        (self.map.len(), Some(self.map.len()))
    }
}

/// Exclusive iteration: a cursor over the slots that yields, one slot at
/// a time, the key shared and the value mutably.  The cursor holds no
/// borrow itself; each step takes the table afresh, so the borrow of a
/// yielded value must end before the next step.
pub struct IterMut {
    current: usize,
}

impl IterMut {
    /// The next slot the cursor will look at.
    pub closed spec fn spec_current(&self) -> int {
        self.current as int
    }

    pub(crate) fn new() -> (r: Self)
        ensures
            r.spec_current() == 0,
    {
        IterMut { current: 0 }
    }

    /// The key of the first full slot at or after the cursor, and a
    /// mutable borrow of its value; the cursor comes to rest just past
    /// that slot.  Whatever the caller writes through the borrow, the
    /// table stays well-formed and its map changes at that key alone.
    /// `None` comes exactly when no full slot remains, so driving the
    /// cursor from zero to `None` visits every live slot once.
    pub fn next<'m, K: MapKey, V, S: BuildHasherExt>(
        &mut self,
        map: &'m mut F14VectorMap<K, V, S>,
    ) -> (r: Option<(&'m K, &'m mut V)>)
        requires
            old(map).wf(),
        ensures
            final(map).wf(),
            final(map).spec_capacity() == old(map).spec_capacity(),
            final(map).spec_group_count() == old(map).spec_group_count(),
            final(map).spec_len() == old(map).spec_len(),
            final(map).spec_deleted() == old(map).spec_deleted(),
            final(self).spec_current() >= old(self).spec_current(),
            forall|i: int| final(map).spec_slot_state(i) == old(map).spec_slot_state(i),
            forall|i: int|
                0 <= i < old(map).spec_capacity() ==> final(map).spec_key_at(i) == old(
                    map,
                ).spec_key_at(i),
            match r {
                Some((k, v)) => {
                    &&& old(self).spec_current() < final(self).spec_current() <= old(
                        map,
                    ).spec_capacity()
                    &&& old(map).spec_slot_state(final(self).spec_current() - 1) is Full
                    &&& k@ == old(map).spec_key_at(final(self).spec_current() - 1)
                    &&& forall|i: int|
                        old(self).spec_current() <= i < final(self).spec_current() - 1
                            ==> !(#[trigger] old(map).spec_slot_state(i) is Full)
                    &&& old(map)@.dom().contains(k@)
                    &&& *v == old(map)@[k@]
                    &&& final(map)@ == old(map)@.insert(k@, *final(v))
                },
                None => {
                    &&& *final(map) == *old(map)
                    &&& final(self).spec_current() >= old(map).spec_capacity()
                    &&& forall|i: int|
                        old(self).spec_current() <= i < old(map).spec_capacity()
                            ==> !(#[trigger] old(map).spec_slot_state(i) is Full)
                },
            },
    {
        while self.current < map.capacity()
            invariant
                map.wf(),
                *map == *old(map),
                self.current >= old(self).current,
                forall|i: int|
                    old(self).spec_current() <= i < self.current ==> !(#[trigger] map
                        .spec_slot_state(i) is Full),
            decreases map.spec_capacity() - self.current,
        {
            let i = self.current;
            self.current = i + 1;
            let st = map.slot_state(i);
            if matches!(st, SlotState::Full) {
                proof {
                    map.lemma_entry_in_map(i as int);
                }
                let (k, v) = map.entry_mut(i);
                return Some((k, v));
            }
        }
        None
    }

    /// Bounds on how many pairs are still to come: the table's length is
    /// an upper bound.
    pub fn size_hint<K: MapKey, V, S: BuildHasherExt>(
        &self,
        map: &F14VectorMap<K, V, S>,
    ) -> (r: (usize, Option<usize>))
        ensures
            r.0 as int == map.spec_len(),
            r.1 == Some(r.0),
    {
        (map.len(), Some(map.len()))
    }
}

/// Consuming iteration: owns every pair of the table it was built from
/// and yields them one by one.
pub struct IntoIter<K: MapKey, V, S: BuildHasherExt> {
    pairs: Vec<(K, V)>,
    marker: core::marker::PhantomData<S>,
}

impl<K: MapKey, V, S: BuildHasherExt> IntoIter<K, V, S> {
    /// The pairs still to be yielded.
    pub closed spec fn spec_pairs(&self) -> Seq<(K, V)> {
        self.pairs@
    }

    pub(crate) fn new(map: F14VectorMap<K, V, S>) -> (r: Self)
        requires
            map.wf(),
        ensures
            distinct_pair_keys(r.spec_pairs()),
            pairs_map(r.spec_pairs()) == map@,
            r.spec_pairs().len() == map.spec_len(),
    {
        let mut map = map;
        let pairs = map.take_all_pairs();
        IntoIter { pairs, marker: core::marker::PhantomData }
    }

    /// The next owned pair, until none remain.
    pub fn next(&mut self) -> (r: Option<(K, V)>)
        ensures
            match r {
                Some(p) => {
                    &&& old(self).spec_pairs().len() > 0
                    &&& p == old(self).spec_pairs().last()
                    &&& final(self).spec_pairs() == old(self).spec_pairs().drop_last()
                },
                None => {
                    &&& old(self).spec_pairs().len() == 0
                    &&& final(self).spec_pairs() == old(self).spec_pairs()
                },
            },
    {
        self.pairs.pop()
    }

    /// Bounds on how many pairs are still to come; exact for this
    /// iterator.
    pub fn size_hint(&self) -> (r: (usize, Option<usize>))
        ensures
            r.0 as int == self.spec_pairs().len(),
            r.1 == Some(r.0),
    {
        (self.pairs.len(), Some(self.pairs.len()))
    }

    /// Exactly how many pairs are still to come.
    pub fn len(&self) -> (r: usize)
        ensures
            r as int == self.spec_pairs().len(),
    {
        self.pairs.len()
    }
}

impl<K: MapKey, V, S: BuildHasherExt> F14VectorMap<K, V, S> {
    /// Iterate over borrowed pairs.
    pub fn iter(&self) -> (it: Iter<'_, K, V, S>)
        requires
            self.wf(),
        ensures
            it.wf_iter(),
            it.spec_emitted() == Seq::<K::V>::empty(),
            it.spec_map() == *self,
    {
        Iter::new(self)
    }

    /// Start an exclusive iteration: a cursor whose `next` takes the
    /// table and yields each value mutably in turn.
    pub fn iter_mut(&mut self) -> (it: IterMut)
        requires
            old(self).wf(),
        ensures
            *final(self) == *old(self),
            it.spec_current() == 0,
    {
        IterMut::new()
    }

    /// Consume the table, yielding every pair by value.  It yields
    /// exactly as many pairs as the table held.
    pub fn into_iter(self) -> (it: IntoIter<K, V, S>)
        requires
            self.wf(),
        ensures
            distinct_pair_keys(it.spec_pairs()),
            pairs_map(it.spec_pairs()) == self@,
            it.spec_pairs().len() == self.spec_len(),
    {
        IntoIter::new(self)
    }
}

} // verus!
