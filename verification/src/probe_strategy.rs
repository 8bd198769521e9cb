//! A standalone probe-position generator: linear within a chunk for its
//! first few slots, double-hashing between chunks.

use vstd::prelude::*;

use crate::simd_utils::CHUNK_SIZE;

verus! {

/// How many slots of each chunk the strategy probes before moving on.
pub const IN_GROUP_LIMIT: usize = 4;

/// A probe-position generator that tries the first `IN_GROUP_LIMIT` slots
/// of each chunk in order, then steps to the next chunk by a fixed odd
/// stride, giving up after twice the chunk count of chunk moves.
pub struct HybridProbeStrategy {
    group_index: usize,
    group_count: usize,
    step: usize,
    group_probe_count: usize,
    global_probe_count: usize,
}

impl HybridProbeStrategy {
    /// The chunk the strategy currently probes.
    pub closed spec fn spec_group_index(&self) -> int {
        self.group_index as int
    }

    /// The total number of chunks.
    pub closed spec fn spec_group_count(&self) -> int {
        self.group_count as int
    }

    /// The stride added between chunks.
    pub closed spec fn spec_step(&self) -> int {
        self.step as int
    }

    /// How many slots of the current chunk were probed already.
    pub closed spec fn spec_group_probe_count(&self) -> int {
        self.group_probe_count as int
    }

    /// How many chunk moves happened already.
    pub closed spec fn spec_global_probe_count(&self) -> int {
        self.global_probe_count as int
    }

    /// The strategy's fields are in range for index arithmetic.
    pub closed spec fn wf(&self) -> bool {
        &&& 1 <= self.group_count as int <= MAX_GROUPS as int
        &&& (self.group_index as int) < self.group_count as int
        &&& self.group_probe_count as int <= IN_GROUP_LIMIT as int
        &&& self.step as int <= self.group_count as int
    }

    /// Start a walk at the chunk containing absolute slot `initial_group`,
    /// over `group_count` chunks, stepping by `step` chunks at a time.
    pub fn new(initial_group: usize, group_count: usize, step: usize) -> (r: Self)
        requires
            1 <= group_count,
            group_count as int <= MAX_GROUPS as int,
            (initial_group as int) < (group_count as int) * 16,
            step as int <= group_count as int,
        ensures
            r.wf(),
            r.spec_group_index() == initial_group as int / 16,
            r.spec_group_count() == group_count as int,
            r.spec_step() == step as int,
            r.spec_group_probe_count() == 0,
            r.spec_global_probe_count() == 0,
    {
        let group_index = initial_group / CHUNK_SIZE;
        proof {
            assert(initial_group as int / 16 < group_count as int) by (nonlinear_arith)
                requires
                    (initial_group as int) < (group_count as int) * 16,
                    group_count as int >= 1,
            ;
        }
        HybridProbeStrategy {
            group_index,
            group_count,
            step,
            group_probe_count: 0,
            global_probe_count: 0,
        }
    }

    /// The next absolute slot index to probe: the next unprobed slot of
    /// the current chunk while fewer than `IN_GROUP_LIMIT` of its slots
    /// were probed, otherwise the first slot of the chunk `step` further
    /// on; `None` exactly once twice the chunk count of chunk moves have
    /// happened.
    pub fn next(&mut self) -> (r: Option<usize>)
        requires
            old(self).wf(),
        ensures
            final(self).wf(),
            final(self).spec_group_count() == old(self).spec_group_count(),
            final(self).spec_step() == old(self).spec_step(),
            // A spent budget is the only reason to stop, and stopping
            // changes nothing but (at most) one chunk move.
            r is None ==> old(self).spec_global_probe_count() + 1 >= 2 * old(
                self,
            ).spec_group_count(),
            // Before the budget: walk the current chunk linearly through
            // its first IN_GROUP_LIMIT slots ...
            old(self).spec_group_probe_count() < IN_GROUP_LIMIT as int && old(
                self,
            ).spec_global_probe_count() < 2 * old(self).spec_group_count() ==> {
                &&& r is Some
                &&& final(self).spec_group_index() == old(self).spec_group_index()
                &&& final(self).spec_group_probe_count() == old(
                    self,
                ).spec_group_probe_count() + 1
                &&& final(self).spec_global_probe_count() == old(
                    self,
                ).spec_global_probe_count()
            },
            // ... then move one stride of chunks on, counting the move.
            old(self).spec_group_probe_count() >= IN_GROUP_LIMIT as int && old(
                self,
            ).spec_global_probe_count() < 2 * old(self).spec_group_count() ==> {
                &&& final(self).spec_group_index() == (old(self).spec_group_index() + old(
                    self,
                ).spec_step()) % old(self).spec_group_count()
                &&& final(self).spec_global_probe_count() == old(
                    self,
                ).spec_global_probe_count() + 1
                &&& (r is Some ==> final(self).spec_group_probe_count() == 1)
                &&& (r is None ==> final(self).spec_group_probe_count() == 0)
            },
            // Past the budget, the strategy is inert.
            old(self).spec_global_probe_count() >= 2 * old(self).spec_group_count() ==> r
                is None && *final(self) == *old(self),
            match r {
                Some(i) => {
                    &&& (i as int) == final(self).spec_group_index() * 16
                        + final(self).spec_group_probe_count() - 1
                    &&& (i as int) % 16 == final(self).spec_group_probe_count() - 1
                    &&& 1 <= final(self).spec_group_probe_count() <= IN_GROUP_LIMIT as int
                    &&& (i as int) < final(self).spec_group_count() * 16
                    &&& old(self).spec_global_probe_count()
                        <= final(self).spec_global_probe_count()
                    &&& final(self).spec_global_probe_count()
                        <= old(self).spec_global_probe_count() + 1
                },
                None => final(self).spec_global_probe_count()
                    >= 2 * final(self).spec_group_count(),
            },
    {
        if self.global_probe_count >= self.group_count * 2 {
            return None;
        }
        if self.group_probe_count < IN_GROUP_LIMIT {
            let slot_in_group = self.group_probe_count;
            self.group_probe_count = self.group_probe_count + 1;
            proof {
                assert(
                    (self.group_index as int) * 16 + (self.group_probe_count as int - 1)
                        < (self.group_count as int) * 16) by (nonlinear_arith)
                    requires
                        (self.group_index as int) < self.group_count as int,
                        self.group_probe_count as int - 1 < 16,
                        0 <= self.group_probe_count as int - 1,
                ;
                assert((self.group_index as int) * 16 <= (MAX_GROUPS as int) * 16)
                    by (nonlinear_arith)
                    requires (self.group_index as int) <= MAX_GROUPS as int,
                ;
                vstd::arithmetic::div_mod::lemma_mod_multiples_vanish(
                    self.group_index as int,
                    self.group_probe_count as int - 1,
                    16,
                );
                vstd::arithmetic::div_mod::lemma_small_mod(
                    (self.group_probe_count - 1) as nat,
                    16,
                );
            }
            let absolute_index = self.group_index * CHUNK_SIZE + slot_in_group;
            return Some(absolute_index);
        }
        self.global_probe_count = self.global_probe_count + 1;
        self.group_index = (self.group_index + self.step) % self.group_count;
        self.group_probe_count = 0;
        if self.global_probe_count >= self.group_count * 2 {
            return None;
        }
        let slot_in_group = self.group_probe_count;
        self.group_probe_count = self.group_probe_count + 1;
        proof {
            assert(
                (self.group_index as int) * 16 + (self.group_probe_count as int - 1) < (
                self.group_count as int) * 16) by (nonlinear_arith)
                requires
                    (self.group_index as int) < self.group_count as int,
                    self.group_probe_count as int - 1 < 16,
                    0 <= self.group_probe_count as int - 1,
            ;
            assert((self.group_index as int) * 16 <= (MAX_GROUPS as int) * 16)
                by (nonlinear_arith)
                requires (self.group_index as int) <= MAX_GROUPS as int,
            ;
            vstd::arithmetic::div_mod::lemma_mod_multiples_vanish(
                self.group_index as int,
                self.group_probe_count as int - 1,
                16,
            );
            vstd::arithmetic::div_mod::lemma_small_mod(
                (self.group_probe_count - 1) as nat,
                16,
            );
        }
        let absolute_index = self.group_index * CHUNK_SIZE + slot_in_group;
        Some(absolute_index)
    }
}

/// The most chunks a strategy may walk over, matching the table's largest
/// capacity.
pub const MAX_GROUPS: usize = usize::MAX / 512;

} // verus!
