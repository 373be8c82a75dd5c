//! Entity identifiers and the allocator that issues and recycles them.

use vstd::prelude::*;

verus! {

/// Handle for one entity: a reusable index together with the generation under
/// which the index was issued. The handle is valid only while the allocator's
/// stored generation for that index still matches, so a handle kept across a
/// despawn is detectably stale.
#[derive(Clone, Copy, Debug, PartialEq, Eq, Hash, Structural)]
pub struct EntityId {
    pub index: usize,
    pub generation: u64,
}

/// Where a live entity's data sits: the archetype it belongs to and its row
/// in that archetype's table.
#[derive(Clone, Copy, Debug, PartialEq, Eq, Structural)]
pub struct EntityLocation {
    pub archetype: usize,
    pub row: usize,
}

/// Issues entity indices, recycles freed indices through a free list, and
/// bumps the per-index generation on every free so stale handles fail the
/// generation check. An index whose generation counter is exhausted is
/// retired instead of recycled.
pub struct EntityAllocator {
    pub generations: Vec<u64>,
    pub live: Vec<bool>,
    pub free_list: Vec<usize>,
}

impl EntityAllocator {
    /// How many indices have ever been issued.
    pub open spec fn slot_count(self) -> nat {
        self.generations@.len()
    }

    /// Whether the index currently belongs to a live entity.
    pub open spec fn index_live(self, i: int) -> bool {
        0 <= i < self.live@.len() && self.live@[i]
    }

    /// Whether the handle is valid: its index is live and its generation is
    /// the one currently stored for that index.
    pub open spec fn spec_is_live(self, e: EntityId) -> bool {
        self.index_live(e.index as int) && self.generations@[e.index as int] == e.generation
    }

    pub open spec fn wf(self) -> bool {
        &&& self.live@.len() == self.generations@.len()
        &&& forall|k: int|
            0 <= k < self.free_list@.len() ==> self.free_list@[k] < self.generations@.len()
                && !self.live@[self.free_list@[k] as int]
        &&& forall|k1: int, k2: int|
            0 <= k1 < k2 < self.free_list@.len() ==> self.free_list@[k1] != self.free_list@[k2]
    }

    pub fn new() -> (r: Self)
        ensures
            r.wf(),
            r.slot_count() == 0,
            r.free_list@.len() == 0,
    {
        EntityAllocator { generations: Vec::new(), live: Vec::new(), free_list: Vec::new() }
    }

    /// Issues a handle: a recycled index with its stored generation, or a
    /// fresh index at generation zero. Amortized constant time.
    pub fn allocate(&mut self) -> (e: EntityId)
        requires
            old(self).wf(),
        ensures
            final(self).wf(),
            final(self).spec_is_live(e),
            !old(self).index_live(e.index as int),
            e.index < final(self).slot_count(),
            final(self).slot_count() == if e.index < old(self).slot_count() {
                old(self).slot_count()
            } else {
                old(self).slot_count() + 1
            },
            e.index >= old(self).slot_count() ==> e.index == old(self).slot_count(),
            forall|i: int|
                0 <= i < old(self).slot_count() && i != e.index ==> final(self).index_live(i)
                    == old(self).index_live(i),
            forall|i: int|
                0 <= i < old(self).slot_count() ==> final(self).generations@[i] == old(
                    self,
                ).generations@[i],
            final(self).generations@[e.index as int] == e.generation,
            e.index < old(self).slot_count() ==> e.generation == old(self).generations@[e.index as int],
    {
        match self.free_list.pop() {
            Some(i) => {
                let g = self.generations[i];
                self.live[i] = true;
                EntityId { index: i, generation: g }
            },
            None => {
                let i = self.generations.len();
                self.generations.push(0);
                self.live.push(true);
                EntityId { index: i, generation: 0 }
            },
        }
    }

    /// Retires the handle: the index goes dead, its stored generation is
    /// bumped so the handle is stale, and the index is queued for reuse
    /// unless its generation counter is exhausted.
    pub fn free(&mut self, e: EntityId)
        requires
            old(self).wf(),
            old(self).spec_is_live(e),
        ensures
            final(self).wf(),
            final(self).slot_count() == old(self).slot_count(),
            !final(self).index_live(e.index as int),
            forall|i: int|
                0 <= i < old(self).slot_count() && i != e.index ==> final(self).index_live(i)
                    == old(self).index_live(i) && final(self).generations@[i] == old(
                    self,
                ).generations@[i],
            final(self).generations@[e.index as int] == if e.generation < u64::MAX {
                (e.generation + 1) as u64
            } else {
                e.generation
            },
    {
        let i = e.index;
        self.live[i] = false;
        proof {
            assert forall|k: int|
                0 <= k < self.free_list@.len() implies !self.live@[self.free_list@[k] as int] by {
                assert(old(self).free_list@[k] < old(self).generations@.len());
            }
        }
        if self.generations[i] < u64::MAX {
            self.generations[i] = self.generations[i] + 1;
            self.free_list.push(i);
        }
    }

    /// Whether the handle is valid, in constant time.
    pub fn is_live(&self, e: EntityId) -> (r: bool)
        requires
            self.wf(),
        ensures
            r == self.spec_is_live(e),
    {
        e.index < self.live.len() && self.live[e.index] && self.generations[e.index]
            == e.generation
    }
}

} // verus!
