//! Dense indexable storage with a free-list of reusable slots.
//!
//! The arena backs the engine's per-commit state table.  Slots whose
//! occupants have been proven irrelevant are returned to the pool and reused
//! before the arena ever grows, so peak memory is bounded by the maximum
//! concurrent number of live slots rather than by the number of values ever
//! allocated.

use vstd::prelude::*;

verus! {

/// Dense storage of values of type `T`, addressed by slot index, with a
/// last-in-first-out pool of freed slots.
pub struct Arena<T> {
    slots: Vec<T>,
    free: Vec<usize>,
}

impl<T> Arena<T> {
    /// The stored values, freed slots included.
    pub closed spec fn slots(self) -> Seq<T> {
        self.slots@
    }

    /// The freed slot indices, most recently freed last.
    pub closed spec fn free_list(self) -> Seq<usize> {
        self.free@
    }

    /// The free list holds distinct in-bounds slots.
    pub open spec fn wf(self) -> bool {
        &&& forall|i: int|
            0 <= i < self.free_list().len() ==> (#[trigger] self.free_list()[i])
                < self.slots().len()
        &&& forall|i: int, j: int|
            0 <= i < j < self.free_list().len() ==> self.free_list()[i] != self.free_list()[j]
    }

    /// An empty arena.
    pub fn new() -> (r: Arena<T>)
        ensures
            r.wf(),
            r.slots() == Seq::<T>::empty(),
            r.free_list() == Seq::<usize>::empty(),
    {
        Arena { slots: Vec::new(), free: Vec::new() }
    }

    /// Stores `value` in a slot, reusing the most recently freed slot if any
    /// exists and appending otherwise.
    pub fn allocate(&mut self, value: T) -> (slot: usize)
        requires
            old(self).wf(),
        ensures
            final (self).wf(),
            slot < final (self).slots().len(),
            final (self).slots()[slot as int] == value,
            !final (self).free_list().contains(slot),
            if old(self).free_list().len() > 0 {
                &&& slot == old(self).free_list().last()
                &&& final (self).slots() == old(self).slots().update(slot as int, value)
                &&& final (self).free_list() == old(self).free_list().drop_last()
            } else {
                &&& slot == old(self).slots().len()
                &&& final (self).slots() == old(self).slots().push(value)
                &&& final (self).free_list() == old(self).free_list()
            },
    {
        match self.free.pop() {
            Some(slot) => {
                self.slots.set(slot, value);
                assert(!final (self).free_list().contains(slot)) by {
                    assert(forall|i: int|
                        0 <= i < self.free@.len() ==> self.free@[i] == old(self).free@[i]);
                }
                slot
            },
            None => {
                let slot = self.slots.len();
                self.slots.push(value);
                slot
            },
        }
    }

    /// Returns `slot` to the reuse pool.
    pub fn free(&mut self, slot: usize)
        requires
            old(self).wf(),
            slot < old(self).slots().len(),
            !old(self).free_list().contains(slot),
        ensures
            final (self).wf(),
            final (self).slots() == old(self).slots(),
            final (self).free_list() == old(self).free_list().push(slot),
    {
        self.free.push(slot);
        proof {
            let nf = self.free@.len();
            assert forall|i: int|
                0 <= i < nf implies (#[trigger] self.free@[i]) < self.slots@.len() by {
                if i < nf - 1 {
                    assert(self.free@[i] == old(self).free_list()[i]);
                }
            }
            assert forall|i: int, j: int|
                0 <= i < j < nf implies self.free@[i] != self.free@[j] by {
                if j < nf - 1 {
                    assert(self.free@[i] == old(self).free_list()[i]);
                    assert(self.free@[j] == old(self).free_list()[j]);
                } else {
                    assert(self.free@[i] == old(self).free_list()[i]);
                    assert(!old(self).free_list().contains(slot));
                }
            }
        }
    }

    /// The number of slots ever allocated, freed slots included.
    pub fn len(&self) -> (r: usize)
        ensures
            r == self.slots().len(),
    {
        self.slots.len()
    }

    /// The value stored in `slot`.
    pub fn get(&self, slot: usize) -> (r: &T)
        requires
            slot < self.slots().len(),
        ensures
            *r == self.slots()[slot as int],
    {
        &self.slots[slot]
    }

    /// Replaces the value stored in `slot`.
    pub fn set(&mut self, slot: usize, value: T)
        requires
            old(self).wf(),
            slot < old(self).slots().len(),
        ensures
            final (self).wf(),
            final (self).slots() == old(self).slots().update(slot as int, value),
            final (self).free_list() == old(self).free_list(),
    {
        self.slots.set(slot, value);
        proof {
            assert(self.slots@.len() == old(self).slots@.len());
            assert forall|i: int|
                0 <= i < self.free_list().len() implies (#[trigger] self.free_list()[i])
                < self.slots().len() by {
                assert(self.free_list()[i] == old(self).free_list()[i]);
            }
            assert forall|i: int, j: int|
                0 <= i < j < self.free_list().len() implies self.free_list()[i]
                != self.free_list()[j] by {
                assert(self.free_list()[i] == old(self).free_list()[i]);
                assert(self.free_list()[j] == old(self).free_list()[j]);
            }
        }
    }
}

} // verus!
