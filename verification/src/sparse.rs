//! Sparse-set storage: one per component type flagged for sparse storage,
//! shared across archetypes. A dense array of values is paired with an index
//! array keyed by entity index; removal swap-removes from the dense array and
//! fixes up the index of the relocated element.

use vstd::prelude::*;
use crate::table::{clone_bytes, Slot};

verus! {

/// One dense-array element: the owning entity's index and its stored slot.
#[derive(Debug)]
pub struct SparseEntry {
    pub entity: usize,
    pub slot: Slot,
}

/// The shared store for one sparse-backed component type.
#[derive(Debug)]
pub struct SparseSet {
    pub dense: Vec<SparseEntry>,
    pub sparse: Vec<Option<usize>>,
}

impl SparseSet {
    /// Whether the entity index has a value here.
    pub open spec fn spec_contains(self, i: int) -> bool {
        0 <= i < self.sparse@.len() && self.sparse@[i] is Some
    }

    pub open spec fn dense_index(self, i: int) -> int {
        self.sparse@[i]->Some_0 as int
    }

    /// The slot stored for the entity index; meaningful only when
    /// `spec_contains`.
    pub open spec fn spec_slot(self, i: int) -> Slot {
        self.dense@[self.dense_index(i)].slot
    }

    /// The index array and the dense array point at each other.
    pub open spec fn wf(self) -> bool {
        &&& forall|d: int|
            0 <= d < self.dense@.len() ==> {
                &&& (#[trigger] self.dense@[d]).entity < self.sparse@.len()
                &&& self.sparse@[self.dense@[d].entity as int] == Some(d as usize)
            }
        &&& forall|i: int|
            0 <= i < self.sparse@.len() && (#[trigger] self.sparse@[i]) is Some ==> {
                &&& self.dense_index(i) < self.dense@.len()
                &&& self.dense@[self.dense_index(i)].entity == i
            }
    }

    pub fn new() -> (r: Self)
        ensures
            r.wf(),
            forall|i: int| !r.spec_contains(i),
    {
        SparseSet { dense: Vec::new(), sparse: Vec::new() }
    }

    /// Whether the entity index has a value here, in constant time.
    pub fn contains(&self, i: usize) -> (r: bool)
        ensures
            r == self.spec_contains(i as int),
    {
        i < self.sparse.len() && self.sparse[i].is_some()
    }

    /// Inserts or overwrites the value for the entity index. A fresh value
    /// is stamped `added = changed = tick`; an overwrite keeps the original
    /// `added` stamp and sets `changed = tick`.
    pub fn insert(&mut self, i: usize, value: Vec<u8>, tick: u64)
        requires
            old(self).wf(),
        ensures
            final(self).wf(),
            final(self).spec_contains(i as int),
            final(self).spec_slot(i as int).value@ == value@,
            final(self).spec_slot(i as int).changed == tick,
            final(self).spec_slot(i as int).added == if old(self).spec_contains(i as int) {
                old(self).spec_slot(i as int).added
            } else {
                tick
            },
            forall|j: int|
                j != i ==> final(self).spec_contains(j) == old(self).spec_contains(j),
            forall|j: int|
                j != i && old(self).spec_contains(j) ==> final(self).spec_slot(j) == old(self).spec_slot(j),
    {
        while self.sparse.len() <= i
            invariant
                old(self).wf(),
                self.dense@ == old(self).dense@,
                self.sparse@.len() >= old(self).sparse@.len(),
                forall|j: int|
                    0 <= j < self.sparse@.len() ==> self.sparse@[j] == if j < old(self).sparse@.len() {
                        old(self).sparse@[j]
                    } else {
                        Option::<usize>::None
                    },
            decreases i + 1 - self.sparse@.len(),
        {
            self.sparse.push(None);
        }
        proof {
            assert forall|d: int|
                0 <= d < self.dense@.len() implies (#[trigger] self.dense@[d]).entity
                < self.sparse@.len() && self.sparse@[self.dense@[d].entity as int] == Some(
                d as usize,
            ) by {
                assert(old(self).sparse@[old(self).dense@[d].entity as int] == Some(d as usize));
            }
        }
        let existing = self.sparse[i];
        match existing {
            Some(d) => {
                proof {
                    assert(self.sparse@[i as int] == Some(d));
                    assert(i < old(self).sparse@.len());
                    assert(old(self).sparse@[i as int] == Some(d));
                    assert(old(self).dense_index(i as int) == d as int);
                    assert(d < self.dense@.len());
                    assert(self.dense@[d as int].entity == i);
                }
                let added = self.dense[d].slot.added;
                let ghost before = *self;
                self.dense[d].slot = Slot { value, added, changed: tick };
                proof {
                    assert forall|d2: int|
                        0 <= d2 < self.dense@.len() && d2 != d implies self.dense@[d2]
                        == before.dense@[d2] by {}
                    assert(self.dense@[d as int].entity == i);
                    assert(self.spec_contains(i as int));
                    assert(self.dense_index(i as int) == d as int);
                }
            },
            None => {
                let d = self.dense.len();
                self.sparse[i] = Some(d);
                self.dense.push(
                    SparseEntry { entity: i, slot: Slot { value, added: tick, changed: tick } },
                );
                proof {
                    assert(self.sparse@[i as int] == Some(d));
                    assert(self.dense@[d as int].entity == i);
                    assert forall|j: int|
                        j != i && old(self).spec_contains(j) implies self.spec_slot(j) == old(
                        self,
                    ).spec_slot(j) by {
                        assert(self.sparse@[j] == old(self).sparse@[j]);
                        assert(old(self).dense_index(j) < old(self).dense@.len());
                    }
                }
            },
        }
    }

    /// Takes the value for the entity index out, if there is one, fixing up
    /// the index of the dense element relocated by the swap-remove.
    pub fn remove(&mut self, i: usize) -> (r: Option<Vec<u8>>)
        requires
            old(self).wf(),
        ensures
            final(self).wf(),
            !final(self).spec_contains(i as int),
            match r {
                Some(v) => old(self).spec_contains(i as int) && v@ == old(self).spec_slot(
                    i as int,
                ).value@,
                None => !old(self).spec_contains(i as int) && final(self).dense@ == old(self).dense@ && final(self).sparse@ == old(self).sparse@,
            },
            forall|j: int|
                j != i ==> final(self).spec_contains(j) == old(self).spec_contains(j),
            forall|j: int|
                j != i && old(self).spec_contains(j) ==> final(self).spec_slot(j) == old(self).spec_slot(j),
    {
        if i >= self.sparse.len() {
            return None;
        }
        let existing = self.sparse[i];
        match existing {
            None => None,
            Some(d) => {
                proof {
                    assert(old(self).sparse@[i as int] == Some(d));
                    assert(old(self).dense_index(i as int) == d as int);
                    assert(d < self.dense@.len());
                    assert(self.dense@[d as int].entity == i);
                }
                let ghost od = self.dense@;
                let ghost last: int = od.len() - 1;
                let entry = self.dense.swap_remove(d);
                if d < self.dense.len() {
                    proof {
                        assert(d != last);
                        assert(self.dense@[d as int] == od[last]);
                        assert(od[last].entity < self.sparse@.len());
                        assert(self.sparse@[od[last].entity as int] == Some(last as usize));
                        assert(od[last].entity != i);
                    }
                    let moved = self.dense[d].entity;
                    self.sparse[moved] = Some(d);
                }
                self.sparse[i] = None;
                proof {
                    assert forall|d2: int|
                        0 <= d2 < self.dense@.len() implies (#[trigger] self.dense@[d2]).entity
                        < self.sparse@.len() && self.sparse@[self.dense@[d2].entity as int] == Some(
                        d2 as usize,
                    ) by {
                        if d2 == d && d < self.dense@.len() {
                            assert(self.dense@[d2] == od[last]);
                        } else {
                            assert(self.dense@[d2] == od[d2]);
                            assert(old(self).sparse@[od[d2].entity as int] == Some(d2 as usize));
                            assert(od[d2].entity != i);
                            if d < self.dense@.len() {
                                assert(od[d2].entity != od[last].entity);
                            }
                        }
                    }
                    assert forall|i2: int|
                        0 <= i2 < self.sparse@.len() && (#[trigger] self.sparse@[i2]) is Some
                        implies self.dense_index(i2) < self.dense@.len() && self.dense@[self.dense_index(
                        i2,
                    )].entity == i2 by {
                        if d < self.dense@.len() && i2 == od[last].entity {
                        } else {
                            assert(self.sparse@[i2] == old(self).sparse@[i2]);
                            assert(i2 != i);
                            let d2 = old(self).dense_index(i2);
                            assert(od[d2].entity == i2);
                            assert(d2 != last || (d < self.dense@.len() && i2 == od[last].entity)
                                || d == last);
                            assert(d2 != d);
                        }
                    }
                    assert forall|j: int|
                        j != i && old(self).spec_contains(j) implies self.spec_slot(j) == old(
                        self,
                    ).spec_slot(j) by {
                        let dj = old(self).dense_index(j);
                        assert(od[dj].entity == j);
                        assert(dj != d);
                        if d < self.dense@.len() && j == od[last].entity {
                            assert(self.sparse@[j] == Some(d as usize));
                            assert(self.dense@[d as int] == od[last]);
                            assert(dj == last);
                        } else {
                            assert(self.sparse@[j] == old(self).sparse@[j]);
                            assert(dj != last);
                            assert(self.dense@[dj] == od[dj]);
                        }
                    }
                }
                Some(entry.slot.value)
            },
        }
    }

    /// A borrow of the value for the entity index.
    pub fn get(&self, i: usize) -> (r: Option<&Vec<u8>>)
        requires
            self.wf(),
        ensures
            match r {
                Some(v) => self.spec_contains(i as int) && v@ == self.spec_slot(
                    i as int,
                ).value@,
                None => !self.spec_contains(i as int),
            },
    {
        if i >= self.sparse.len() {
            return None;
        }
        match self.sparse[i] {
            None => None,
            Some(d) => Some(&self.dense[d].slot.value),
        }
    }

    /// A borrow of the full slot, ticks included.
    pub fn get_slot(&self, i: usize) -> (r: Option<&Slot>)
        requires
            self.wf(),
        ensures
            match r {
                Some(s) => self.spec_contains(i as int) && *s == self.spec_slot(i as int),
                None => !self.spec_contains(i as int),
            },
    {
        if i >= self.sparse.len() {
            return None;
        }
        match self.sparse[i] {
            None => None,
            Some(d) => Some(&self.dense[d].slot),
        }
    }

    /// An owned copy of the value for the entity index.
    pub fn copy_value(&self, i: usize) -> (r: Option<Vec<u8>>)
        requires
            self.wf(),
        ensures
            match r {
                Some(v) => self.spec_contains(i as int) && v@ == self.spec_slot(
                    i as int,
                ).value@,
                None => !self.spec_contains(i as int),
            },
    {
        match self.get(i) {
            None => None,
            Some(v) => Some(clone_bytes(v)),
        }
    }
}

} // verus!
