//! Table storage: one contiguous column per table-stored component of an
//! archetype. All columns have the same length at all times; row `r` across
//! all columns belongs to one entity. Rows are removed by swap-remove, so
//! removing one row can relocate the last row; the relocated entity is
//! returned so the location index can be corrected.

use vstd::prelude::*;
use crate::component_set::sorted_strict;

verus! {

/// One storage slot: a component value as an owned byte string, with the
/// change-detection ticks stamped when the value was first added and last
/// written.
#[derive(Debug)]
pub struct Slot {
    pub value: Vec<u8>,
    pub added: u64,
    pub changed: u64,
}

/// A copy of a byte string, element by element.
pub fn clone_bytes(v: &Vec<u8>) -> (r: Vec<u8>)
    ensures
        r@ == v@,
{
    let mut r: Vec<u8> = Vec::new();
    let mut k: usize = 0;
    while k < v.len()
        invariant
            k <= v@.len(),
            r@ == v@.subrange(0, k as int),
        decreases v@.len() - k,
    {
        r.push(v[k]);
        assert(r@ =~= v@.subrange(0, k + 1));
        k = k + 1;
    }
    assert(r@ =~= v@);
    r
}

/// The columnar store of one archetype's table-backed components.
pub struct Table {
    pub comp_ids: Vec<usize>,
    pub columns: Vec<Vec<Slot>>,
    pub entities: Vec<usize>,
}

impl Table {
    pub open spec fn rows(self) -> nat {
        self.entities@.len()
    }

    pub open spec fn has_comp(self, c: usize) -> bool {
        self.comp_ids@.contains(c)
    }

    /// The column that holds component `c`; meaningful only when `has_comp`.
    pub open spec fn col_index(self, c: usize) -> int {
        self.comp_ids@.index_of(c)
    }

    pub open spec fn spec_slot(self, c: usize, r: int) -> Slot {
        self.columns@[self.col_index(c)]@[r]
    }

    /// Every column as long as the entity list, columns keyed by a canonical
    /// component set.
    pub open spec fn wf(self) -> bool {
        &&& sorted_strict(self.comp_ids@)
        &&& self.columns@.len() == self.comp_ids@.len()
        &&& forall|j: int|
            0 <= j < self.columns@.len() ==> self.columns@[j]@.len() == self.entities@.len()
    }

    /// In a canonical component list the column of `c` is the one position
    /// that holds `c`.
    pub proof fn lemma_col_index(self, c: usize, j: int)
        requires
            sorted_strict(self.comp_ids@),
            0 <= j < self.comp_ids@.len(),
            self.comp_ids@[j] == c,
        ensures
            self.col_index(c) == j,
            self.has_comp(c),
    {
        assert(self.comp_ids@.contains(c));
        let j0 = self.comp_ids@.index_of(c);
        assert(self.comp_ids@[j0] == c);
        if j0 < j {
            assert(self.comp_ids@[j0] < self.comp_ids@[j]);
        }
        if j < j0 {
            assert(self.comp_ids@[j] < self.comp_ids@[j0]);
        }
    }

    /// An empty table for the given canonical component set.
    pub fn new(comp_ids: Vec<usize>) -> (r: Self)
        requires
            sorted_strict(comp_ids@),
        ensures
            r.wf(),
            r.comp_ids@ == comp_ids@,
            r.rows() == 0,
    {
        let n = comp_ids.len();
        let mut columns: Vec<Vec<Slot>> = Vec::new();
        let mut k: usize = 0;
        while k < n
            invariant
                k <= n,
                columns@.len() == k,
                forall|j: int| 0 <= j < k ==> columns@[j]@.len() == 0,
            decreases n - k,
        {
            columns.push(Vec::new());
            k = k + 1;
        }
        Table { comp_ids, columns, entities: Vec::new() }
    }

    pub fn row_count(&self) -> (r: usize)
        ensures
            r == self.rows(),
    {
        self.entities.len()
    }

    pub fn entity_at(&self, r: usize) -> (e: usize)
        requires
            r < self.rows(),
        ensures
            e == self.entities@[r as int],
    {
        self.entities[r]
    }

    /// The column holding component `c`, if the table has one for it.
    pub fn find_col(&self, c: usize) -> (r: Option<usize>)
        requires
            sorted_strict(self.comp_ids@),
        ensures
            match r {
                Some(j) => j < self.comp_ids@.len() && self.comp_ids@[j as int] == c
                    && self.col_index(c) == j && self.has_comp(c),
                None => !self.has_comp(c),
            },
    {
        let mut k: usize = 0;
        while k < self.comp_ids.len()
            invariant
                k <= self.comp_ids@.len(),
                sorted_strict(self.comp_ids@),
                forall|j: int| 0 <= j < k ==> self.comp_ids@[j] != c,
            decreases self.comp_ids@.len() - k,
        {
            if self.comp_ids[k] == c {
                proof {
                    self.lemma_col_index(c, k as int);
                }
                return Some(k);
            }
            k = k + 1;
        }
        None
    }

    /// Appends one blank row for the entity at the end of every column and
    /// returns its row number.
    pub fn allocate_row(&mut self, ent: usize) -> (r: usize)
        requires
            old(self).wf(),
        ensures
            final(self).wf(),
            r == old(self).rows(),
            final(self).rows() == old(self).rows() + 1,
            final(self).comp_ids@ == old(self).comp_ids@,
            final(self).entities@ == old(self).entities@.push(ent),
            forall|j: int, r2: int|
                0 <= j < old(self).columns@.len() && 0 <= r2 < old(self).rows() ==> final(self).columns@[j]@[r2] == old(self).columns@[j]@[r2],
            forall|j: int|
                0 <= j < final(self).columns@.len() ==> {
                    &&& final(self).columns@[j]@[old(self).rows() as int].value@ == Seq::<
                        u8,
                    >::empty()
                    &&& final(self).columns@[j]@[old(self).rows() as int].added == 0
                    &&& final(self).columns@[j]@[old(self).rows() as int].changed == 0
                },
    {
        let r = self.entities.len();
        self.entities.push(ent);
        let n = self.columns.len();
        let mut k: usize = 0;
        while k < n
            invariant
                k <= n,
                n == self.columns@.len(),
                n == old(self).columns@.len(),
                self.comp_ids@ == old(self).comp_ids@,
                self.entities@ == old(self).entities@.push(ent),
                forall|j: int| k <= j < n ==> self.columns@[j] == old(self).columns@[j],
                forall|j: int|
                    0 <= j < k ==> self.columns@[j]@.len() == old(self).columns@[j]@.len() + 1,
                forall|j: int, r2: int|
                    0 <= j < k && 0 <= r2 < old(self).columns@[j]@.len() ==> self.columns@[j]@[r2]
                        == old(self).columns@[j]@[r2],
                forall|j: int|
                    0 <= j < k ==> {
                        &&& self.columns@[j]@.last().value@ == Seq::<u8>::empty()
                        &&& self.columns@[j]@.last().added == 0
                        &&& self.columns@[j]@.last().changed == 0
                    },
            decreases n - k,
        {
            self.columns[k].push(Slot { value: Vec::new(), added: 0, changed: 0 });
            k = k + 1;
        }
        r
    }

    /// Writes one component value into a column slot.
    pub fn write_column(&mut self, j: usize, r: usize, value: Vec<u8>, added: u64, changed: u64)
        requires
            old(self).wf(),
            j < old(self).columns@.len(),
            r < old(self).rows(),
        ensures
            final(self).wf(),
            final(self).comp_ids@ == old(self).comp_ids@,
            final(self).entities@ == old(self).entities@,
            forall|j2: int|
                0 <= j2 < old(self).columns@.len() && j2 != j ==> final(self).columns@[j2] == old(self).columns@[j2],
            forall|r2: int|
                0 <= r2 < old(self).rows() && r2 != r ==> final(self).columns@[j as int]@[r2]
                    == old(self).columns@[j as int]@[r2],
            final(self).columns@[j as int]@.len() == old(self).columns@[j as int]@.len(),
            final(self).columns@[j as int]@[r as int].value@ == value@,
            final(self).columns@[j as int]@[r as int].added == added,
            final(self).columns@[j as int]@[r as int].changed == changed,
    {
        self.columns[j][r] = Slot { value, added, changed };
    }

    /// An owned copy of a column slot.
    pub fn copy_slot(&self, j: usize, r: usize) -> (s: Slot)
        requires
            self.wf(),
            j < self.columns@.len(),
            r < self.rows(),
        ensures
            s.value@ == self.columns@[j as int]@[r as int].value@,
            s.added == self.columns@[j as int]@[r as int].added,
            s.changed == self.columns@[j as int]@[r as int].changed,
    {
        let slot = &self.columns[j][r];
        Slot { value: clone_bytes(&slot.value), added: slot.added, changed: slot.changed }
    }

    /// A borrow of a column slot.
    pub fn slot_at(&self, j: usize, r: usize) -> (s: &Slot)
        requires
            self.wf(),
            j < self.columns@.len(),
            r < self.rows(),
        ensures
            *s == self.columns@[j as int]@[r as int],
    {
        &self.columns[j][r]
    }

    /// Removes row `r` by moving the last row into its place across every
    /// column, and returns the entity that now occupies row `r`, if any.
    /// The dropped slots release their byte strings here.
    pub fn swap_remove_row(&mut self, r: usize) -> (moved: Option<usize>)
        requires
            old(self).wf(),
            r < old(self).rows(),
        ensures
            final(self).wf(),
            final(self).comp_ids@ == old(self).comp_ids@,
            final(self).rows() == old(self).rows() - 1,
            final(self).entities@ == old(self).entities@.update(
                r as int,
                old(self).entities@.last(),
            ).drop_last(),
            forall|j: int|
                0 <= j < old(self).columns@.len() ==> final(self).columns@[j]@ == old(self).columns@[j]@.update(r as int, old(self).columns@[j]@.last()).drop_last(),
            moved == if r + 1 == old(self).rows() {
                Option::<usize>::None
            } else {
                Option::<usize>::Some(old(self).entities@.last())
            },
    {
        let last = self.entities.len() - 1;
        let moved: Option<usize> = if r == last {
            None
        } else {
            Some(self.entities[last])
        };
        let _ent = self.entities.swap_remove(r);
        let n = self.columns.len();
        let mut k: usize = 0;
        while k < n
            invariant
                k <= n,
                n == self.columns@.len(),
                n == old(self).columns@.len(),
                r < old(self).rows(),
                self.comp_ids@ == old(self).comp_ids@,
                self.entities@ == old(self).entities@.update(
                    r as int,
                    old(self).entities@.last(),
                ).drop_last(),
                forall|j: int| k <= j < n ==> self.columns@[j] == old(self).columns@[j],
                forall|j: int|
                    0 <= j < k ==> self.columns@[j]@ == old(self).columns@[j]@.update(
                        r as int,
                        old(self).columns@[j]@.last(),
                    ).drop_last(),
                forall|j: int| 0 <= j < n ==> old(self).columns@[j]@.len() == old(self).rows(),
            decreases n - k,
        {
            let _slot = self.columns[k].swap_remove(r);
            k = k + 1;
        }
        moved
    }
}

} // verus!
