//! The query engine: a query shape names the component ids that must be
//! present, those that must be absent, and the subset of the required ids
//! whose change ticks are filtered against a caller-supplied tick. Matching
//! archetypes are cached per shape and the cache is only ever extended as
//! new archetypes appear; a run walks the matching tables and yields the
//! handles of the entities that pass the change filter.

use vstd::prelude::*;
use crate::component_set::{canonical_ids, disjoint_with, sorted_strict, subset_of};
use crate::entity::EntityId;
use crate::world::World;

verus! {

/// Why a query shape was refused at build time, before any iteration.
#[derive(Clone, Copy, Debug, PartialEq, Eq, Structural)]
pub enum QueryError {
    /// A component id is both required and excluded.
    Conflict,
    /// A change filter names a component id that is not required.
    FilterNotRequired,
}

/// The compiled shape of a query, held in canonical form.
pub struct QueryShape {
    pub required: Vec<usize>,
    pub excluded: Vec<usize>,
    pub changed_filtered: Vec<usize>,
}

impl QueryShape {
    pub open spec fn wf(self) -> bool {
        &&& sorted_strict(self.required@)
        &&& sorted_strict(self.excluded@)
        &&& sorted_strict(self.changed_filtered@)
        &&& forall|x: usize| #[trigger] self.required@.contains(x) ==> !self.excluded@.contains(x)
        &&& forall|x: usize|
            #[trigger] self.changed_filtered@.contains(x) ==> self.required@.contains(x)
    }

    /// Whether a component set satisfies the shape: it includes every
    /// required id and none of the excluded ones. A pure function of the
    /// set.
    pub open spec fn spec_matches(self, set: Seq<usize>) -> bool {
        &&& forall|x: usize| #[trigger] self.required@.contains(x) ==> set.contains(x)
        &&& forall|x: usize| #[trigger] self.excluded@.contains(x) ==> !set.contains(x)
    }

    /// Compiles a shape from id lists in any order. Conflicting aliasing
    /// demands — an id both required and excluded — and filters on ids that
    /// are not required are reported here, so no partial iteration is ever
    /// observed.
    pub fn new(required: &Vec<usize>, excluded: &Vec<usize>, changed_filtered: &Vec<usize>) -> (r:
        Result<QueryShape, QueryError>)
        ensures
            match r {
                Ok(q) => {
                    &&& q.wf()
                    &&& forall|x: usize| #[trigger] q.required@.contains(x) <==> required@.contains(x)
                    &&& forall|x: usize| #[trigger] q.excluded@.contains(x) <==> excluded@.contains(x)
                    &&& forall|x: usize|
                        #[trigger] q.changed_filtered@.contains(x) <==> changed_filtered@.contains(
                            x,
                        )
                },
                Err(e) => {
                    &&& (e == QueryError::Conflict <==> exists|x: usize|
                        #[trigger] required@.contains(x) && excluded@.contains(x))
                    &&& (e == QueryError::FilterNotRequired ==> exists|x: usize|
                        #[trigger] changed_filtered@.contains(x) && !required@.contains(x))
                },
            },
    {
        let req = canonical_ids(required);
        let exc = canonical_ids(excluded);
        let chg = canonical_ids(changed_filtered);
        if !disjoint_with(&req, &exc) {
            proof {
                let x = choose|x: usize| req@.contains(x) && exc@.contains(x);
                assert(required@.contains(x) && excluded@.contains(x));
            }
            return Err(QueryError::Conflict);
        }
        if !subset_of(&chg, &req) {
            proof {
                let x = choose|x: usize| chg@.contains(x) && !req@.contains(x);
                assert(changed_filtered@.contains(x) && !required@.contains(x));
                assert forall|y: usize| #[trigger] required@.contains(y) implies !excluded@.contains(
                    y,
                ) by {
                    assert(req@.contains(y));
                }
            }
            return Err(QueryError::FilterNotRequired);
        }
        Ok(QueryShape { required: req, excluded: exc, changed_filtered: chg })
    }

    /// Whether the archetype component set matches, as `spec_matches` says.
    pub fn matches(&self, set: &Vec<usize>) -> (r: bool)
        ensures
            r == self.spec_matches(set@),
    {
        subset_of(&self.required, set) && disjoint_with(&self.excluded, set)
    }
}

/// The cached match list of one query shape: every archetype id below
/// `seen` that matches, in increasing order. Archetypes are never removed
/// and never change their set, so the cache is only ever extended.
pub struct QueryState {
    pub shape: QueryShape,
    pub matched: Vec<usize>,
    pub seen: usize,
}

impl QueryState {
    /// The cache agrees with the store on every archetype it has seen.
    pub open spec fn valid(self, w: World) -> bool {
        &&& self.shape.wf()
        &&& self.seen <= w.arch_count()
        &&& sorted_strict(self.matched@)
        &&& forall|b: usize| #[trigger] self.matched@.contains(b) ==> b < self.seen
        &&& forall|b: usize|
            b < self.seen ==> (#[trigger] self.matched@.contains(b) <==> self.shape.spec_matches(
                w.archetypes@[b as int].comp_set@,
            ))
    }

    pub fn new(shape: QueryShape) -> (r: Self)
        requires
            shape.wf(),
        ensures
            r.shape == shape,
            r.seen == 0,
            r.matched@.len() == 0,
            forall|w: World| r.valid(w),
    {
        QueryState { shape, matched: Vec::new(), seen: 0 }
    }

    /// Extends the cache over the archetypes created since the last call;
    /// nothing already cached is re-examined.
    pub fn refresh(&mut self, w: &World)
        requires
            w.wf(),
            old(self).valid(*w),
        ensures
            final(self).valid(*w),
            final(self).seen == w.arch_count(),
            final(self).shape == old(self).shape,
    {
        let n = w.archetypes.len();
        while self.seen < n
            invariant
                w.wf(),
                n == w.arch_count(),
                self.valid(*w),
                self.shape == old(self).shape,
            decreases n - self.seen,
        {
            let b = self.seen;
            let ghost m0 = self.matched@;
            if self.shape.matches(&w.archetypes[b].comp_set) {
                proof {
                    assert forall|k: int| 0 <= k < self.matched@.len() implies self.matched@[k]
                        < b by {
                        assert(self.matched@.contains(self.matched@[k]));
                    }
                }
                self.matched.push(b);
                proof {
                    assert forall|x: usize| #[trigger] self.matched@.contains(x) implies x < b
                        + 1 by {
                        let k = choose|k: int|
                            0 <= k < self.matched@.len() && self.matched@[k] == x;
                        if k < self.matched@.len() - 1 {
                            assert(m0.contains(x));
                        }
                    }
                    assert forall|x: usize|
                        x < b + 1 implies (#[trigger] self.matched@.contains(x)
                        <==> self.shape.spec_matches(w.archetypes@[x as int].comp_set@)) by {
                        if x < b {
                            assert(m0.contains(x) ==> self.matched@.contains(x)) by {
                                if m0.contains(x) {
                                    let k = choose|k: int| 0 <= k < m0.len() && m0[k] == x;
                                    assert(self.matched@[k] == x);
                                }
                            }
                            assert(self.matched@.contains(x) ==> m0.contains(x)) by {
                                if self.matched@.contains(x) {
                                    let k = choose|k: int|
                                        0 <= k < self.matched@.len() && self.matched@[k] == x;
                                    if k == self.matched@.len() - 1 {
                                        assert(self.matched@[k] == b);
                                    } else {
                                        assert(m0[k] == x);
                                    }
                                }
                            }
                        } else {
                            assert(self.matched@.last() == b);
                            assert(self.matched@.contains(b));
                        }
                    }
                }
            } else {
                proof {
                    assert forall|x: usize|
                        x < b + 1 implies (#[trigger] self.matched@.contains(x)
                        <==> self.shape.spec_matches(w.archetypes@[x as int].comp_set@)) by {
                        if x == b {
                            assert(!self.shape.spec_matches(w.archetypes@[b as int].comp_set@));
                            if self.matched@.contains(x) {
                                assert(x < self.seen);
                            }
                        }
                    }
                }
            }
            self.seen = b + 1;
        }
    }
}

impl World {
    /// Whether every change-filtered component of the entity at index `i`
    /// was written after `since`.
    pub open spec fn spec_passes(self, i: int, shape: QueryShape, since: u64) -> bool {
        forall|k: int|
            0 <= k < shape.changed_filtered@.len() ==> self.comp_changed(
                i,
                #[trigger] shape.changed_filtered@[k],
            ) > since
    }

    /// Reads one component's changed tick and compares it with `since`.
    fn changed_since(&self, i: usize, c: usize, since: u64) -> (r: bool)
        requires
            self.wf(),
            self.live_index(i as int),
            self.spec_comps(i as int).contains(c),
        ensures
            r == (self.comp_changed(i as int, c) > since),
    {
        let l = match self.locations[i] {
            Some(l) => l,
            None => {
                return false;
            },
        };
        proof {
            assert(self.arch_set_wf(l.archetype as int));
            let p = choose|p: int|
                0 <= p < self.spec_comps(i as int).len() && self.spec_comps(i as int)[p] == c;
            assert(self.spec_comps(i as int)[p] < self.registry.count());
        }
        match self.registry.kind_of(c) {
            crate::component::StorageKind::Table => {
                let j = match self.tables[l.archetype].find_col(c) {
                    Some(j) => j,
                    None => {
                        return false;
                    },
                };
                self.tables[l.archetype].slot_at(j, l.row).changed > since
            },
            crate::component::StorageKind::SparseSet => {
                match self.sparse_sets[c].get_slot(i) {
                    Some(s) => s.changed > since,
                    None => {
                        proof {
                            assert(self.sparse_sets@[c as int].spec_contains(i as int));
                        }
                        false
                    },
                }
            },
        }
    }

    /// Whether the entity at index `i` passes the shape's change filter.
    fn passes_filter(&self, i: usize, shape: &QueryShape, since: u64) -> (r: bool)
        requires
            self.wf(),
            self.live_index(i as int),
            forall|x: usize|
                #[trigger] shape.changed_filtered@.contains(x) ==> self.spec_comps(
                    i as int,
                ).contains(x),
        ensures
            r == self.spec_passes(i as int, *shape, since),
    {
        let n = shape.changed_filtered.len();
        let mut k: usize = 0;
        while k < n
            invariant
                self.wf(),
                self.live_index(i as int),
                n == shape.changed_filtered@.len(),
                k <= n,
                forall|x: usize|
                    #[trigger] shape.changed_filtered@.contains(x) ==> self.spec_comps(
                        i as int,
                    ).contains(x),
                forall|k2: int|
                    0 <= k2 < k ==> self.comp_changed(
                        i as int,
                        #[trigger] shape.changed_filtered@[k2],
                    ) > since,
            decreases n - k,
        {
            let c = shape.changed_filtered[k];
            proof {
                assert(shape.changed_filtered@.contains(c));
            }
            if !self.changed_since(i, c, since) {
                assert(!self.spec_passes(i as int, *shape, since)) by {
                    assert(self.comp_changed(i as int, shape.changed_filtered@[k as int])
                        <= since);
                }
                return false;
            }
            k = k + 1;
        }
        true
    }

    /// Runs the query: brings the shape's archetype cache up to date, walks
    /// each matching table in row order, and returns the handles of exactly
    /// the live entities whose component set matches the shape and whose
    /// change-filtered components were written after `since`. Entities
    /// whose ticks fail the filter are skipped, not yielded. The result
    /// names each entity once; rerunning requeries from scratch.
    #[verifier::rlimit(100)]
    pub fn run_query(&self, state: &mut QueryState, since: u64) -> (r: Vec<EntityId>)
        requires
            self.wf(),
            old(state).valid(*self),
        ensures
            final(state).valid(*self),
            final(state).shape == old(state).shape,
            forall|e: EntityId|
                #[trigger] r@.contains(e) <==> (self.spec_live(e) && old(state).shape.spec_matches(
                    self.spec_comps(e.index as int),
                ) && self.spec_passes(e.index as int, old(state).shape, since)),
            forall|k1: int, k2: int| 0 <= k1 < k2 < r@.len() ==> r@[k1] != r@[k2],
    {
        state.refresh(self);
        let mut res: Vec<EntityId> = Vec::new();
        let nm = state.matched.len();
        let mut mi: usize = 0;
        while mi < nm
            invariant
                self.wf(),
                state.valid(*self),
                state.shape == old(state).shape,
                state.seen == self.arch_count(),
                nm == state.matched@.len(),
                mi <= nm,
                forall|e: EntityId|
                    #[trigger] res@.contains(e) <==> (self.spec_live(e) && self.spec_passes(
                        e.index as int,
                        state.shape,
                        since,
                    ) && exists|p: int|
                        0 <= p < mi && (#[trigger] state.matched@[p]) as int == self.arch_of(
                            e.index as int,
                        )),
                forall|k1: int, k2: int| 0 <= k1 < k2 < res@.len() ==> res@[k1] != res@[k2],
            decreases nm - mi,
        {
            let b = state.matched[mi];
            proof {
                assert(state.matched@.contains(b));
            }
            let rows = self.tables[b].row_count();
            let mut row: usize = 0;
            while row < rows
                invariant
                    self.wf(),
                    state.valid(*self),
                    state.shape == old(state).shape,
                    state.seen == self.arch_count(),
                    nm == state.matched@.len(),
                    mi < nm,
                    b == state.matched@[mi as int],
                    (b as int) < self.arch_count(),
                    state.matched@.contains(b),
                    rows == self.tables@[b as int].entities@.len(),
                    row <= rows,
                    forall|e: EntityId|
                        #[trigger] res@.contains(e) <==> (self.spec_live(e) && self.spec_passes(
                            e.index as int,
                            state.shape,
                            since,
                        ) && (self.arch_of(e.index as int) == b as int
                            && self.spec_location(e.index as int).row < row || exists|p: int|
                            0 <= p < mi && (#[trigger] state.matched@[p]) as int == self.arch_of(
                                e.index as int,
                            ))),
                    forall|k1: int, k2: int| 0 <= k1 < k2 < res@.len() ==> res@[k1] != res@[k2],
                decreases rows - row,
            {
                let i = self.tables[b].entity_at(row);
                proof {
                    assert(self.tables@[b as int].entities@[row as int] == i);
                    assert(self.locations@[i as int] == Some(
                        crate::entity::EntityLocation { archetype: b, row },
                    ));
                    assert(self.shape_filter_ok(i as int, state.shape));
                }
                let ghost resb = res@;
                let passes = self.passes_filter(i, &state.shape, since);
                if passes {
                    let g = self.allocator.generations[i];
                    let en = EntityId { index: i, generation: g };
                    proof {
                        assert(self.spec_live(en));
                        assert(!res@.contains(en));
                        assert forall|e: EntityId| #[trigger] res@.contains(e) || e == en implies
                            res@.push(en).contains(e) by {
                            if e == en {
                                assert(res@.push(en)[res@.len() as int] == en);
                            } else {
                                let k = choose|k: int|
                                    0 <= k < res@.len() && res@[k] == e;
                                assert(res@.push(en)[k] == e);
                            }
                        }
                        assert forall|e: EntityId| #[trigger] res@.push(en).contains(e) implies (
                        res@.contains(e) || e == en) by {
                            let k = choose|k: int|
                                0 <= k < res@.push(en).len() && res@.push(en)[k] == e;
                            if k < res@.len() {
                                assert(res@[k] == e);
                            }
                        }
                    }
                    res.push(en);
                }
                proof {
                    assert forall|e: EntityId| #[trigger] res@.contains(e) implies (
                    self.spec_live(e) && self.spec_passes(e.index as int, state.shape, since) && (
                    self.arch_of(e.index as int) == b as int && self.spec_location(
                        e.index as int,
                    ).row < row + 1 || exists|p: int|
                        0 <= p < mi && (#[trigger] state.matched@[p]) as int == self.arch_of(
                            e.index as int,
                        ))) by {}
                    assert forall|e: EntityId|
                        self.spec_live(e) && self.spec_passes(e.index as int, state.shape, since)
                            && (self.arch_of(e.index as int) == b as int && self.spec_location(
                            e.index as int,
                        ).row < row + 1 || exists|p: int|
                            0 <= p < mi && (#[trigger] state.matched@[p]) as int == self.arch_of(
                                e.index as int,
                            )) implies res@.contains(e) by {
                        if self.arch_of(e.index as int) == b as int && self.spec_location(
                            e.index as int,
                        ).row == row {
                            assert(self.locations@[e.index as int] is Some);
                            let lj = self.spec_location(e.index as int);
                            assert(self.tables@[b as int].entities@[row as int] == e.index);
                            assert(e.index == i);
                            assert(passes);
                            assert(e == (EntityId { index: i, generation: self.gen_of(i as int) }));
                            assert(res@ == resb.push(e));
                            assert(res@[resb.len() as int] == e);
                        } else {
                            assert(resb.contains(e));
                            if passes {
                                assert(res@ == resb.push(
                                    EntityId { index: i, generation: self.gen_of(i as int) },
                                ));
                                let k = choose|k: int| 0 <= k < resb.len() && resb[k] == e;
                                assert(res@[k] == e);
                            }
                        }
                    }
                }
                row = row + 1;
            }
            proof {
                assert forall|e: EntityId| #[trigger] res@.contains(e) implies (self.spec_live(e)
                    && self.spec_passes(e.index as int, state.shape, since) && exists|p: int|
                    0 <= p < mi + 1 && (#[trigger] state.matched@[p]) as int == self.arch_of(
                        e.index as int,
                    )) by {
                    if self.arch_of(e.index as int) == b as int {
                        assert(state.matched@[mi as int] as int == self.arch_of(e.index as int));
                    }
                }
                assert forall|e: EntityId|
                    self.spec_live(e) && self.spec_passes(e.index as int, state.shape, since)
                        && (exists|p: int|
                        0 <= p < mi + 1 && (#[trigger] state.matched@[p]) as int == self.arch_of(
                            e.index as int,
                        )) implies res@.contains(e) by {
                    let p = choose|p: int|
                        0 <= p < mi + 1 && state.matched@[p] as int == self.arch_of(
                            e.index as int,
                        );
                    if p == mi {
                        assert(self.arch_of(e.index as int) == b as int);
                        assert(self.locations@[e.index as int] is Some);
                        let lj = self.spec_location(e.index as int);
                        assert(self.tables@[lj.archetype as int].entities@[lj.row as int]
                            == e.index);
                        assert(lj.row < rows);
                    }
                }
            }
            mi = mi + 1;
        }
        proof {
            assert forall|e: EntityId|
                #[trigger] res@.contains(e) <==> (self.spec_live(e)
                && old(state).shape.spec_matches(self.spec_comps(e.index as int))
                && self.spec_passes(e.index as int, old(state).shape, since)) by {
                if self.spec_live(e) {
                    let aj = self.arch_of(e.index as int);
                    assert(self.locations@[e.index as int] is Some);
                    let lj = self.spec_location(e.index as int);
                    assert(lj.archetype < self.arch_count());
                    if res@.contains(e) {
                        let p = choose|p: int|
                            0 <= p < nm && state.matched@[p] as int == self.arch_of(
                                e.index as int,
                            );
                        assert(state.matched@.contains(state.matched@[p]));
                        assert(state.matched@.contains(lj.archetype));
                        assert(state.shape.spec_matches(self.spec_comps(e.index as int)));
                    } else {
                        if state.shape.spec_matches(self.spec_comps(e.index as int))
                            && self.spec_passes(e.index as int, state.shape, since) {
                            assert(state.matched@.contains(lj.archetype));
                            let p = choose|p: int|
                                0 <= p < state.matched@.len() && state.matched@[p]
                                    == lj.archetype;
                            assert(state.matched@[p] as int == aj);
                            assert(res@.contains(e));
                        }
                    }
                }
            }
        }
        res
    }

    /// Every change-filtered id of a matching entity is among its
    /// components.
    pub open spec fn shape_filter_ok(self, i: int, shape: QueryShape) -> bool {
        forall|x: usize|
            #[trigger] shape.changed_filtered@.contains(x) ==> self.spec_comps(i).contains(x)
    }
}

} // verus!
