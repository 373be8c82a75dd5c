//! The store itself: the archetype graph, one table per archetype, one
//! sparse set per sparse-backed component type, the entity allocator, and
//! the location index that maps each live entity index to (archetype, row).
//!
//! Every mutation keeps the store's invariant: the location index resolves,
//! for every live entity, to a row that really holds that entity, and an
//! entity's stored component set is exactly its archetype's set.

use vstd::prelude::*;
use crate::component::{ComponentInfo, ComponentRegistry, RegistryError, StorageKind};
use crate::component_set::{contains_id, insert_id, remove_id, sorted_strict};
use crate::entity::{EntityAllocator, EntityId, EntityLocation};
use crate::sparse::SparseSet;
use crate::table::{Slot, Table};

verus! {

/// Why a store operation was refused.
#[derive(Clone, Copy, Debug, PartialEq, Eq, Structural)]
pub enum WorldError {
    /// The handle's index is not live: dead or never allocated.
    EntityNotFound,
    /// The handle's index is live but its generation is stale: the entity it
    /// named was despawned and the index reused.
    InvalidEntity,
    /// The component id was never issued by `register_component`.
    ComponentNotRegistered,
}

/// One node of the archetype graph: the canonical component set that
/// identifies the archetype, and the memoized add/remove transitions.
pub struct Archetype {
    pub comp_set: Vec<usize>,
    pub edges_add: Vec<(usize, usize)>,
    pub edges_remove: Vec<(usize, usize)>,
}

/// How many of the first `n` location entries are occupied: the number of
/// live entities among the first `n` indices.
pub open spec fn count_live(s: Seq<Option<EntityLocation>>, n: int) -> nat
    decreases n,
{
    if n <= 0 {
        0
    } else {
        count_live(s, n - 1) + if s[n - 1] is Some {
            1nat
        } else {
            0nat
        }
    }
}

pub proof fn lemma_count_live_le(s: Seq<Option<EntityLocation>>, n: int)
    requires
        0 <= n,
    ensures
        count_live(s, n) <= n,
    decreases n,
{
    if n > 0 {
        lemma_count_live_le(s, n - 1);
    }
}

/// Counting only looks at the first `n` entries.
pub proof fn lemma_count_live_frame(s1: Seq<Option<EntityLocation>>, s2: Seq<
    Option<EntityLocation>,
>, n: int)
    requires
        forall|j: int| 0 <= j < n ==> (s1[j] is Some <==> s2[j] is Some),
    ensures
        count_live(s1, n) == count_live(s2, n),
    decreases n,
{
    if n > 0 {
        lemma_count_live_frame(s1, s2, n - 1);
    }
}

/// A prefix with an empty entry has fewer live entries than slots.
pub proof fn lemma_count_live_vacancy(s: Seq<Option<EntityLocation>>, n: int, i: int)
    requires
        0 <= i < n,
        s[i] is None,
    ensures
        count_live(s, n) < n,
    decreases n,
{
    lemma_count_live_le(s, n - 1);
    if i < n - 1 {
        lemma_count_live_vacancy(s, n - 1, i);
    }
}

/// A prefix with an occupied entry has at least one live entry.
pub proof fn lemma_count_live_occupied(s: Seq<Option<EntityLocation>>, n: int, i: int)
    requires
        0 <= i < n,
        s[i] is Some,
    ensures
        count_live(s, n) >= 1,
    decreases n,
{
    if i < n - 1 {
        lemma_count_live_occupied(s, n - 1, i);
    }
}

/// Overwriting one entry moves the count by the difference at that entry.
pub proof fn lemma_count_live_update(
    s: Seq<Option<EntityLocation>>,
    n: int,
    i: int,
    v: Option<EntityLocation>,
)
    requires
        0 <= i < n <= s.len(),
    ensures
        count_live(s.update(i, v), n) == count_live(s, n) + (if v is Some {
            1int
        } else {
            0int
        }) - (if s[i] is Some {
            1int
        } else {
            0int
        }),
    decreases n,
{
    if i == n - 1 {
        lemma_count_live_frame(s.update(i, v), s, n - 1);
    } else {
        lemma_count_live_update(s, n - 1, i, v);
    }
}

/// The position of the last pair in the first `bound` entries whose id is
/// `c`; negative when there is none.
pub open spec fn last_index_of(s: Seq<(usize, Vec<u8>)>, bound: int, c: usize) -> int
    decreases bound,
{
    if bound <= 0 {
        -1
    } else if s[bound - 1].0 == c {
        bound - 1
    } else {
        last_index_of(s, bound - 1, c)
    }
}

pub proof fn lemma_last_index_of(s: Seq<(usize, Vec<u8>)>, bound: int, c: usize, witness: int)
    requires
        0 <= witness < bound <= s.len(),
        s[witness].0 == c,
    ensures
        0 <= last_index_of(s, bound, c) < bound,
        s[last_index_of(s, bound, c)].0 == c,
        forall|j2: int| last_index_of(s, bound, c) < j2 < bound ==> (#[trigger] s[j2]).0 != c,
    decreases bound,
{
    if s[bound - 1].0 == c {
    } else {
        lemma_last_index_of(s, bound - 1, c, witness);
    }
}

/// A vector never holds more elements than `usize` can count.
pub proof fn lemma_vec_len_bound<T>(v: Vec<T>)
    ensures
        v@.len() <= usize::MAX,
{
    broadcast use vstd::std_specs::vec::axiom_spec_len;

    assert(vstd::std_specs::vec::spec_vec_len(&v) == v@.len());
}

/// What a successful `insert_component` of bytes `v` for component `c` on
/// the entity at index `i` did to the store: the component holds `v`,
/// stamped changed at the tick of the insert and added then too unless it
/// was already present; the entity's set gained exactly `c`; its other
/// components are untouched; and an insert of a component already present
/// overwrites in place, without migrating the entity.
pub open spec fn spec_inserted(pre: World, post: World, i: int, c: usize, v: Seq<u8>) -> bool {
    &&& pre.live_index(i) && post.live_index(i)
    &&& post.has_comp(i, c)
    &&& post.comp_value(i, c) == v
    &&& post.comp_changed(i, c) == pre.tick
    &&& post.comp_added(i, c) == if pre.has_comp(i, c) {
        pre.comp_added(i, c)
    } else {
        pre.tick
    }
    &&& forall|x: usize|
        #[trigger] post.spec_comps(i).contains(x) <==> (pre.spec_comps(i).contains(x) || x == c)
    &&& forall|c2: usize|
        c2 != c && #[trigger] pre.spec_comps(i).contains(c2) ==> post.comp_value(i, c2)
            == pre.comp_value(i, c2) && post.comp_added(i, c2) == pre.comp_added(i, c2)
            && post.comp_changed(i, c2) == pre.comp_changed(i, c2)
    &&& (pre.has_comp(i, c) ==> post.locations@[i] == pre.locations@[i])
    &&& post.gen_of(i) == pre.gen_of(i)
}

/// What a successful `remove_component` of component `c` on the entity at
/// index `i` did to the store: the extracted bytes are returned exactly
/// when the component was present; the entity's set lost exactly `c`; its
/// other components are untouched; and removing an absent component does
/// not move the entity.
pub open spec fn spec_removed(
    pre: World,
    post: World,
    i: int,
    c: usize,
    out: Option<Seq<u8>>,
) -> bool {
    &&& pre.live_index(i) && post.live_index(i)
    &&& !post.has_comp(i, c)
    &&& out == if pre.has_comp(i, c) {
        Some(pre.comp_value(i, c))
    } else {
        Option::<Seq<u8>>::None
    }
    &&& forall|x: usize|
        #[trigger] post.spec_comps(i).contains(x) <==> (pre.spec_comps(i).contains(x) && x != c)
    &&& forall|c2: usize|
        c2 != c && #[trigger] pre.spec_comps(i).contains(c2) ==> post.comp_value(i, c2)
            == pre.comp_value(i, c2) && post.comp_added(i, c2) == pre.comp_added(i, c2)
            && post.comp_changed(i, c2) == pre.comp_changed(i, c2)
    &&& (!pre.has_comp(i, c) ==> post.locations@[i] == pre.locations@[i])
    &&& post.gen_of(i) == pre.gen_of(i)
}

/// The store. A single value owns every piece of storage; operations take
/// it exclusively for their whole duration.
pub struct World {
    pub registry: ComponentRegistry,
    pub archetypes: Vec<Archetype>,
    pub tables: Vec<Table>,
    pub sparse_sets: Vec<SparseSet>,
    pub allocator: EntityAllocator,
    pub locations: Vec<Option<EntityLocation>>,
    pub live_count: usize,
    pub tick: u64,
}

impl World {
    // ----- the mathematical model -----

    pub open spec fn arch_count(self) -> nat {
        self.archetypes@.len()
    }

    pub open spec fn slot_count(self) -> nat {
        self.locations@.len()
    }

    /// Whether the entity index is occupied by a live entity.
    pub open spec fn live_index(self, i: int) -> bool {
        0 <= i < self.locations@.len() && self.locations@[i] is Some
    }

    pub open spec fn spec_location(self, i: int) -> EntityLocation {
        self.locations@[i]->Some_0
    }

    /// The archetype the entity at index `i` belongs to.
    pub open spec fn arch_of(self, i: int) -> int {
        self.spec_location(i).archetype as int
    }

    /// The component set currently attached to the entity at index `i`.
    pub open spec fn spec_comps(self, i: int) -> Seq<usize> {
        self.archetypes@[self.arch_of(i)].comp_set@
    }

    /// Whether the handle is valid: its index live and its generation
    /// current.
    pub open spec fn spec_live(self, e: EntityId) -> bool {
        self.allocator.spec_is_live(e)
    }

    /// The generation currently stored for an index.
    pub open spec fn gen_of(self, i: int) -> u64 {
        self.allocator.generations@[i]
    }

    /// Whether the entity at index `i` currently has component `c`.
    pub open spec fn has_comp(self, i: int, c: usize) -> bool {
        self.live_index(i) && self.spec_comps(i).contains(c)
    }

    /// The storage slot holding component `c` of the entity at index `i`;
    /// meaningful only when `has_comp(i, c)`.
    pub open spec fn comp_slot(self, i: int, c: usize) -> Slot {
        if self.registry.spec_info(c as int).kind == StorageKind::SparseSet {
            self.sparse_sets@[c as int].spec_slot(i)
        } else {
            let l = self.spec_location(i);
            self.tables@[l.archetype as int].spec_slot(c, l.row as int)
        }
    }

    /// The current bytes of component `c` of the entity at index `i`.
    pub open spec fn comp_value(self, i: int, c: usize) -> Seq<u8> {
        self.comp_slot(i, c).value@
    }

    /// The tick at which component `c` was added to the entity at index `i`.
    pub open spec fn comp_added(self, i: int, c: usize) -> u64 {
        self.comp_slot(i, c).added
    }

    /// The tick at which component `c` of the entity at index `i` was last
    /// written.
    pub open spec fn comp_changed(self, i: int, c: usize) -> u64 {
        self.comp_slot(i, c).changed
    }

    /// The error owed for an invalid handle: `EntityNotFound` for a dead or
    /// never-allocated index, `InvalidEntity` for a stale generation.
    pub open spec fn spec_handle_error(self, e: EntityId) -> WorldError {
        if !self.allocator.index_live(e.index as int) {
            WorldError::EntityNotFound
        } else {
            WorldError::InvalidEntity
        }
    }

    /// Everything observable about the entity at index `i` is the same in
    /// `self` and `other`: liveness, generation, archetype, component set,
    /// and every component's bytes and ticks.
    pub open spec fn entity_unchanged(self, other: World, i: int) -> bool {
        &&& self.live_index(i) == other.live_index(i)
        &&& (0 <= i < self.slot_count() && i < other.slot_count() ==> self.gen_of(i)
            == other.gen_of(i))
        &&& (self.live_index(i) ==> {
            &&& self.arch_of(i) == other.arch_of(i)
            &&& self.spec_comps(i) == other.spec_comps(i)
            &&& forall|c: usize|
                #[trigger] self.spec_comps(i).contains(c) ==> {
                    &&& other.comp_value(i, c) == self.comp_value(i, c)
                    &&& other.comp_added(i, c) == self.comp_added(i, c)
                    &&& other.comp_changed(i, c) == self.comp_changed(i, c)
                }
        })
    }

    // ----- the invariant -----

    /// One archetype is sound: a canonical set of registered ids, and its
    /// table holds exactly the set's table-backed ids.
    pub open spec fn arch_set_wf(self, a: int) -> bool {
        let arch = self.archetypes@[a];
        let table = self.tables@[a];
        &&& sorted_strict(arch.comp_set@)
        &&& forall|k: int|
            0 <= k < arch.comp_set@.len() ==> (#[trigger] arch.comp_set@[k])
                < self.registry.count()
        &&& table.wf()
        &&& forall|c: usize|
            #[trigger] table.comp_ids@.contains(c) ==> arch.comp_set@.contains(c)
                && self.registry.spec_info(c as int).kind == StorageKind::Table
        &&& forall|c: usize|
            #[trigger] arch.comp_set@.contains(c) && self.registry.spec_info(c as int).kind
                == StorageKind::Table ==> table.comp_ids@.contains(c)
    }

    /// A memoized add edge is sound: its target archetype exists and its
    /// set is the source set plus the edge's component.
    pub open spec fn add_edge_ok(self, src: int, c: usize, tgt: int) -> bool {
        &&& 0 <= tgt < self.archetypes@.len()
        &&& forall|x: usize|
            #[trigger] self.archetypes@[tgt].comp_set@.contains(x) <==> (
            self.archetypes@[src].comp_set@.contains(x) || x == c)
    }

    /// A memoized remove edge is sound: its target archetype exists and its
    /// set is the source set minus the edge's component.
    pub open spec fn remove_edge_ok(self, src: int, c: usize, tgt: int) -> bool {
        &&& 0 <= tgt < self.archetypes@.len()
        &&& forall|x: usize|
            #[trigger] self.archetypes@[tgt].comp_set@.contains(x) <==> (
            self.archetypes@[src].comp_set@.contains(x) && x != c)
    }

    pub open spec fn wf_graph(self) -> bool {
        &&& self.registry.wf()
        &&& self.tables@.len() == self.archetypes@.len()
        &&& self.archetypes@.len() >= 1
        &&& self.archetypes@[0].comp_set@ == Seq::<usize>::empty()
        &&& forall|a: int| 0 <= a < self.archetypes@.len() ==> self.arch_set_wf(a)
        &&& forall|a: int, b: int|
            0 <= a < b < self.archetypes@.len() ==> #[trigger] self.archetypes@[a].comp_set@
                != #[trigger] self.archetypes@[b].comp_set@
        &&& forall|a: int, k: int|
            0 <= a < self.archetypes@.len() && 0 <= k < self.archetypes@[a].edges_add@.len()
                ==> self.add_edge_ok(
                a,
                (#[trigger] self.archetypes@[a].edges_add@[k]).0,
                self.archetypes@[a].edges_add@[k].1 as int,
            )
        &&& forall|a: int, k: int|
            0 <= a < self.archetypes@.len() && 0 <= k < self.archetypes@[a].edges_remove@.len()
                ==> self.remove_edge_ok(
                a,
                (#[trigger] self.archetypes@[a].edges_remove@[k]).0,
                self.archetypes@[a].edges_remove@[k].1 as int,
            )
    }

    /// The location index and the tables point at each other, and liveness
    /// agrees between the allocator and the location index.
    pub open spec fn wf_entities(self) -> bool {
        &&& self.allocator.wf()
        &&& self.locations@.len() == self.allocator.slot_count()
        &&& self.live_count == count_live(self.locations@, self.locations@.len() as int)
        &&& forall|i: int|
            0 <= i < self.locations@.len() ==> (self.allocator.index_live(i) <==> (
            #[trigger] self.locations@[i]) is Some)
        &&& forall|i: int|
            0 <= i < self.locations@.len() && (#[trigger] self.locations@[i]) is Some ==> {
                let l = self.locations@[i]->Some_0;
                &&& l.archetype < self.archetypes@.len()
                &&& l.row < self.tables@[l.archetype as int].entities@.len()
                &&& self.tables@[l.archetype as int].entities@[l.row as int] == i
            }
        &&& forall|a: int, r: int|
            0 <= a < self.tables@.len() && 0 <= r < self.tables@[a].entities@.len() ==> {
                let i = #[trigger] self.tables@[a].entities@[r];
                &&& i < self.locations@.len()
                &&& self.locations@[i as int] == Some(
                    EntityLocation { archetype: a as usize, row: r as usize },
                )
            }
    }

    /// Sparse sets hold exactly the sparse-backed components of live
    /// entities whose archetype set names them.
    pub open spec fn wf_sparse(self) -> bool {
        &&& self.sparse_sets@.len() == self.registry.count()
        &&& forall|c: int| 0 <= c < self.sparse_sets@.len() ==> (#[trigger] self.sparse_sets@[c]).wf()
        &&& forall|c: usize, i: int|
            c < self.sparse_sets@.len() && #[trigger] self.sparse_sets@[c as int].spec_contains(i)
                ==> {
                &&& self.live_index(i)
                &&& self.spec_comps(i).contains(c)
                &&& self.registry.spec_info(c as int).kind == StorageKind::SparseSet
            }
        &&& forall|i: int, c: usize|
            self.live_index(i) && #[trigger] self.spec_comps(i).contains(c)
                && self.registry.spec_info(c as int).kind == StorageKind::SparseSet
                ==> self.sparse_sets@[c as int].spec_contains(i)
    }

    /// The store's invariant, established by `new` and kept by every
    /// operation.
    pub open spec fn wf(self) -> bool {
        &&& self.wf_graph()
        &&& self.wf_entities()
        &&& self.wf_sparse()
    }

    // ----- construction and registration -----

    /// An empty store: no component types, no entities, one archetype for
    /// the empty component set, tick zero.
    pub fn new() -> (w: World)
        ensures
            w.wf(),
            w.registry.count() == 0,
            w.arch_count() == 1,
            w.slot_count() == 0,
            w.live_count == 0,
            w.tick == 0,
    {
        let mut archetypes: Vec<Archetype> = Vec::new();
        archetypes.push(
            Archetype { comp_set: Vec::new(), edges_add: Vec::new(), edges_remove: Vec::new() },
        );
        let mut tables: Vec<Table> = Vec::new();
        tables.push(Table::new(Vec::new()));
        World {
            registry: ComponentRegistry::new(),
            archetypes,
            tables,
            sparse_sets: Vec::new(),
            allocator: EntityAllocator::new(),
            locations: Vec::new(),
            live_count: 0,
            tick: 0,
        }
    }

    /// Registers a component type under a caller-chosen stable key, with its
    /// byte size and storage strategy. Idempotent per key; a key seen before
    /// with a different strategy or size is refused and nothing changes.
    pub fn register_component(&mut self, key: u64, size: usize, kind: StorageKind) -> (r: Result<
        usize,
        RegistryError,
    >)
        requires
            old(self).wf(),
        ensures
            final(self).wf(),
            final(self).archetypes@ == old(self).archetypes@,
            final(self).tables@ == old(self).tables@,
            final(self).allocator == old(self).allocator,
            final(self).locations@ == old(self).locations@,
            final(self).live_count == old(self).live_count,
            final(self).tick == old(self).tick,
            forall|j: int| old(self).entity_unchanged(*final(self), j),
            match r {
                Ok(id) => {
                    &&& id < final(self).registry.count()
                    &&& final(self).registry.spec_info(id as int) == (ComponentInfo {
                        key,
                        size,
                        kind,
                    })
                    &&& (old(self).registry.spec_has_key(key) ==> final(self).registry == old(
                        self,
                    ).registry)
                    &&& (!old(self).registry.spec_has_key(key) ==> id == old(self).registry.count()
                        && final(self).registry.infos@ == old(self).registry.infos@.push(
                        ComponentInfo { key, size, kind },
                    ))
                },
                Err(e) => {
                    &&& *final(self) == *old(self)
                    &&& old(self).registry.spec_has_key(key)
                    &&& {
                        let i = old(self).registry.spec_key_index(key);
                        &&& (old(self).registry.spec_info(i).kind != kind <==> e
                            == RegistryError::StorageMismatch)
                        &&& (old(self).registry.spec_info(i).kind == kind && old(
                            self,
                        ).registry.spec_info(i).size != size <==> e == RegistryError::LayoutMismatch)
                    }
                },
            },
    {
        let r = self.registry.register(key, size, kind);
        match r {
            Ok(id) => {
                if id == self.sparse_sets.len() {
                    self.sparse_sets.push(SparseSet::new());
                }
                proof {
                    self.lemma_register_preserves(*old(self), id);
                }
                Ok(id)
            },
            Err(e) => Err(e),
        }
    }

    proof fn lemma_register_preserves(self, pre: World, id: usize)
        requires
            pre.wf(),
            self.archetypes@ == pre.archetypes@,
            self.tables@ == pre.tables@,
            self.allocator == pre.allocator,
            self.locations@ == pre.locations@,
            self.live_count == pre.live_count,
            self.registry.wf(),
            self.registry.count() >= pre.registry.count(),
            forall|c: int|
                0 <= c < pre.registry.count() ==> self.registry.spec_info(c) == pre.registry.spec_info(
                    c,
                ),
            self.sparse_sets@.len() == self.registry.count(),
            forall|c: int|
                0 <= c < pre.sparse_sets@.len() ==> self.sparse_sets@[c] == pre.sparse_sets@[c],
            forall|c: int|
                pre.sparse_sets@.len() <= c < self.sparse_sets@.len() ==> (#[trigger] self.sparse_sets@[c]).wf()
                    && forall|i: int| !self.sparse_sets@[c].spec_contains(i),
        ensures
            self.wf(),
            forall|j: int| pre.entity_unchanged(self, j),
    {
        assert forall|a: int| 0 <= a < self.archetypes@.len() implies self.arch_set_wf(a) by {
            assert(pre.arch_set_wf(a));
            assert forall|c: usize|
                #[trigger] self.archetypes@[a].comp_set@.contains(c) implies c
                < pre.registry.count() by {
                let k = choose|k: int|
                    0 <= k < self.archetypes@[a].comp_set@.len() && self.archetypes@[a].comp_set@[k]
                        == c;
                assert(pre.archetypes@[a].comp_set@[k] == c);
            }
        }
        assert(self.wf_graph());
        assert(self.wf_entities());
        assert forall|c: usize, i: int|
            c < self.sparse_sets@.len() && #[trigger] self.sparse_sets@[c as int].spec_contains(i)
            implies {
            &&& self.live_index(i)
            &&& self.spec_comps(i).contains(c)
            &&& self.registry.spec_info(c as int).kind == StorageKind::SparseSet
        } by {
            if c < pre.sparse_sets@.len() {
                assert(pre.sparse_sets@[c as int].spec_contains(i));
            }
        }
        assert forall|i: int, c: usize|
            self.live_index(i) && #[trigger] self.spec_comps(i).contains(c)
                && self.registry.spec_info(c as int).kind == StorageKind::SparseSet implies
            self.sparse_sets@[c as int].spec_contains(i) by {
            assert(pre.arch_set_wf(pre.arch_of(i)));
            let k = choose|k: int| 0 <= k < pre.spec_comps(i).len() && pre.spec_comps(i)[k] == c;
            assert(pre.spec_comps(i)[k] < pre.registry.count());
            assert(pre.sparse_sets@[c as int].spec_contains(i));
        }
        assert(self.wf_sparse());
        assert forall|j: int| pre.entity_unchanged(self, j) by {
            if pre.live_index(j) {
                assert forall|c: usize| #[trigger] pre.spec_comps(j).contains(c) implies {
                    &&& self.comp_value(j, c) == pre.comp_value(j, c)
                    &&& self.comp_added(j, c) == pre.comp_added(j, c)
                    &&& self.comp_changed(j, c) == pre.comp_changed(j, c)
                } by {
                    assert(pre.arch_set_wf(pre.arch_of(j)));
                    let k = choose|k: int|
                        0 <= k < pre.spec_comps(j).len() && pre.spec_comps(j)[k] == c;
                    assert(pre.spec_comps(j)[k] < pre.registry.count());
                    assert(self.comp_slot(j, c) == pre.comp_slot(j, c));
                }
            }
        }
    }

    // ----- the archetype graph -----

    /// Looks up the memoized transition for component `c` in an edge list.
    fn find_edge(edges: &Vec<(usize, usize)>, c: usize) -> (r: Option<usize>)
        ensures
            match r {
                Some(t) => exists|k: int| 0 <= k < edges@.len() && edges@[k] == (c, t),
                None => forall|k: int| 0 <= k < edges@.len() ==> (#[trigger] edges@[k]).0 != c,
            },
    {
        let mut k: usize = 0;
        while k < edges.len()
            invariant
                k <= edges@.len(),
                forall|j: int| 0 <= j < k ==> (#[trigger] edges@[j]).0 != c,
            decreases edges@.len() - k,
        {
            let (ec, et) = edges[k];
            if ec == c {
                proof {
                    assert(edges@[k as int] == (c, et));
                }
                return Some(et);
            }
            k = k + 1;
        }
        None
    }

    /// Returns the archetype identified by the canonical component set,
    /// creating it, with an empty table for its table-backed components,
    /// on first use. Archetypes are never removed, and an existing
    /// archetype is never altered: the graph only grows.
    pub fn get_or_create_archetype(&mut self, set: Vec<usize>) -> (a: usize)
        requires
            old(self).wf(),
            sorted_strict(set@),
            forall|k: int| 0 <= k < set@.len() ==> (#[trigger] set@[k]) < old(self).registry.count(),
        ensures
            final(self).wf(),
            a < final(self).arch_count(),
            final(self).archetypes@[a as int].comp_set@ == set@,
            old(self).arch_count() <= final(self).arch_count(),
            forall|b: int|
                0 <= b < old(self).arch_count() ==> final(self).archetypes@[b] == old(
                    self,
                ).archetypes@[b] && final(self).tables@[b] == old(self).tables@[b],
            final(self).registry == old(self).registry,
            final(self).sparse_sets@ == old(self).sparse_sets@,
            final(self).allocator == old(self).allocator,
            final(self).locations@ == old(self).locations@,
            final(self).live_count == old(self).live_count,
            final(self).tick == old(self).tick,
            a < old(self).arch_count() ==> *final(self) == *old(self),
            a == old(self).arch_count() ==> final(self).arch_count() == old(self).arch_count() + 1
                && final(self).tables@[a as int].rows() == 0,
            forall|j: int| old(self).entity_unchanged(*final(self), j),
    {
        let n = self.archetypes.len();
        let mut k: usize = 0;
        while k < n
            invariant
                old(self).wf(),
                *self == *old(self),
                n == self.archetypes@.len(),
                k <= n,
                forall|b: int| 0 <= b < k ==> self.archetypes@[b].comp_set@ != set@,
            decreases n - k,
        {
            if crate::component_set::ids_equal(&self.archetypes[k].comp_set, &set) {
                proof {
                    Self::lemma_wf_unchanged(*old(self), *self);
                }
                return k;
            }
            k = k + 1;
        }
        let ghost pre = *self;
        let mut tcomps: Vec<usize> = Vec::new();
        let mut m: usize = 0;
        while m < set.len()
            invariant
                pre.wf(),
                m <= set@.len(),
                *self == pre,
                sorted_strict(set@),
                forall|p: int| 0 <= p < set@.len() ==> (#[trigger] set@[p]) < pre.registry.count(),
                sorted_strict(tcomps@),
                forall|x: usize|
                    #[trigger] tcomps@.contains(x) <==> (set@.subrange(0, m as int).contains(x)
                        && pre.registry.spec_info(x as int).kind == StorageKind::Table),
                forall|q: int|
                    0 <= q < tcomps@.len() ==> exists|p: int|
                        0 <= p < m && (#[trigger] set@[p]) == (#[trigger] tcomps@[q]),
            decreases set@.len() - m,
        {
            let c = set[m];
            proof {
                assert(set@.subrange(0, m + 1) =~= set@.subrange(0, m as int).push(c));
            }
            let ghost t0 = tcomps@;
            if self.registry.kind_of(c) == StorageKind::Table {
                proof {
                    assert forall|q: int| 0 <= q < tcomps@.len() implies tcomps@[q] < c by {
                        let p = choose|p: int| 0 <= p < m && set@[p] == tcomps@[q];
                        assert(set@[p] < set@[m as int]);
                    }
                }
                tcomps.push(c);
                proof {
                    assert forall|x: usize| #[trigger] tcomps@.contains(x) implies (set@.subrange(
                        0,
                        m + 1,
                    ).contains(x) && pre.registry.spec_info(x as int).kind == StorageKind::Table)
                        by {
                        let q = choose|q: int| 0 <= q < tcomps@.len() && tcomps@[q] == x;
                        if q < t0.len() {
                            assert(t0.contains(x));
                            let p = choose|p: int|
                                0 <= p < m && set@.subrange(0, m as int)[p] == x;
                            assert(set@.subrange(0, m + 1)[p] == x);
                        } else {
                            assert(x == c);
                            assert(set@.subrange(0, m + 1)[m as int] == c);
                        }
                    }
                    let ghost sr = set@.subrange(0, m + 1);
                    assert forall|x: usize|
                        #![trigger pre.registry.spec_info(x as int)]
                        sr.contains(x) && pre.registry.spec_info(x as int).kind
                            == StorageKind::Table implies tcomps@.contains(x) by {
                        let p = choose|p: int| 0 <= p < sr.len() && sr[p] == x;
                        if p < m {
                            assert(set@.subrange(0, m as int)[p] == x);
                            assert(t0.contains(x));
                            let q = choose|q: int| 0 <= q < t0.len() && t0[q] == x;
                            assert(tcomps@[q] == x);
                        } else {
                            assert(x == c);
                            assert(tcomps@.last() == c);
                        }
                    }
                }
            } else {
                proof {
                    assert forall|x: usize| #[trigger] tcomps@.contains(x) implies (set@.subrange(
                        0,
                        m + 1,
                    ).contains(x) && pre.registry.spec_info(x as int).kind == StorageKind::Table)
                        by {
                        let p = choose|p: int| 0 <= p < m && set@.subrange(0, m as int)[p] == x;
                        assert(set@.subrange(0, m + 1)[p] == x);
                    }
                    let ghost sr = set@.subrange(0, m + 1);
                    assert forall|x: usize|
                        #![trigger pre.registry.spec_info(x as int)]
                        sr.contains(x) && pre.registry.spec_info(x as int).kind
                            == StorageKind::Table implies tcomps@.contains(x) by {
                        let p = choose|p: int| 0 <= p < sr.len() && sr[p] == x;
                        assert(p != m);
                        assert(set@.subrange(0, m as int)[p] == x);
                    }
                }
            }
            m = m + 1;
        }
        proof {
            assert(set@.subrange(0, set@.len() as int) =~= set@);
        }
        let table = Table::new(tcomps);
        let a = self.archetypes.len();
        self.archetypes.push(
            Archetype { comp_set: set, edges_add: Vec::new(), edges_remove: Vec::new() },
        );
        self.tables.push(table);
        proof {
            self.lemma_grow_archetype_wf(pre, a);
        }
        a
    }

    proof fn lemma_grow_archetype_wf(self, pre: World, a: usize)
        requires
            pre.wf(),
            a as int == pre.archetypes@.len(),
            self.registry == pre.registry,
            self.sparse_sets@ == pre.sparse_sets@,
            self.allocator == pre.allocator,
            self.locations@ == pre.locations@,
            self.live_count == pre.live_count,
            self.archetypes@.len() == pre.archetypes@.len() + 1,
            self.tables@.len() == pre.tables@.len() + 1,
            pre.tables@.len() == pre.archetypes@.len(),
            forall|b: int| 0 <= b < pre.archetypes@.len() ==> self.archetypes@[b] == pre.archetypes@[b],
            forall|b: int| 0 <= b < pre.tables@.len() ==> self.tables@[b] == pre.tables@[b],
            // the new archetype
            sorted_strict(self.archetypes@[a as int].comp_set@),
            forall|k: int|
                0 <= k < self.archetypes@[a as int].comp_set@.len() ==> (
                #[trigger] self.archetypes@[a as int].comp_set@[k]) < pre.registry.count(),
            self.archetypes@[a as int].edges_add@.len() == 0,
            self.archetypes@[a as int].edges_remove@.len() == 0,
            forall|b: int|
                0 <= b < pre.archetypes@.len() ==> pre.archetypes@[b].comp_set@
                    != self.archetypes@[a as int].comp_set@,
            // the new table
            self.tables@[a as int].wf(),
            self.tables@[a as int].rows() == 0,
            forall|x: usize|
                #[trigger] self.tables@[a as int].comp_ids@.contains(x) <==> (
                self.archetypes@[a as int].comp_set@.contains(x) && pre.registry.spec_info(
                    x as int,
                ).kind == StorageKind::Table),
        ensures
            self.wf(),
            forall|j: int| pre.entity_unchanged(self, j),
    {
        assert forall|b: int| 0 <= b < self.archetypes@.len() implies self.arch_set_wf(b) by {
            if b < pre.archetypes@.len() {
                assert(pre.arch_set_wf(b));
            } else {
                assert(b == a as int);
            }
        }
        assert forall|b: int, k: int|
            0 <= b < self.archetypes@.len() && 0 <= k < self.archetypes@[b].edges_add@.len()
            implies self.add_edge_ok(
            b,
            (#[trigger] self.archetypes@[b].edges_add@[k]).0,
            self.archetypes@[b].edges_add@[k].1 as int,
        ) by {
            assert(b < pre.archetypes@.len());
            assert(pre.add_edge_ok(
                b,
                pre.archetypes@[b].edges_add@[k].0,
                pre.archetypes@[b].edges_add@[k].1 as int,
            ));
        }
        assert forall|b: int, k: int|
            0 <= b < self.archetypes@.len() && 0 <= k < self.archetypes@[b].edges_remove@.len()
            implies self.remove_edge_ok(
            b,
            (#[trigger] self.archetypes@[b].edges_remove@[k]).0,
            self.archetypes@[b].edges_remove@[k].1 as int,
        ) by {
            assert(b < pre.archetypes@.len());
            assert(pre.remove_edge_ok(
                b,
                pre.archetypes@[b].edges_remove@[k].0,
                pre.archetypes@[b].edges_remove@[k].1 as int,
            ));
        }
        assert(self.wf_graph());
        assert forall|i: int|
            0 <= i < self.locations@.len() && (#[trigger] self.locations@[i]) is Some implies {
            let l = self.locations@[i]->Some_0;
            &&& l.archetype < self.archetypes@.len()
            &&& l.row < self.tables@[l.archetype as int].entities@.len()
            &&& self.tables@[l.archetype as int].entities@[l.row as int] == i
        } by {
            let l = pre.locations@[i]->Some_0;
            assert(l.archetype < pre.archetypes@.len());
            assert(self.tables@[l.archetype as int] == pre.tables@[l.archetype as int]);
        }
        assert forall|b: int, r: int|
            0 <= b < self.tables@.len() && 0 <= r < self.tables@[b].entities@.len() implies {
            let j = #[trigger] self.tables@[b].entities@[r];
            &&& j < self.locations@.len()
            &&& self.locations@[j as int] == Some(
                EntityLocation { archetype: b as usize, row: r as usize },
            )
        } by {
            assert(b < pre.tables@.len());
            assert(self.tables@[b] == pre.tables@[b]);
        }
        assert(self.wf_entities());
        assert forall|c: usize, i: int|
            c < self.sparse_sets@.len() && #[trigger] self.sparse_sets@[c as int].spec_contains(i)
            implies {
            &&& self.live_index(i)
            &&& self.spec_comps(i).contains(c)
            &&& self.registry.spec_info(c as int).kind == StorageKind::SparseSet
        } by {
            assert(pre.sparse_sets@[c as int].spec_contains(i));
            assert(pre.live_index(i));
            assert(pre.arch_of(i) < pre.archetypes@.len());
            assert(self.spec_comps(i) == pre.spec_comps(i));
        }
        assert forall|i: int, c: usize|
            self.live_index(i) && #[trigger] self.spec_comps(i).contains(c)
                && self.registry.spec_info(c as int).kind == StorageKind::SparseSet implies
            self.sparse_sets@[c as int].spec_contains(i) by {
            assert(pre.arch_of(i) < pre.archetypes@.len());
            assert(pre.spec_comps(i).contains(c));
        }
        assert(self.wf_sparse());
        assert forall|j: int| pre.entity_unchanged(self, j) by {
            if pre.live_index(j) {
                assert(pre.arch_of(j) < pre.archetypes@.len());
                assert forall|c: usize| #[trigger] pre.spec_comps(j).contains(c) implies {
                    &&& self.comp_value(j, c) == pre.comp_value(j, c)
                    &&& self.comp_added(j, c) == pre.comp_added(j, c)
                    &&& self.comp_changed(j, c) == pre.comp_changed(j, c)
                } by {
                    assert(self.tables@[pre.arch_of(j)] == pre.tables@[pre.arch_of(j)]);
                    assert(self.comp_slot(j, c) == pre.comp_slot(j, c));
                }
            }
        }
    }

    /// All memoized edges of one archetype are sound against the rest of a
    /// well-formed store whose other fields the edit left alone.
    proof fn lemma_edges_replaced_wf(mid: World, post: World, a: int)
        requires
            mid.wf(),
            0 <= a < mid.archetypes@.len(),
            post.archetypes@.len() == mid.archetypes@.len(),
            forall|b: int|
                0 <= b < mid.archetypes@.len() && b != a ==> post.archetypes@[b]
                    == mid.archetypes@[b],
            post.archetypes@[a].comp_set@ == mid.archetypes@[a].comp_set@,
            forall|k: int|
                0 <= k < post.archetypes@[a].edges_add@.len() ==> mid.add_edge_ok(
                    a,
                    (#[trigger] post.archetypes@[a].edges_add@[k]).0,
                    post.archetypes@[a].edges_add@[k].1 as int,
                ),
            forall|k: int|
                0 <= k < post.archetypes@[a].edges_remove@.len() ==> mid.remove_edge_ok(
                    a,
                    (#[trigger] post.archetypes@[a].edges_remove@[k]).0,
                    post.archetypes@[a].edges_remove@[k].1 as int,
                ),
            post.registry == mid.registry,
            post.tables@ == mid.tables@,
            post.sparse_sets@ == mid.sparse_sets@,
            post.allocator == mid.allocator,
            post.locations@ == mid.locations@,
            post.live_count == mid.live_count,
        ensures
            post.wf(),
            forall|j: int| mid.entity_unchanged(post, j),
    {
        assert forall|b: int| 0 <= b < post.archetypes@.len() implies post.arch_set_wf(b) by {
            assert(mid.arch_set_wf(b));
        }
        assert forall|b: int, k: int|
            0 <= b < post.archetypes@.len() && 0 <= k < post.archetypes@[b].edges_add@.len()
            implies post.add_edge_ok(
            b,
            (#[trigger] post.archetypes@[b].edges_add@[k]).0,
            post.archetypes@[b].edges_add@[k].1 as int,
        ) by {
            if b != a {
                assert(mid.add_edge_ok(
                    b,
                    mid.archetypes@[b].edges_add@[k].0,
                    mid.archetypes@[b].edges_add@[k].1 as int,
                ));
            } else {
                assert(mid.add_edge_ok(
                    a,
                    post.archetypes@[a].edges_add@[k].0,
                    post.archetypes@[a].edges_add@[k].1 as int,
                ));
            }
        }
        assert forall|b: int, k: int|
            0 <= b < post.archetypes@.len() && 0 <= k < post.archetypes@[b].edges_remove@.len()
            implies post.remove_edge_ok(
            b,
            (#[trigger] post.archetypes@[b].edges_remove@[k]).0,
            post.archetypes@[b].edges_remove@[k].1 as int,
        ) by {
            if b != a {
                assert(mid.remove_edge_ok(
                    b,
                    mid.archetypes@[b].edges_remove@[k].0,
                    mid.archetypes@[b].edges_remove@[k].1 as int,
                ));
            } else {
                assert(mid.remove_edge_ok(
                    a,
                    post.archetypes@[a].edges_remove@[k].0,
                    post.archetypes@[a].edges_remove@[k].1 as int,
                ));
            }
        }
        assert(post.wf_graph());
        assert forall|i: int|
            0 <= i < post.locations@.len() && (#[trigger] post.locations@[i]) is Some implies {
            let l = post.locations@[i]->Some_0;
            &&& l.archetype < post.archetypes@.len()
            &&& l.row < post.tables@[l.archetype as int].entities@.len()
            &&& post.tables@[l.archetype as int].entities@[l.row as int] == i
        } by {
            assert(mid.locations@[i] is Some);
            let l = mid.locations@[i]->Some_0;
            assert(mid.tables@[l.archetype as int].entities@[l.row as int] == i);
        }
        assert(post.wf_entities());
        assert forall|c: usize, i: int|
            c < post.sparse_sets@.len() && #[trigger] post.sparse_sets@[c as int].spec_contains(i)
            implies {
            &&& post.live_index(i)
            &&& post.spec_comps(i).contains(c)
            &&& post.registry.spec_info(c as int).kind == StorageKind::SparseSet
        } by {
            assert(mid.sparse_sets@[c as int].spec_contains(i));
            assert(mid.arch_of(i) != a || post.archetypes@[a].comp_set@
                == mid.archetypes@[a].comp_set@);
            assert(post.spec_comps(i) == mid.spec_comps(i));
        }
        assert forall|i: int, c: usize|
            post.live_index(i) && #[trigger] post.spec_comps(i).contains(c)
                && post.registry.spec_info(c as int).kind == StorageKind::SparseSet implies
            post.sparse_sets@[c as int].spec_contains(i) by {
            assert(post.spec_comps(i) == mid.spec_comps(i));
        }
        assert(post.wf_sparse());
        assert forall|j: int| mid.entity_unchanged(post, j) by {
            if mid.live_index(j) {
                assert(post.spec_comps(j) == mid.spec_comps(j));
                assert forall|c: usize| #[trigger] mid.spec_comps(j).contains(c) implies {
                    &&& post.comp_value(j, c) == mid.comp_value(j, c)
                    &&& post.comp_added(j, c) == mid.comp_added(j, c)
                    &&& post.comp_changed(j, c) == mid.comp_changed(j, c)
                } by {
                    assert(post.comp_slot(j, c) == mid.comp_slot(j, c));
                }
            }
        }
    }

    /// Looks up or lazily creates and memoizes the archetype reached from
    /// `a` by adding component `c`. The destination's set is the source set
    /// plus `c`.
    pub fn transition_add(&mut self, a: usize, c: usize) -> (t: usize)
        requires
            old(self).wf(),
            a < old(self).arch_count(),
            c < old(self).registry.count(),
        ensures
            final(self).wf(),
            t < final(self).arch_count(),
            forall|x: usize|
                #[trigger] final(self).archetypes@[t as int].comp_set@.contains(x) <==> (old(
                    self,
                ).archetypes@[a as int].comp_set@.contains(x) || x == c),
            final(self).registry == old(self).registry,
            final(self).sparse_sets@ == old(self).sparse_sets@,
            final(self).allocator == old(self).allocator,
            final(self).locations@ == old(self).locations@,
            final(self).live_count == old(self).live_count,
            final(self).tick == old(self).tick,
            old(self).arch_count() <= final(self).arch_count(),
            forall|b: int|
                0 <= b < old(self).arch_count() ==> final(self).archetypes@[b].comp_set@ == old(
                    self,
                ).archetypes@[b].comp_set@ && final(self).tables@[b] == old(self).tables@[b],
            t as int == old(self).arch_count() ==> final(self).arch_count() == old(
                self,
            ).arch_count() + 1 && final(self).tables@[t as int].rows() == 0,
            forall|j: int| old(self).entity_unchanged(*final(self), j),
    {
        let found = Self::find_edge(&self.archetypes[a].edges_add, c);
        match found {
            Some(t) => {
                proof {
                    let k = choose|k: int|
                        0 <= k < self.archetypes@[a as int].edges_add@.len()
                            && self.archetypes@[a as int].edges_add@[k] == (c, t);
                    assert(self.add_edge_ok(a as int, c, t as int));
                    Self::lemma_wf_unchanged(*old(self), *self);
                }
                t
            },
            None => {
                proof {
                    assert(old(self).arch_set_wf(a as int));
                }
                let new_set = insert_id(&self.archetypes[a].comp_set, c);
                proof {
                    assert forall|k2: int| 0 <= k2 < new_set@.len() implies (
                    #[trigger] new_set@[k2]) < old(self).registry.count() by {
                        let x = new_set@[k2];
                        assert(new_set@.contains(x));
                        if x != c {
                            assert(old(self).archetypes@[a as int].comp_set@.contains(x));
                            let p = choose|p: int|
                                0 <= p < old(self).archetypes@[a as int].comp_set@.len() && old(
                                    self,
                                ).archetypes@[a as int].comp_set@[p] == x;
                            assert(old(self).archetypes@[a as int].comp_set@[p] < old(
                                self,
                            ).registry.count());
                        }
                    }
                }
                let t = self.get_or_create_archetype(new_set);
                let ghost mid = *self;
                self.archetypes[a].edges_add.push((c, t));
                proof {
                    assert forall|k: int|
                        0 <= k < self.archetypes@[a as int].edges_add@.len() implies mid.add_edge_ok(
                        a as int,
                        (#[trigger] self.archetypes@[a as int].edges_add@[k]).0,
                        self.archetypes@[a as int].edges_add@[k].1 as int,
                    ) by {
                        if k < mid.archetypes@[a as int].edges_add@.len() {
                            assert(mid.add_edge_ok(
                                a as int,
                                mid.archetypes@[a as int].edges_add@[k].0,
                                mid.archetypes@[a as int].edges_add@[k].1 as int,
                            ));
                        } else {
                            assert(self.archetypes@[a as int].edges_add@[k] == (c, t));
                            assert(mid.archetypes@[t as int].comp_set@ == new_set@);
                        }
                    }
                    Self::lemma_edges_replaced_wf(mid, *self, a as int);
                }
                t
            },
        }
    }

    /// Looks up or lazily creates and memoizes the archetype reached from
    /// `a` by removing component `c`. The destination's set is the source
    /// set minus `c`.
    pub fn transition_remove(&mut self, a: usize, c: usize) -> (t: usize)
        requires
            old(self).wf(),
            a < old(self).arch_count(),
            c < old(self).registry.count(),
        ensures
            final(self).wf(),
            t < final(self).arch_count(),
            forall|x: usize|
                #[trigger] final(self).archetypes@[t as int].comp_set@.contains(x) <==> (old(
                    self,
                ).archetypes@[a as int].comp_set@.contains(x) && x != c),
            final(self).registry == old(self).registry,
            final(self).sparse_sets@ == old(self).sparse_sets@,
            final(self).allocator == old(self).allocator,
            final(self).locations@ == old(self).locations@,
            final(self).live_count == old(self).live_count,
            final(self).tick == old(self).tick,
            old(self).arch_count() <= final(self).arch_count(),
            forall|b: int|
                0 <= b < old(self).arch_count() ==> final(self).archetypes@[b].comp_set@ == old(
                    self,
                ).archetypes@[b].comp_set@ && final(self).tables@[b] == old(self).tables@[b],
            t as int == old(self).arch_count() ==> final(self).arch_count() == old(
                self,
            ).arch_count() + 1 && final(self).tables@[t as int].rows() == 0,
            forall|j: int| old(self).entity_unchanged(*final(self), j),
    {
        let found = Self::find_edge(&self.archetypes[a].edges_remove, c);
        match found {
            Some(t) => {
                proof {
                    let k = choose|k: int|
                        0 <= k < self.archetypes@[a as int].edges_remove@.len()
                            && self.archetypes@[a as int].edges_remove@[k] == (c, t);
                    assert(self.remove_edge_ok(a as int, c, t as int));
                    Self::lemma_wf_unchanged(*old(self), *self);
                }
                t
            },
            None => {
                proof {
                    assert(old(self).arch_set_wf(a as int));
                }
                let new_set = remove_id(&self.archetypes[a].comp_set, c);
                proof {
                    assert forall|k2: int| 0 <= k2 < new_set@.len() implies (
                    #[trigger] new_set@[k2]) < old(self).registry.count() by {
                        let x = new_set@[k2];
                        assert(new_set@.contains(x));
                        if x != c {
                            assert(old(self).archetypes@[a as int].comp_set@.contains(x));
                            let p = choose|p: int|
                                0 <= p < old(self).archetypes@[a as int].comp_set@.len() && old(
                                    self,
                                ).archetypes@[a as int].comp_set@[p] == x;
                            assert(old(self).archetypes@[a as int].comp_set@[p] < old(
                                self,
                            ).registry.count());
                        }
                    }
                }
                let t = self.get_or_create_archetype(new_set);
                let ghost mid = *self;
                self.archetypes[a].edges_remove.push((c, t));
                proof {
                    assert forall|k: int|
                        0 <= k < self.archetypes@[a as int].edges_remove@.len() implies mid.remove_edge_ok(
                        a as int,
                        (#[trigger] self.archetypes@[a as int].edges_remove@[k]).0,
                        self.archetypes@[a as int].edges_remove@[k].1 as int,
                    ) by {
                        if k < mid.archetypes@[a as int].edges_remove@.len() {
                            assert(mid.remove_edge_ok(
                                a as int,
                                mid.archetypes@[a as int].edges_remove@[k].0,
                                mid.archetypes@[a as int].edges_remove@[k].1 as int,
                            ));
                        } else {
                            assert(self.archetypes@[a as int].edges_remove@[k] == (c, t));
                            assert(mid.archetypes@[t as int].comp_set@ == new_set@);
                        }
                    }
                    Self::lemma_edges_replaced_wf(mid, *self, a as int);
                }
                t
            },
        }
    }

    /// The invariant does not depend on the tick: a store whose storage
    /// fields are unchanged is still well formed.
    pub proof fn lemma_wf_unchanged(pre: World, post: World)
        requires
            pre.wf(),
            post.registry == pre.registry,
            post.archetypes@ == pre.archetypes@,
            post.tables@ == pre.tables@,
            post.sparse_sets@ == pre.sparse_sets@,
            post.allocator == pre.allocator,
            post.locations@ == pre.locations@,
            post.live_count == pre.live_count,
        ensures
            post.wf(),
            forall|j: int| pre.entity_unchanged(post, j),
    {
        assert forall|a: int| 0 <= a < post.archetypes@.len() implies post.arch_set_wf(a) by {
            assert(pre.arch_set_wf(a));
        }
        assert forall|a: int, k: int|
            0 <= a < post.archetypes@.len() && 0 <= k < post.archetypes@[a].edges_add@.len()
            implies post.add_edge_ok(
            a,
            (#[trigger] post.archetypes@[a].edges_add@[k]).0,
            post.archetypes@[a].edges_add@[k].1 as int,
        ) by {
            assert(pre.add_edge_ok(
                a,
                pre.archetypes@[a].edges_add@[k].0,
                pre.archetypes@[a].edges_add@[k].1 as int,
            ));
        }
        assert forall|a: int, k: int|
            0 <= a < post.archetypes@.len() && 0 <= k < post.archetypes@[a].edges_remove@.len()
            implies post.remove_edge_ok(
            a,
            (#[trigger] post.archetypes@[a].edges_remove@[k]).0,
            post.archetypes@[a].edges_remove@[k].1 as int,
        ) by {
            assert(pre.remove_edge_ok(
                a,
                pre.archetypes@[a].edges_remove@[k].0,
                pre.archetypes@[a].edges_remove@[k].1 as int,
            ));
        }
        assert(post.wf_graph());
        assert(post.wf_entities());
        assert forall|c: usize, i: int|
            c < post.sparse_sets@.len() && #[trigger] post.sparse_sets@[c as int].spec_contains(i)
            implies {
            &&& post.live_index(i)
            &&& post.spec_comps(i).contains(c)
            &&& post.registry.spec_info(c as int).kind == StorageKind::SparseSet
        } by {
            assert(pre.sparse_sets@[c as int].spec_contains(i));
        }
        assert forall|i: int, c: usize|
            post.live_index(i) && #[trigger] post.spec_comps(i).contains(c)
                && post.registry.spec_info(c as int).kind == StorageKind::SparseSet implies
            post.sparse_sets@[c as int].spec_contains(i) by {
            assert(pre.spec_comps(i).contains(c));
        }
        assert(post.wf_sparse());
        assert forall|j: int| pre.entity_unchanged(post, j) by {
            if pre.live_index(j) {
                assert forall|c: usize| #[trigger] pre.spec_comps(j).contains(c) implies {
                    &&& post.comp_value(j, c) == pre.comp_value(j, c)
                    &&& post.comp_added(j, c) == pre.comp_added(j, c)
                    &&& post.comp_changed(j, c) == pre.comp_changed(j, c)
                } by {
                    assert(post.comp_slot(j, c) == pre.comp_slot(j, c));
                }
            }
        }
    }

    // ----- ticks and liveness -----

    /// The tick the store currently stamps writes with.
    pub fn current_tick(&self) -> (t: u64)
        ensures
            t == self.tick,
    {
        self.tick
    }

    /// Advances the change-detection tick; called once per processing cycle
    /// by the collaborator that schedules work on the store.
    pub fn advance_tick(&mut self)
        requires
            old(self).wf(),
            old(self).tick < u64::MAX,
        ensures
            final(self).wf(),
            final(self).tick == old(self).tick + 1,
            *final(self) == (World { tick: (old(self).tick + 1) as u64, ..*old(self) }),
    {
        self.tick = self.tick + 1;
        proof {
            Self::lemma_wf_unchanged(*old(self), *self);
        }
    }

    /// Whether the handle names a live entity, in constant time.
    pub fn is_live(&self, e: EntityId) -> (r: bool)
        requires
            self.wf(),
        ensures
            r == self.spec_live(e),
    {
        self.allocator.is_live(e)
    }

    /// `Ok` exactly for a valid handle; otherwise the owed error.
    fn check_handle(&self, e: EntityId) -> (r: Result<(), WorldError>)
        requires
            self.wf(),
        ensures
            match r {
                Ok(()) => self.spec_live(e),
                Err(err) => !self.spec_live(e) && err == self.spec_handle_error(e),
            },
    {
        if e.index >= self.allocator.live.len() {
            return Err(WorldError::EntityNotFound);
        }
        if !self.allocator.live[e.index] {
            return Err(WorldError::EntityNotFound);
        }
        if self.allocator.generations[e.index] != e.generation {
            return Err(WorldError::InvalidEntity);
        }
        Ok(())
    }

    // ----- spawning and despawning -----

    /// Creates a live entity with the empty component set, in the empty
    /// archetype. The handle's index is fresh or recycled; a recycled index
    /// carries the generation stored when it was retired.
    pub fn spawn(&mut self) -> (e: EntityId)
        requires
            old(self).wf(),
        ensures
            final(self).wf(),
            final(self).spec_live(e),
            !old(self).live_index(e.index as int),
            e.index < final(self).slot_count(),
            final(self).arch_of(e.index as int) == 0,
            final(self).spec_comps(e.index as int) == Seq::<usize>::empty(),
            final(self).live_count == old(self).live_count + 1,
            final(self).slot_count() == if e.index < old(self).slot_count() {
                old(self).slot_count()
            } else {
                old(self).slot_count() + 1
            },
            e.index < old(self).slot_count() ==> e.generation == old(self).gen_of(e.index as int),
            forall|j: int| j != e.index ==> old(self).entity_unchanged(*final(self), j),
            final(self).registry == old(self).registry,
            final(self).archetypes@ == old(self).archetypes@,
            final(self).sparse_sets@ == old(self).sparse_sets@,
            final(self).tick == old(self).tick,
    {
        let ghost pre = *self;
        let e = self.allocator.allocate();
        let i = e.index;
        proof {
            assert(pre.arch_set_wf(0));
            assert(self.tables@[0] == pre.tables@[0]);
        }
        let row = self.tables[0].allocate_row(i);
        proof {
            if i < pre.locations@.len() {
                assert(pre.locations@[i as int] is None);
            }
            // No table row can already hold this index: it was dead.
            assert forall|a: int, r: int|
                0 <= a < pre.tables@.len() && 0 <= r < pre.tables@[a].entities@.len() implies
                pre.tables@[a].entities@[r] != i by {
                if pre.tables@[a].entities@[r] == i {
                    assert(pre.locations@[i as int] is Some);
                }
            }
        }
        let loc = EntityLocation { archetype: 0, row };
        let n = self.locations.len();
        if i == n {
            self.locations.push(Some(loc));
            proof {
                lemma_count_live_le(pre.locations@, pre.locations@.len() as int);
                lemma_count_live_frame(
                    self.locations@,
                    pre.locations@,
                    pre.locations@.len() as int,
                );
                assert(count_live(self.locations@, self.locations@.len() as int)
                    == pre.live_count + 1);
            }
        } else {
            proof {
                lemma_count_live_vacancy(pre.locations@, pre.locations@.len() as int, i as int);
                lemma_count_live_update(
                    pre.locations@,
                    pre.locations@.len() as int,
                    i as int,
                    Some(loc),
                );
            }
            self.locations[i] = Some(loc);
            proof {
                assert(count_live(self.locations@, self.locations@.len() as int)
                    == pre.live_count + 1);
            }
        }
        let m = self.locations.len();
        proof {
            assert(self.live_count < m <= usize::MAX);
        }
        self.live_count = self.live_count + 1;
        proof {
            self.lemma_spawn_wf(pre, e, row);
        }
        e
    }

    proof fn lemma_spawn_wf(self, pre: World, e: EntityId, row: usize)
        requires
            pre.wf(),
            self.registry == pre.registry,
            self.archetypes@ == pre.archetypes@,
            self.sparse_sets@ == pre.sparse_sets@,
            self.tick == pre.tick,
            self.allocator.wf(),
            self.allocator.spec_is_live(e),
            !pre.allocator.index_live(e.index as int),
            self.allocator.slot_count() == if e.index < pre.allocator.slot_count() {
                pre.allocator.slot_count()
            } else {
                pre.allocator.slot_count() + 1
            },
            e.index as int == if e.index < pre.allocator.slot_count() {
                e.index as int
            } else {
                pre.allocator.slot_count() as int
            },
            forall|j: int|
                0 <= j < pre.allocator.slot_count() && j != e.index ==> self.allocator.index_live(j)
                    == pre.allocator.index_live(j),
            forall|j: int|
                0 <= j < pre.allocator.slot_count() ==> self.allocator.generations@[j]
                    == pre.allocator.generations@[j],
            row as int == pre.tables@[0].entities@.len(),
            self.tables@.len() == pre.tables@.len(),
            forall|a: int| 1 <= a < pre.tables@.len() ==> self.tables@[a] == pre.tables@[a],
            self.tables@[0].wf(),
            self.tables@[0].comp_ids@ == pre.tables@[0].comp_ids@,
            self.tables@[0].entities@ == pre.tables@[0].entities@.push(e.index),
            self.locations@ == if e.index < pre.locations@.len() {
                pre.locations@.update(
                    e.index as int,
                    Some(EntityLocation { archetype: 0, row }),
                )
            } else {
                pre.locations@.push(Some(EntityLocation { archetype: 0, row }))
            },
            self.live_count == count_live(self.locations@, self.locations@.len() as int),
            forall|a: int, r: int|
                0 <= a < pre.tables@.len() && 0 <= r < pre.tables@[a].entities@.len()
                    ==> pre.tables@[a].entities@[r] != e.index,
        ensures
            self.wf(),
            self.arch_of(e.index as int) == 0,
            self.spec_comps(e.index as int) == Seq::<usize>::empty(),
            forall|j: int| j != e.index ==> pre.entity_unchanged(self, j),
    {
        let i = e.index as int;
        assert(self.locations@[i] == Some(EntityLocation { archetype: 0, row }));
        assert forall|a: int| 0 <= a < self.archetypes@.len() implies self.arch_set_wf(a) by {
            assert(pre.arch_set_wf(a));
        }
        assert forall|a: int, k: int|
            0 <= a < self.archetypes@.len() && 0 <= k < self.archetypes@[a].edges_add@.len()
            implies self.add_edge_ok(
            a,
            (#[trigger] self.archetypes@[a].edges_add@[k]).0,
            self.archetypes@[a].edges_add@[k].1 as int,
        ) by {
            assert(pre.add_edge_ok(
                a,
                pre.archetypes@[a].edges_add@[k].0,
                pre.archetypes@[a].edges_add@[k].1 as int,
            ));
        }
        assert forall|a: int, k: int|
            0 <= a < self.archetypes@.len() && 0 <= k < self.archetypes@[a].edges_remove@.len()
            implies self.remove_edge_ok(
            a,
            (#[trigger] self.archetypes@[a].edges_remove@[k]).0,
            self.archetypes@[a].edges_remove@[k].1 as int,
        ) by {
            assert(pre.remove_edge_ok(
                a,
                pre.archetypes@[a].edges_remove@[k].0,
                pre.archetypes@[a].edges_remove@[k].1 as int,
            ));
        }
        assert(self.wf_graph());
        assert forall|j: int|
            0 <= j < self.locations@.len() implies (self.allocator.index_live(j) <==> (
        #[trigger] self.locations@[j]) is Some) by {
            if j != i && j < pre.locations@.len() {
                assert(self.locations@[j] == pre.locations@[j]);
            }
        }
        assert forall|j: int|
            0 <= j < self.locations@.len() && (#[trigger] self.locations@[j]) is Some implies {
            let l = self.locations@[j]->Some_0;
            &&& l.archetype < self.archetypes@.len()
            &&& l.row < self.tables@[l.archetype as int].entities@.len()
            &&& self.tables@[l.archetype as int].entities@[l.row as int] == j
        } by {
            if j == i {
                assert(self.tables@[0].entities@[row as int] == e.index);
            } else {
                assert(self.locations@[j] == pre.locations@[j]);
                let l = pre.locations@[j]->Some_0;
                if l.archetype == 0 {
                    assert(self.tables@[0].entities@[l.row as int] == pre.tables@[0].entities@[l.row as int]);
                }
            }
        }
        assert forall|a: int, r: int|
            0 <= a < self.tables@.len() && 0 <= r < self.tables@[a].entities@.len() implies {
            let j = #[trigger] self.tables@[a].entities@[r];
            &&& j < self.locations@.len()
            &&& self.locations@[j as int] == Some(
                EntityLocation { archetype: a as usize, row: r as usize },
            )
        } by {
            if a == 0 && r == row as int {
                assert(self.tables@[a].entities@[r] == e.index);
            } else {
                assert(self.tables@[a].entities@[r] == pre.tables@[a].entities@[r]);
                let j = pre.tables@[a].entities@[r];
                assert(j != e.index);
                assert(pre.locations@[j as int] == Some(
                    EntityLocation { archetype: a as usize, row: r as usize },
                ));
                assert(self.locations@[j as int] == pre.locations@[j as int]);
            }
        }
        assert(self.wf_entities());
        assert forall|c: usize, j: int|
            c < self.sparse_sets@.len() && #[trigger] self.sparse_sets@[c as int].spec_contains(j)
            implies {
            &&& self.live_index(j)
            &&& self.spec_comps(j).contains(c)
            &&& self.registry.spec_info(c as int).kind == StorageKind::SparseSet
        } by {
            assert(pre.sparse_sets@[c as int].spec_contains(j));
            assert(pre.live_index(j));
            assert(j != i);
            assert(self.locations@[j] == pre.locations@[j]);
        }
        assert forall|j: int, c: usize|
            self.live_index(j) && #[trigger] self.spec_comps(j).contains(c)
                && self.registry.spec_info(c as int).kind == StorageKind::SparseSet implies
            self.sparse_sets@[c as int].spec_contains(j) by {
            if j == i {
                assert(self.spec_comps(j) == pre.archetypes@[0].comp_set@);
                assert(!self.spec_comps(j).contains(c));
            } else {
                assert(self.locations@[j] == pre.locations@[j]);
                assert(pre.spec_comps(j).contains(c));
            }
        }
        assert(self.wf_sparse());
        assert forall|j: int| j != e.index implies pre.entity_unchanged(self, j) by {
            if pre.live_index(j) {
                assert(self.locations@[j] == pre.locations@[j]);
                assert forall|c: usize| #[trigger] pre.spec_comps(j).contains(c) implies {
                    &&& self.comp_value(j, c) == pre.comp_value(j, c)
                    &&& self.comp_added(j, c) == pre.comp_added(j, c)
                    &&& self.comp_changed(j, c) == pre.comp_changed(j, c)
                } by {
                    assert(pre.arch_set_wf(pre.arch_of(j)));
                    let k = choose|k: int|
                        0 <= k < pre.spec_comps(j).len() && pre.spec_comps(j)[k] == c;
                    assert(pre.spec_comps(j)[k] < pre.registry.count());
                    if pre.registry.spec_info(c as int).kind == StorageKind::Table {
                        let l = pre.spec_location(j);
                        if l.archetype == 0 {
                            assert(pre.archetypes@[0].comp_set@.contains(c));
                            assert(pre.archetypes@[0].comp_set@.len() == 0);
                            assert(false);
                        } else {
                            assert(self.tables@[l.archetype as int] == pre.tables@[l.archetype as int]);
                        }
                    }
                }
            }
        }
    }

    /// Creates a live entity carrying the given components, each value
    /// stamped with the current tick: a spawn into the empty archetype
    /// followed by one insert per listed component, so when an id repeats,
    /// the last value listed for it wins. Refused, with nothing changed,
    /// when a listed id was never registered. The bytes must match each
    /// component's registered layout.
    pub fn spawn_with(&mut self, comps: Vec<(usize, Vec<u8>)>) -> (r: Result<EntityId, WorldError>)
        requires
            old(self).wf(),
            forall|k: int|
                0 <= k < comps@.len() ==> ((#[trigger] comps@[k]).0 < old(self).registry.count()
                    ==> comps@[k].1@.len() == old(self).registry.spec_info(
                    comps@[k].0 as int,
                ).size),
        ensures
            final(self).wf(),
            final(self).registry == old(self).registry,
            final(self).tick == old(self).tick,
            match r {
                Ok(e) => {
                    &&& final(self).spec_live(e)
                    &&& !old(self).live_index(e.index as int)
                    &&& final(self).live_count == old(self).live_count + 1
                    &&& forall|x: usize|
                        #[trigger] final(self).spec_comps(e.index as int).contains(x)
                            <==> exists|k: int| 0 <= k < comps@.len() && (#[trigger] comps@[k]).0 == x
                    &&& forall|k: int|
                        0 <= k < comps@.len() && (forall|j: int|
                            k < j < comps@.len() ==> (#[trigger] comps@[j]).0 != comps@[k].0) ==> {
                            &&& final(self).comp_value(e.index as int, (#[trigger] comps@[k]).0)
                                == comps@[k].1@
                            &&& final(self).comp_added(e.index as int, comps@[k].0) == old(self).tick
                            &&& final(self).comp_changed(e.index as int, comps@[k].0) == old(
                                self,
                            ).tick
                        }
                    &&& forall|j: int| j != e.index ==> old(self).entity_unchanged(*final(self), j)
                },
                Err(err) => {
                    &&& *final(self) == *old(self)
                    &&& err == WorldError::ComponentNotRegistered
                    &&& exists|k: int|
                        0 <= k < comps@.len() && (#[trigger] comps@[k]).0 >= old(
                            self,
                        ).registry.count()
                },
            },
    {
        let n = comps.len();
        let mut k: usize = 0;
        while k < n
            invariant
                old(self).wf(),
                *self == *old(self),
                n == comps@.len(),
                k <= n,
                forall|j: int| 0 <= j < k ==> (#[trigger] comps@[j]).0 < old(self).registry.count(),
            decreases n - k,
        {
            if comps[k].0 >= self.registry.len() {
                proof {
                    assert(comps@[k as int].0 >= old(self).registry.count());
                }
                return Err(WorldError::ComponentNotRegistered);
            }
            k = k + 1;
        }
        let ghost pre = *self;
        let e = self.spawn();
        let ghost w0 = *self;
        let mut comps = comps;
        let i = e.index;
        let mut k: usize = 0;
        let ghost all = comps@;
        while k < n
            invariant
                pre.wf(),
                w0.wf(),
                self.wf(),
                n == all.len(),
                k <= n,
                comps@ == all.subrange(k as int, n as int),
                forall|j: int| 0 <= j < n ==> (#[trigger] all[j]).0 < pre.registry.count(),
                forall|j: int|
                    0 <= j < n ==> ((#[trigger] all[j]).0 < pre.registry.count() ==> all[j].1@.len()
                        == pre.registry.spec_info(all[j].0 as int).size),
                self.registry == pre.registry,
                self.tick == pre.tick,
                i == e.index,
                self.spec_live(e),
                !pre.live_index(i as int),
                self.live_count == pre.live_count + 1,
                forall|x: usize|
                    #[trigger] self.spec_comps(i as int).contains(x) <==> exists|j: int|
                        0 <= j < k && (#[trigger] all[j]).0 == x,
                forall|j: int|
                    0 <= j < k && (forall|j2: int| j < j2 < k ==> (#[trigger] all[j2]).0 != all[j].0)
                        ==> {
                        &&& self.comp_value(i as int, (#[trigger] all[j]).0) == all[j].1@
                        &&& self.comp_added(i as int, all[j].0) == pre.tick
                        &&& self.comp_changed(i as int, all[j].0) == pre.tick
                    },
                forall|j: int| j != i ==> pre.entity_unchanged(*self, j),
                pre.slot_count() <= self.slot_count(),
            decreases n - k,
        {
            let pair = comps.remove(0);
            let c = pair.0;
            let value = pair.1;
            proof {
                assert(all[k as int] == pair);
                assert(comps@ =~= all.subrange(k + 1, n as int));
                assert(c < self.registry.count());
            }
            let ghost wk = *self;
            match self.insert_component(e, c, value) {
                Ok(()) => {},
                Err(_) => {
                    return Err(WorldError::ComponentNotRegistered);
                },
            }
            proof {
                assert(spec_inserted(wk, *self, i as int, c, all[k as int].1@));
                assert forall|x: usize|
                    #[trigger] self.spec_comps(i as int).contains(x) <==> exists|j: int|
                        0 <= j < k + 1 && (#[trigger] all[j]).0 == x by {
                    if self.spec_comps(i as int).contains(x) {
                        if x == c {
                            assert(all[k as int].0 == x);
                        } else {
                            assert(wk.spec_comps(i as int).contains(x));
                            let j = choose|j: int| 0 <= j < k && (#[trigger] all[j]).0 == x;
                            assert(0 <= j < k + 1 && all[j].0 == x);
                        }
                    } else {
                        if exists|j: int| 0 <= j < k + 1 && (#[trigger] all[j]).0 == x {
                            let j = choose|j: int| 0 <= j < k + 1 && (#[trigger] all[j]).0 == x;
                            if j < k {
                                assert(wk.spec_comps(i as int).contains(x));
                                assert(self.spec_comps(i as int).contains(x));
                            } else {
                                assert(x == c);
                                assert(self.spec_comps(i as int).contains(x));
                            }
                        }
                    }
                }
                assert forall|j: int|
                    0 <= j < k + 1 && (forall|j2: int|
                        j < j2 < k + 1 ==> (#[trigger] all[j2]).0 != all[j].0) implies {
                    &&& self.comp_value(i as int, (#[trigger] all[j]).0) == all[j].1@
                    &&& self.comp_added(i as int, all[j].0) == pre.tick
                    &&& self.comp_changed(i as int, all[j].0) == pre.tick
                } by {
                    if j == k {
                        assert(self.comp_value(i as int, c) == all[k as int].1@);
                        assert(self.comp_added(i as int, c) == if wk.has_comp(i as int, c) {
                            wk.comp_added(i as int, c)
                        } else {
                            wk.tick
                        });
                        if wk.has_comp(i as int, c) {
                            let j0 = choose|j0: int| 0 <= j0 < k && (#[trigger] all[j0]).0 == c;
                            let jl = last_index_of(all, k as int, c);
                            assert(0 <= jl < k && all[jl].0 == c && (forall|j2: int|
                                jl < j2 < k ==> (#[trigger] all[j2]).0 != c)) by {
                                lemma_last_index_of(all, k as int, c, j0);
                            }
                            assert(wk.comp_added(i as int, c) == pre.tick);
                        }
                    } else {
                        assert(all[j].0 != c);
                        assert(wk.spec_comps(i as int).contains(all[j].0)) by {
                            assert(exists|j2: int| 0 <= j2 < k && (#[trigger] all[j2]).0 == all[j].0);
                        }
                        assert(wk.comp_value(i as int, all[j].0) == all[j].1@);
                    }
                }
                assert forall|j: int| j != i implies pre.entity_unchanged(*self, j) by {
                    assert(pre.entity_unchanged(wk, j));
                    assert(wk.entity_unchanged(*self, j));
                    Self::lemma_entity_unchanged_trans(pre, wk, *self, j);
                }
            }
            k = k + 1;
        }
        Ok(e)
    }

    /// Destroys the entity: its sparse values are dropped, its table row is
    /// swap-removed (relocating at most one other entity's row, whose
    /// location entry is corrected), its index goes back to the allocator,
    /// and its stored generation is bumped so the handle is stale.
    #[verifier::rlimit(100)]
    pub fn despawn(&mut self, e: EntityId) -> (r: Result<(), WorldError>)
        requires
            old(self).wf(),
        ensures
            final(self).wf(),
            final(self).registry == old(self).registry,
            final(self).archetypes@ == old(self).archetypes@,
            final(self).tick == old(self).tick,
            final(self).slot_count() == old(self).slot_count(),
            match r {
                Ok(()) => {
                    &&& old(self).spec_live(e)
                    &&& !final(self).live_index(e.index as int)
                    &&& !final(self).spec_live(e)
                    &&& final(self).gen_of(e.index as int) == if e.generation < u64::MAX {
                        (e.generation + 1) as u64
                    } else {
                        e.generation
                    }
                    &&& final(self).live_count + 1 == old(self).live_count
                    &&& forall|j: int| j != e.index ==> old(self).entity_unchanged(*final(self), j)
                },
                Err(err) => {
                    &&& *final(self) == *old(self)
                    &&& !old(self).spec_live(e)
                    &&& err == old(self).spec_handle_error(e)
                },
            },
    {
        if let Err(err) = self.check_handle(e) {
            return Err(err);
        }
        let i = e.index;
        let l = match self.locations[i] {
            Some(l) => l,
            None => {
                return Err(WorldError::EntityNotFound);
            },
        };
        let a = l.archetype;
        let r0 = l.row;
        let ghost pre = *self;
        proof {
            assert(pre.locations@[i as int] == Some(l));
            assert(pre.arch_set_wf(a as int));
        }
        let comps = crate::component_set::copy_ids(&self.archetypes[a].comp_set);
        let mut k: usize = 0;
        while k < comps.len()
            invariant
                pre.wf(),
                k <= comps@.len(),
                i < pre.locations@.len(),
                pre.locations@[i as int] == Some(l),
                a == l.archetype,
                a < pre.archetypes@.len(),
                comps@ == pre.archetypes@[a as int].comp_set@,
                self.registry == pre.registry,
                self.archetypes@ == pre.archetypes@,
                self.tables@ == pre.tables@,
                self.allocator == pre.allocator,
                self.locations@ == pre.locations@,
                self.live_count == pre.live_count,
                self.tick == pre.tick,
                self.sparse_sets@.len() == pre.sparse_sets@.len(),
                forall|c2: int|
                    0 <= c2 < self.sparse_sets@.len() ==> (#[trigger] self.sparse_sets@[c2]).wf(),
                forall|c2: usize|
                    c2 < self.sparse_sets@.len() && (!comps@.subrange(0, k as int).contains(c2)
                        || pre.registry.spec_info(c2 as int).kind == StorageKind::Table) ==> (
                    #[trigger] self.sparse_sets@[c2 as int]) == pre.sparse_sets@[c2 as int],
                forall|c2: int, j: int|
                    0 <= c2 < self.sparse_sets@.len() && j != i ==> (
                    #[trigger] self.sparse_sets@[c2].spec_contains(j))
                        == pre.sparse_sets@[c2].spec_contains(j),
                forall|c2: int, j: int|
                    0 <= c2 < self.sparse_sets@.len() && j != i
                        && pre.sparse_sets@[c2].spec_contains(j) ==> (
                    #[trigger] self.sparse_sets@[c2].spec_slot(j))
                        == pre.sparse_sets@[c2].spec_slot(j),
                forall|m: int|
                    0 <= m < k && pre.registry.spec_info(comps@[m] as int).kind
                        == StorageKind::SparseSet ==> !self.sparse_sets@[comps@[m] as int].spec_contains(
                        i as int,
                    ),
            decreases comps@.len() - k,
        {
            let c = comps[k];
            let ghost s0 = *self;
            proof {
                assert(pre.arch_set_wf(a as int));
                assert(comps@[k as int] < pre.registry.count());
                assert(comps@.subrange(0, k + 1) =~= comps@.subrange(0, k as int).push(c));
                assert forall|m: int| 0 <= m < k implies comps@[m] != c by {
                    assert(comps@[m] < comps@[k as int]);
                }
                assert(!comps@.subrange(0, k as int).contains(c)) by {
                    if comps@.subrange(0, k as int).contains(c) {
                        let m = choose|m: int|
                            0 <= m < k && comps@.subrange(0, k as int)[m] == c;
                        assert(comps@[m] == c);
                    }
                }
            }
            if self.registry.kind_of(c) == StorageKind::SparseSet {
                let _dropped = self.sparse_sets[c].remove(i);
            }
            proof {
                assert forall|c2: usize|
                    c2 < self.sparse_sets@.len() && (!comps@.subrange(0, k + 1).contains(c2)
                        || pre.registry.spec_info(c2 as int).kind == StorageKind::Table) implies
                    self.sparse_sets@[c2 as int] == pre.sparse_sets@[c2 as int] by {
                    assert(!comps@.subrange(0, k as int).contains(c2)
                        || pre.registry.spec_info(c2 as int).kind == StorageKind::Table) by {
                        if comps@.subrange(0, k as int).contains(c2) {
                            let m = choose|m: int|
                                0 <= m < k && comps@.subrange(0, k as int)[m] == c2;
                            assert(comps@.subrange(0, k + 1)[m] == c2);
                            assert(comps@.subrange(0, k + 1).contains(c2));
                        }
                    }
                    assert(c2 < s0.sparse_sets@.len());
                    assert(s0.sparse_sets@[c2 as int] == pre.sparse_sets@[c2 as int]);
                    if c2 != c {
                        assert(self.sparse_sets@[c2 as int] == s0.sparse_sets@[c2 as int]);
                    } else {
                        assert(comps@.subrange(0, k + 1)[k as int] == c);
                        assert(comps@.subrange(0, k + 1).contains(c));
                        assert(pre.registry.spec_info(c as int).kind == StorageKind::Table);
                        assert(self.sparse_sets@ == s0.sparse_sets@);
                    }
                }
            }
            k = k + 1;
        }
        proof {
            assert(self.tables@[a as int] == pre.tables@[a as int]);
            assert(pre.arch_set_wf(a as int));
            lemma_vec_len_bound(pre.tables@[a as int].entities);
        }
        let ghost old_last: int = self.tables@[a as int].entities@.len() - 1;
        let moved = self.tables[a].swap_remove_row(r0);
        if let Some(mv) = moved {
            proof {
                assert(pre.tables@[a as int].entities@[old_last] == mv);
                assert(pre.locations@[mv as int] == Some(
                    EntityLocation { archetype: a, row: old_last as usize },
                ));
                assert(mv != i);
            }
            self.locations[mv] = Some(EntityLocation { archetype: a, row: r0 });
            proof {
                lemma_count_live_update(
                    pre.locations@,
                    pre.locations@.len() as int,
                    mv as int,
                    Some(EntityLocation { archetype: a, row: r0 }),
                );
            }
        }
        let ghost mid_locs = self.locations@;
        proof {
            assert(count_live(mid_locs, mid_locs.len() as int) == pre.live_count);
            assert(mid_locs[i as int] is Some);
            lemma_count_live_occupied(mid_locs, mid_locs.len() as int, i as int);
            lemma_count_live_update(mid_locs, mid_locs.len() as int, i as int, None);
        }
        self.locations[i] = None;
        proof {
            assert(self.allocator == pre.allocator);
        }
        self.allocator.free(e);
        proof {
            assert(self.allocator.slot_count() == pre.allocator.slot_count());
            assert forall|j: int|
                0 <= j < pre.allocator.slot_count() && j != e.index implies
                self.allocator.index_live(j) == pre.allocator.index_live(j)
                    && self.allocator.generations@[j] == pre.allocator.generations@[j] by {}
        }
        self.live_count = self.live_count - 1;
        proof {
            self.lemma_despawn_wf(pre, e, a, r0, moved);
        }
        Ok(())
    }

    #[verifier::rlimit(100)]
    proof fn lemma_despawn_wf(self, pre: World, e: EntityId, a: usize, r0: usize, moved: Option<
        usize,
    >)
        requires
            pre.wf(),
            pre.spec_live(e),
            pre.locations@[e.index as int] == Some(EntityLocation { archetype: a, row: r0 }),
            self.registry == pre.registry,
            self.archetypes@ == pre.archetypes@,
            self.tick == pre.tick,
            // the allocator freed the handle
            self.allocator.wf(),
            self.allocator.slot_count() == pre.allocator.slot_count(),
            !self.allocator.index_live(e.index as int),
            forall|j: int|
                0 <= j < pre.allocator.slot_count() && j != e.index ==> self.allocator.index_live(j)
                    == pre.allocator.index_live(j) && self.allocator.generations@[j]
                    == pre.allocator.generations@[j],
            // the table row is swap-removed
            self.tables@.len() == pre.tables@.len(),
            forall|b: int| 0 <= b < pre.tables@.len() && b != a ==> self.tables@[b] == pre.tables@[b],
            self.tables@[a as int].wf(),
            self.tables@[a as int].comp_ids@ == pre.tables@[a as int].comp_ids@,
            self.tables@[a as int].entities@ == pre.tables@[a as int].entities@.update(
                r0 as int,
                pre.tables@[a as int].entities@.last(),
            ).drop_last(),
            forall|j: int|
                0 <= j < pre.tables@[a as int].columns@.len() ==> self.tables@[a as int].columns@[j]@
                    == pre.tables@[a as int].columns@[j]@.update(
                    r0 as int,
                    pre.tables@[a as int].columns@[j]@.last(),
                ).drop_last(),
            moved == if r0 + 1 == pre.tables@[a as int].entities@.len() {
                Option::<usize>::None
            } else {
                Option::<usize>::Some(pre.tables@[a as int].entities@.last())
            },
            // the location index is corrected
            self.locations@ == if moved is Some {
                pre.locations@.update(
                    moved->Some_0 as int,
                    Some(EntityLocation { archetype: a, row: r0 }),
                ).update(e.index as int, Option::<EntityLocation>::None)
            } else {
                pre.locations@.update(e.index as int, Option::<EntityLocation>::None)
            },
            self.live_count == count_live(self.locations@, self.locations@.len() as int),
            // the sparse sets dropped the entity's values and nothing else
            self.sparse_sets@.len() == pre.sparse_sets@.len(),
            forall|c2: int|
                0 <= c2 < self.sparse_sets@.len() ==> (#[trigger] self.sparse_sets@[c2]).wf(),
            forall|c2: usize|
                c2 < self.sparse_sets@.len() && (!pre.archetypes@[a as int].comp_set@.contains(c2)
                    || pre.registry.spec_info(c2 as int).kind == StorageKind::Table)
                    ==> self.sparse_sets@[c2 as int] == pre.sparse_sets@[c2 as int],
            forall|c2: int, j: int|
                0 <= c2 < self.sparse_sets@.len() && j != e.index ==> (
                #[trigger] self.sparse_sets@[c2].spec_contains(j))
                    == pre.sparse_sets@[c2].spec_contains(j),
            forall|c2: int, j: int|
                0 <= c2 < self.sparse_sets@.len() && j != e.index
                    && pre.sparse_sets@[c2].spec_contains(j) ==> (
                #[trigger] self.sparse_sets@[c2].spec_slot(j)) == pre.sparse_sets@[c2].spec_slot(j),
            forall|m: int|
                0 <= m < pre.archetypes@[a as int].comp_set@.len() && pre.registry.spec_info(
                    pre.archetypes@[a as int].comp_set@[m] as int,
                ).kind == StorageKind::SparseSet ==> !self.sparse_sets@[pre.archetypes@[a as int].comp_set@[m] as int].spec_contains(
                    e.index as int,
                ),
        ensures
            self.wf(),
            forall|j: int| j != e.index ==> pre.entity_unchanged(self, j),
    {
        let i = e.index as int;
        let old_rows = pre.tables@[a as int].entities@.len() as int;
        let old_last = old_rows - 1;
        assert(pre.arch_set_wf(a as int));
        assert forall|b: int| 0 <= b < pre.tables@.len() implies pre.tables@[b].entities@.len()
            <= usize::MAX by {
            lemma_vec_len_bound(pre.tables@[b].entities);
        }
        lemma_vec_len_bound(pre.tables);
        lemma_vec_len_bound(pre.locations);
        assert(r0 < old_rows);
        // the entity occupied row r0; the last row held either it or the
        // relocated entity
        assert(pre.tables@[a as int].entities@[r0 as int] == i);
        if moved is Some {
            let mv = moved->Some_0 as int;
            assert(pre.tables@[a as int].entities@[old_last] == mv);
            assert(pre.locations@[mv] == Some(
                EntityLocation { archetype: a, row: old_last as usize },
            ));
            assert(mv != i);
        } else {
            assert(r0 == old_last);
        }
        assert forall|b: int| 0 <= b < self.archetypes@.len() implies self.arch_set_wf(b) by {
            assert(pre.arch_set_wf(b));
        }
        assert forall|b: int, k: int|
            0 <= b < self.archetypes@.len() && 0 <= k < self.archetypes@[b].edges_add@.len()
            implies self.add_edge_ok(
            b,
            (#[trigger] self.archetypes@[b].edges_add@[k]).0,
            self.archetypes@[b].edges_add@[k].1 as int,
        ) by {
            assert(pre.add_edge_ok(
                b,
                pre.archetypes@[b].edges_add@[k].0,
                pre.archetypes@[b].edges_add@[k].1 as int,
            ));
        }
        assert forall|b: int, k: int|
            0 <= b < self.archetypes@.len() && 0 <= k < self.archetypes@[b].edges_remove@.len()
            implies self.remove_edge_ok(
            b,
            (#[trigger] self.archetypes@[b].edges_remove@[k]).0,
            self.archetypes@[b].edges_remove@[k].1 as int,
        ) by {
            assert(pre.remove_edge_ok(
                b,
                pre.archetypes@[b].edges_remove@[k].0,
                pre.archetypes@[b].edges_remove@[k].1 as int,
            ));
        }
        assert(self.wf_graph());
        // liveness agrees with the location index
        assert forall|j: int|
            0 <= j < self.locations@.len() implies (self.allocator.index_live(j) <==> (
        #[trigger] self.locations@[j]) is Some) by {
            if j != i {
                if moved is Some && j == moved->Some_0 as int {
                } else {
                    assert(self.locations@[j] == pre.locations@[j]);
                }
            }
        }
        // locations point at real rows
        assert forall|j: int|
            0 <= j < self.locations@.len() && (#[trigger] self.locations@[j]) is Some implies {
            let lj = self.locations@[j]->Some_0;
            &&& lj.archetype < self.archetypes@.len()
            &&& lj.row < self.tables@[lj.archetype as int].entities@.len()
            &&& self.tables@[lj.archetype as int].entities@[lj.row as int] == j
        } by {
            if moved is Some && j == moved->Some_0 as int {
                assert(self.locations@[j] == Some(EntityLocation { archetype: a, row: r0 }));
                assert(self.tables@[a as int].entities@[r0 as int] == j);
            } else {
                assert(j != i);
                assert(self.locations@[j] == pre.locations@[j]);
                let lj = pre.locations@[j]->Some_0;
                assert(pre.tables@[lj.archetype as int].entities@[lj.row as int] == j);
                if lj.archetype == a {
                    assert(lj.row as int != r0);
                    assert(lj.row as int != old_last);
                    assert(self.tables@[a as int].entities@[lj.row as int] == j);
                }
            }
        }
        // rows point back at locations
        assert forall|b: int, r: int|
            0 <= b < self.tables@.len() && 0 <= r < self.tables@[b].entities@.len() implies {
            let j = #[trigger] self.tables@[b].entities@[r];
            &&& j < self.locations@.len()
            &&& self.locations@[j as int] == Some(
                EntityLocation { archetype: b as usize, row: r as usize },
            )
        } by {
            if b == a {
                if r == r0 as int && moved is Some {
                    assert(self.tables@[b].entities@[r] == pre.tables@[a as int].entities@[old_last]);
                } else {
                    assert(r != old_last);
                    assert(self.tables@[b].entities@[r] == pre.tables@[a as int].entities@[r]);
                    let j = pre.tables@[a as int].entities@[r];
                    assert(pre.locations@[j as int] == Some(
                        EntityLocation { archetype: b as usize, row: r as usize },
                    ));
                    assert(j != i);
                    assert(moved is Some ==> j != moved->Some_0);
                    assert(self.locations@[j as int] == pre.locations@[j as int]);
                }
            } else {
                assert(self.tables@[b] == pre.tables@[b]);
                let j = pre.tables@[b].entities@[r];
                assert(pre.locations@[j as int] == Some(
                    EntityLocation { archetype: b as usize, row: r as usize },
                ));
                assert(j != i);
                assert(moved is Some ==> j != moved->Some_0);
                assert(self.locations@[j as int] == pre.locations@[j as int]);
            }
        }
        assert(self.wf_entities());
        // sparse sets: the entity's values are gone, everything else stands
        assert forall|c2: usize, j: int|
            c2 < self.sparse_sets@.len() && #[trigger] self.sparse_sets@[c2 as int].spec_contains(j)
            implies {
            &&& self.live_index(j)
            &&& self.spec_comps(j).contains(c2)
            &&& self.registry.spec_info(c2 as int).kind == StorageKind::SparseSet
        } by {
            if j == i {
                assert(pre.sparse_sets@[c2 as int].spec_contains(j) || self.sparse_sets@[c2 as int]
                    == pre.sparse_sets@[c2 as int]);
                assert(pre.sparse_sets@[c2 as int].spec_contains(j));
                assert(pre.spec_comps(i).contains(c2));
                assert(pre.registry.spec_info(c2 as int).kind == StorageKind::SparseSet);
                let m = choose|m: int|
                    0 <= m < pre.archetypes@[a as int].comp_set@.len()
                        && pre.archetypes@[a as int].comp_set@[m] == c2;
                assert(pre.archetypes@[a as int].comp_set@[m] == c2);
                assert(!self.sparse_sets@[c2 as int].spec_contains(i));
                assert(false);
            } else {
                assert(pre.sparse_sets@[c2 as int].spec_contains(j));
                assert(pre.live_index(j));
                assert(self.locations@[j] is Some);
                assert(self.arch_of(j) == pre.arch_of(j));
            }
        }
        assert forall|j: int, c: usize|
            self.live_index(j) && #[trigger] self.spec_comps(j).contains(c)
                && self.registry.spec_info(c as int).kind == StorageKind::SparseSet implies
            self.sparse_sets@[c as int].spec_contains(j) by {
            assert(j != i);
            assert(self.arch_of(j) == pre.arch_of(j));
            assert(pre.spec_comps(j).contains(c));
            assert(pre.arch_set_wf(pre.arch_of(j)));
            let m = choose|m: int| 0 <= m < pre.spec_comps(j).len() && pre.spec_comps(j)[m] == c;
            assert(pre.spec_comps(j)[m] < pre.registry.count());
            assert(pre.sparse_sets@[c as int].spec_contains(j));
        }
        assert(self.wf_sparse());
        // every other entity is untouched
        assert forall|j: int| j != e.index implies pre.entity_unchanged(self, j) by {
            if pre.live_index(j) {
                assert(self.arch_of(j) == pre.arch_of(j));
                assert forall|c: usize| #[trigger] pre.spec_comps(j).contains(c) implies {
                    &&& self.comp_value(j, c) == pre.comp_value(j, c)
                    &&& self.comp_added(j, c) == pre.comp_added(j, c)
                    &&& self.comp_changed(j, c) == pre.comp_changed(j, c)
                } by {
                    let aj = pre.arch_of(j);
                    assert(pre.arch_set_wf(aj));
                    let m = choose|m: int|
                        0 <= m < pre.spec_comps(j).len() && pre.spec_comps(j)[m] == c;
                    assert(pre.spec_comps(j)[m] < pre.registry.count());
                    if pre.registry.spec_info(c as int).kind == StorageKind::SparseSet {
                        assert(pre.sparse_sets@[c as int].spec_contains(j));
                        assert(self.comp_slot(j, c) == pre.comp_slot(j, c));
                    } else {
                        assert(pre.archetypes@[aj].comp_set@.contains(c));
                        assert(pre.tables@[aj].comp_ids@.contains(c));
                        let col = pre.tables@[aj].col_index(c);
                        assert(0 <= col < pre.tables@[aj].comp_ids@.len()) by {
                            assert(pre.tables@[aj].comp_ids@[pre.tables@[aj].comp_ids@.index_of(c)]
                                == c);
                        }
                        if aj == a {
                            let rj = pre.spec_location(j).row as int;
                            if moved is Some && j == moved->Some_0 as int {
                                assert(rj == old_last);
                                assert(self.spec_location(j).row as int == r0);
                                assert(self.tables@[a as int].columns@[col]@[r0 as int]
                                    == pre.tables@[a as int].columns@[col]@[old_last]);
                            } else {
                                assert(rj != r0 && rj != old_last);
                                assert(self.spec_location(j) == pre.spec_location(j));
                                assert(self.tables@[a as int].columns@[col]@[rj]
                                    == pre.tables@[a as int].columns@[col]@[rj]);
                            }
                        } else {
                            assert(self.tables@[aj] == pre.tables@[aj]);
                            assert(self.spec_location(j) == pre.spec_location(j));
                        }
                    }
                }
            }
        }
    }

    /// Entity-frame transitivity: a store unchanged from `w1` to `w2` and
    /// from `w2` to `w3`, as seen from index `j`, is unchanged from `w1` to
    /// `w3`.
    pub proof fn lemma_entity_unchanged_trans(w1: World, w2: World, w3: World, j: int)
        requires
            w1.entity_unchanged(w2, j),
            w2.entity_unchanged(w3, j),
            w1.slot_count() <= w2.slot_count(),
        ensures
            w1.entity_unchanged(w3, j),
    {
        if w1.live_index(j) {
            assert forall|c: usize| #[trigger] w1.spec_comps(j).contains(c) implies {
                &&& w3.comp_value(j, c) == w1.comp_value(j, c)
                &&& w3.comp_added(j, c) == w1.comp_added(j, c)
                &&& w3.comp_changed(j, c) == w1.comp_changed(j, c)
            } by {
                assert(w2.spec_comps(j).contains(c));
            }
        }
    }

    /// After an in-place overwrite of one component slot of the entity at
    /// index `i` — a column slot of its row for a table-backed component, or
    /// its sparse entry for a sparse-backed one — the store is still well
    /// formed and every other entity is untouched.
    #[verifier::rlimit(100)]
    proof fn lemma_overwrite_wf(self, mid: World, i: usize, c: usize, a: usize, r0: usize)
        requires
            mid.wf(),
            mid.locations@[i as int] == Some(EntityLocation { archetype: a, row: r0 }),
            mid.live_index(i as int),
            mid.archetypes@[a as int].comp_set@.contains(c),
            c < mid.registry.count(),
            self.registry == mid.registry,
            self.archetypes@ == mid.archetypes@,
            self.allocator == mid.allocator,
            self.locations@ == mid.locations@,
            self.live_count == mid.live_count,
            self.tables@.len() == mid.tables@.len(),
            mid.registry.spec_info(c as int).kind == StorageKind::Table ==> {
                let jc = mid.tables@[a as int].col_index(c);
                &&& self.sparse_sets@ == mid.sparse_sets@
                &&& forall|b: int|
                    0 <= b < mid.tables@.len() && b != a ==> self.tables@[b] == mid.tables@[b]
                &&& self.tables@[a as int].wf()
                &&& self.tables@[a as int].comp_ids@ == mid.tables@[a as int].comp_ids@
                &&& self.tables@[a as int].entities@ == mid.tables@[a as int].entities@
                &&& forall|jt: int|
                    0 <= jt < mid.tables@[a as int].columns@.len() && jt != jc
                        ==> self.tables@[a as int].columns@[jt] == mid.tables@[a as int].columns@[jt]
                &&& self.tables@[a as int].columns@[jc]@.len() == mid.tables@[a as int].columns@[jc]@.len()
                &&& forall|r2: int|
                    0 <= r2 < mid.tables@[a as int].columns@[jc]@.len() && r2 != r0
                        ==> self.tables@[a as int].columns@[jc]@[r2] == mid.tables@[a as int].columns@[jc]@[r2]
            },
            mid.registry.spec_info(c as int).kind == StorageKind::SparseSet ==> {
                &&& self.tables@ == mid.tables@
                &&& self.sparse_sets@.len() == mid.sparse_sets@.len()
                &&& forall|x: int|
                    0 <= x < mid.sparse_sets@.len() && x != c ==> self.sparse_sets@[x]
                        == mid.sparse_sets@[x]
                &&& self.sparse_sets@[c as int].wf()
                &&& forall|j: int|
                    self.sparse_sets@[c as int].spec_contains(j) == mid.sparse_sets@[c as int].spec_contains(
                        j,
                    )
                &&& forall|j: int|
                    j != i && mid.sparse_sets@[c as int].spec_contains(j)
                        ==> self.sparse_sets@[c as int].spec_slot(j) == mid.sparse_sets@[c as int].spec_slot(
                        j,
                    )
            },
        ensures
            self.wf(),
            forall|j: int| j != i ==> mid.entity_unchanged(self, j),
            forall|c2: usize|
                c2 != c && #[trigger] mid.spec_comps(i as int).contains(c2) ==> self.comp_slot(
                    i as int,
                    c2,
                ) == mid.comp_slot(i as int, c2),
    {
        let ghost ai = a as int;
        assert(mid.arch_set_wf(ai));
        let ghost kind = mid.registry.spec_info(c as int).kind;
        assert forall|b: int| 0 <= b < self.archetypes@.len() implies self.arch_set_wf(b) by {
            assert(mid.arch_set_wf(b));
        }
        assert forall|b: int, k: int|
            0 <= b < self.archetypes@.len() && 0 <= k < self.archetypes@[b].edges_add@.len()
            implies self.add_edge_ok(
            b,
            (#[trigger] self.archetypes@[b].edges_add@[k]).0,
            self.archetypes@[b].edges_add@[k].1 as int,
        ) by {
            assert(mid.add_edge_ok(
                b,
                mid.archetypes@[b].edges_add@[k].0,
                mid.archetypes@[b].edges_add@[k].1 as int,
            ));
        }
        assert forall|b: int, k: int|
            0 <= b < self.archetypes@.len() && 0 <= k < self.archetypes@[b].edges_remove@.len()
            implies self.remove_edge_ok(
            b,
            (#[trigger] self.archetypes@[b].edges_remove@[k]).0,
            self.archetypes@[b].edges_remove@[k].1 as int,
        ) by {
            assert(mid.remove_edge_ok(
                b,
                mid.archetypes@[b].edges_remove@[k].0,
                mid.archetypes@[b].edges_remove@[k].1 as int,
            ));
        }
        assert(self.wf_graph());
        assert forall|j: int|
            0 <= j < self.locations@.len() && (#[trigger] self.locations@[j]) is Some implies {
            let l = self.locations@[j]->Some_0;
            &&& l.archetype < self.archetypes@.len()
            &&& l.row < self.tables@[l.archetype as int].entities@.len()
            &&& self.tables@[l.archetype as int].entities@[l.row as int] == j
        } by {
            let l = mid.locations@[j]->Some_0;
            assert(mid.tables@[l.archetype as int].entities@[l.row as int] == j);
            assert(self.tables@[l.archetype as int].entities@ == mid.tables@[l.archetype as int].entities@);
        }
        assert forall|b: int, r: int|
            0 <= b < self.tables@.len() && 0 <= r < self.tables@[b].entities@.len() implies {
            let j = #[trigger] self.tables@[b].entities@[r];
            &&& j < self.locations@.len()
            &&& self.locations@[j as int] == Some(
                EntityLocation { archetype: b as usize, row: r as usize },
            )
        } by {
            assert(self.tables@[b].entities@ == mid.tables@[b].entities@);
            assert(mid.tables@[b].entities@[r] == self.tables@[b].entities@[r]);
        }
        assert(self.wf_entities());
        assert forall|x: int|
            0 <= x < self.sparse_sets@.len() implies (#[trigger] self.sparse_sets@[x]).wf() by {
            if kind == StorageKind::Table || x != c {
                assert(self.sparse_sets@[x] == mid.sparse_sets@[x]);
                assert(mid.sparse_sets@[x].wf());
            }
        }
        assert forall|c2: usize, j: int|
            c2 < self.sparse_sets@.len() && #[trigger] self.sparse_sets@[c2 as int].spec_contains(j)
            implies {
            &&& self.live_index(j)
            &&& self.spec_comps(j).contains(c2)
            &&& self.registry.spec_info(c2 as int).kind == StorageKind::SparseSet
        } by {
            assert(mid.sparse_sets@[c2 as int].spec_contains(j));
        }
        assert forall|j: int, c2: usize|
            self.live_index(j) && #[trigger] self.spec_comps(j).contains(c2)
                && self.registry.spec_info(c2 as int).kind == StorageKind::SparseSet implies
            self.sparse_sets@[c2 as int].spec_contains(j) by {
            assert(mid.spec_comps(j).contains(c2));
            assert(mid.arch_set_wf(mid.arch_of(j)));
            let p = choose|p: int| 0 <= p < mid.spec_comps(j).len() && mid.spec_comps(j)[p] == c2;
            assert(mid.spec_comps(j)[p] < mid.registry.count());
            assert(mid.sparse_sets@[c2 as int].spec_contains(j));
            if c2 != c || kind == StorageKind::Table {
                assert(self.sparse_sets@[c2 as int] == mid.sparse_sets@[c2 as int]);
            }
        }
        assert(self.wf_sparse());
        assert forall|j: int| j != i implies mid.entity_unchanged(self, j) by {
            if mid.live_index(j) {
                assert forall|c2: usize| #[trigger] mid.spec_comps(j).contains(c2) implies {
                    &&& self.comp_value(j, c2) == mid.comp_value(j, c2)
                    &&& self.comp_added(j, c2) == mid.comp_added(j, c2)
                    &&& self.comp_changed(j, c2) == mid.comp_changed(j, c2)
                } by {
                    let aj = mid.arch_of(j);
                    assert(mid.arch_set_wf(aj));
                    let p = choose|p: int|
                        0 <= p < mid.spec_comps(j).len() && mid.spec_comps(j)[p] == c2;
                    assert(mid.spec_comps(j)[p] < mid.registry.count());
                    if mid.registry.spec_info(c2 as int).kind == StorageKind::SparseSet {
                        if c2 == c {
                            assert(mid.sparse_sets@[c as int].spec_contains(j));
                            assert(self.comp_slot(j, c2) == mid.comp_slot(j, c2));
                        } else {
                            assert(self.comp_slot(j, c2) == mid.comp_slot(j, c2));
                        }
                    } else {
                        if aj == ai && kind == StorageKind::Table {
                            let rj = mid.spec_location(j).row as int;
                            assert(rj != r0) by {
                                assert(mid.tables@[ai].entities@[rj] == j);
                                assert(mid.tables@[ai].entities@[r0 as int] == i);
                            }
                            let jc2 = mid.tables@[ai].col_index(c2);
                            assert(mid.tables@[ai].comp_ids@.contains(c2));
                            assert(0 <= jc2 < mid.tables@[ai].comp_ids@.len()) by {
                                assert(mid.tables@[ai].comp_ids@[mid.tables@[ai].comp_ids@.index_of(
                                    c2,
                                )] == c2);
                            }
                            assert(self.tables@[ai].columns@[jc2]@[rj] == mid.tables@[ai].columns@[jc2]@[rj]);
                        } else {
                            assert(self.tables@[aj] == mid.tables@[aj]);
                        }
                    }
                }
            }
        }
        assert forall|c2: usize|
            c2 != c && #[trigger] mid.spec_comps(i as int).contains(c2) implies self.comp_slot(
                i as int,
                c2,
            ) == mid.comp_slot(i as int, c2) by {
            let p = choose|p: int|
                0 <= p < mid.spec_comps(i as int).len() && mid.spec_comps(i as int)[p] == c2;
            assert(mid.spec_comps(i as int)[p] < mid.registry.count());
            if mid.registry.spec_info(c2 as int).kind == StorageKind::SparseSet {
                assert(mid.sparse_sets@[c2 as int].spec_contains(i as int));
            } else {
                if kind == StorageKind::Table {
                    let jc = mid.tables@[ai].col_index(c);
                    let jc2 = mid.tables@[ai].col_index(c2);
                    assert(mid.tables@[ai].comp_ids@.contains(c2));
                    assert(0 <= jc2 < mid.tables@[ai].comp_ids@.len()) by {
                        assert(mid.tables@[ai].comp_ids@[mid.tables@[ai].comp_ids@.index_of(c2)]
                            == c2);
                    }
                    assert(jc2 != jc || !mid.tables@[ai].comp_ids@.contains(c) || c2 == c) by {
                        if mid.tables@[ai].comp_ids@.contains(c) {
                            assert(mid.tables@[ai].comp_ids@[mid.tables@[ai].comp_ids@.index_of(c)]
                                == c);
                        }
                    }
                    assert(self.tables@[ai].columns@[jc2]@[r0 as int] == mid.tables@[ai].columns@[jc2]@[r0 as int]);
                }
            }
        }
    }

    /// After migrating the entity at index `i` from archetype `a` to
    /// archetype `target` — its table columns copied row-for-row into a
    /// fresh row of the target's table, the slot of the changed component
    /// written or dropped, the old row swap-removed with the relocated
    /// entity's location corrected, and the location index updated last —
    /// the store is well formed and every other entity is untouched.
    #[verifier::rlimit(100)]
    proof fn lemma_migrate_wf(
        self,
        mid: World,
        i: usize,
        c: usize,
        a: usize,
        target: usize,
        r0: usize,
        new_row: usize,
        moved: Option<usize>,
    )
        requires
            mid.wf(),
            mid.live_index(i as int),
            mid.locations@[i as int] == Some(EntityLocation { archetype: a, row: r0 }),
            a != target,
            a < mid.archetypes@.len(),
            target < mid.archetypes@.len(),
            c < mid.registry.count(),
            forall|x: usize|
                x != c ==> (#[trigger] mid.archetypes@[target as int].comp_set@.contains(x)
                    <==> mid.archetypes@[a as int].comp_set@.contains(x)),
            self.registry == mid.registry,
            self.archetypes@ == mid.archetypes@,
            self.allocator == mid.allocator,
            self.tables@.len() == mid.tables@.len(),
            forall|b: int|
                0 <= b < mid.tables@.len() && b != a && b != target ==> self.tables@[b]
                    == mid.tables@[b],
            // the target table gained one row for the entity
            new_row as int == mid.tables@[target as int].entities@.len(),
            self.tables@[target as int].wf(),
            self.tables@[target as int].comp_ids@ == mid.tables@[target as int].comp_ids@,
            self.tables@[target as int].entities@ == mid.tables@[target as int].entities@.push(i),
            forall|jt: int, r2: int|
                0 <= jt < mid.tables@[target as int].columns@.len() && 0 <= r2 < new_row
                    ==> self.tables@[target as int].columns@[jt]@[r2] == mid.tables@[target as int].columns@[jt]@[r2],
            // the new row holds the entity's values, copied column for column
            forall|jt: int|
                0 <= jt < self.tables@[target as int].comp_ids@.len() && (
                #[trigger] self.tables@[target as int].comp_ids@[jt]) != c ==> {
                    let x = self.tables@[target as int].comp_ids@[jt];
                    &&& mid.tables@[a as int].comp_ids@.contains(x)
                    &&& self.tables@[target as int].columns@[jt]@[new_row as int].value@
                        == mid.tables@[a as int].spec_slot(x, r0 as int).value@
                    &&& self.tables@[target as int].columns@[jt]@[new_row as int].added
                        == mid.tables@[a as int].spec_slot(x, r0 as int).added
                    &&& self.tables@[target as int].columns@[jt]@[new_row as int].changed
                        == mid.tables@[a as int].spec_slot(x, r0 as int).changed
                },
            // the old row is swap-removed
            r0 < mid.tables@[a as int].entities@.len(),
            self.tables@[a as int].wf(),
            self.tables@[a as int].comp_ids@ == mid.tables@[a as int].comp_ids@,
            self.tables@[a as int].entities@ == mid.tables@[a as int].entities@.update(
                r0 as int,
                mid.tables@[a as int].entities@.last(),
            ).drop_last(),
            forall|jt: int|
                0 <= jt < mid.tables@[a as int].columns@.len() ==> self.tables@[a as int].columns@[jt]@
                    == mid.tables@[a as int].columns@[jt]@.update(
                    r0 as int,
                    mid.tables@[a as int].columns@[jt]@.last(),
                ).drop_last(),
            moved == if r0 + 1 == mid.tables@[a as int].entities@.len() {
                Option::<usize>::None
            } else {
                Option::<usize>::Some(mid.tables@[a as int].entities@.last())
            },
            // sparse sets: at most the changed component's set was touched
            self.sparse_sets@.len() == mid.sparse_sets@.len(),
            forall|x: int|
                0 <= x < mid.sparse_sets@.len() && x != c ==> self.sparse_sets@[x]
                    == mid.sparse_sets@[x],
            c < self.sparse_sets@.len() ==> {
                &&& self.sparse_sets@[c as int].wf()
                &&& forall|j: int|
                    j != i ==> self.sparse_sets@[c as int].spec_contains(j)
                        == mid.sparse_sets@[c as int].spec_contains(j)
                &&& forall|j: int|
                    j != i && mid.sparse_sets@[c as int].spec_contains(j)
                        ==> self.sparse_sets@[c as int].spec_slot(j)
                        == mid.sparse_sets@[c as int].spec_slot(j)
                &&& (mid.registry.spec_info(c as int).kind == StorageKind::SparseSet ==> (
                self.sparse_sets@[c as int].spec_contains(i as int)
                    <==> mid.archetypes@[target as int].comp_set@.contains(c)))
                &&& (mid.registry.spec_info(c as int).kind == StorageKind::Table
                    ==> self.sparse_sets@[c as int] == mid.sparse_sets@[c as int])
            },
            // the location index is corrected last
            self.locations@ == (if moved is Some {
                mid.locations@.update(
                    moved->Some_0 as int,
                    Some(EntityLocation { archetype: a, row: r0 }),
                )
            } else {
                mid.locations@
            }).update(i as int, Some(EntityLocation { archetype: target, row: new_row })),
            self.live_count == mid.live_count,
        ensures
            self.wf(),
            forall|j: int| j != i ==> mid.entity_unchanged(self, j),
            self.live_index(i as int),
            self.locations@[i as int] == Some(EntityLocation { archetype: target, row: new_row }),
            self.spec_comps(i as int) == mid.archetypes@[target as int].comp_set@,
            self.gen_of(i as int) == mid.gen_of(i as int),
    {
        let ii = i as int;
        let ai = a as int;
        let ti = target as int;
        let old_rows = mid.tables@[ai].entities@.len() as int;
        let old_last = old_rows - 1;
        assert(mid.arch_set_wf(ai));
        assert(mid.arch_set_wf(ti));
        assert forall|b: int| 0 <= b < mid.tables@.len() implies mid.tables@[b].entities@.len()
            <= usize::MAX by {
            lemma_vec_len_bound(mid.tables@[b].entities);
        }
        lemma_vec_len_bound(mid.tables);
        lemma_vec_len_bound(mid.locations);
        assert(mid.tables@[ai].entities@[r0 as int] == ii);
        if moved is Some {
            let mv = moved->Some_0 as int;
            assert(mid.tables@[ai].entities@[old_last] == mv);
            assert(mid.locations@[mv] == Some(
                EntityLocation { archetype: a, row: old_last as usize },
            ));
            assert(mv != ii);
        } else {
            assert(r0 == old_last);
        }
        // the count is unchanged: both location updates keep the entry occupied
        assert(count_live(self.locations@, self.locations@.len() as int) == mid.live_count) by {
            if moved is Some {
                let mv = moved->Some_0 as int;
                lemma_count_live_update(
                    mid.locations@,
                    mid.locations@.len() as int,
                    mv,
                    Some(EntityLocation { archetype: a, row: r0 }),
                );
                lemma_count_live_update(
                    mid.locations@.update(mv, Some(EntityLocation { archetype: a, row: r0 })),
                    mid.locations@.len() as int,
                    ii,
                    Some(EntityLocation { archetype: target, row: new_row }),
                );
            } else {
                lemma_count_live_update(
                    mid.locations@,
                    mid.locations@.len() as int,
                    ii,
                    Some(EntityLocation { archetype: target, row: new_row }),
                );
            }
        }
        assert forall|b: int| 0 <= b < self.archetypes@.len() implies self.arch_set_wf(b) by {
            assert(mid.arch_set_wf(b));
        }
        assert forall|b: int, k: int|
            0 <= b < self.archetypes@.len() && 0 <= k < self.archetypes@[b].edges_add@.len()
            implies self.add_edge_ok(
            b,
            (#[trigger] self.archetypes@[b].edges_add@[k]).0,
            self.archetypes@[b].edges_add@[k].1 as int,
        ) by {
            assert(mid.add_edge_ok(
                b,
                mid.archetypes@[b].edges_add@[k].0,
                mid.archetypes@[b].edges_add@[k].1 as int,
            ));
        }
        assert forall|b: int, k: int|
            0 <= b < self.archetypes@.len() && 0 <= k < self.archetypes@[b].edges_remove@.len()
            implies self.remove_edge_ok(
            b,
            (#[trigger] self.archetypes@[b].edges_remove@[k]).0,
            self.archetypes@[b].edges_remove@[k].1 as int,
        ) by {
            assert(mid.remove_edge_ok(
                b,
                mid.archetypes@[b].edges_remove@[k].0,
                mid.archetypes@[b].edges_remove@[k].1 as int,
            ));
        }
        assert(self.wf_graph());
        // liveness agrees with the location index
        assert forall|j: int|
            0 <= j < self.locations@.len() implies (self.allocator.index_live(j) <==> (
        #[trigger] self.locations@[j]) is Some) by {
            if j != ii && (moved is None || j != moved->Some_0 as int) {
                assert(self.locations@[j] == mid.locations@[j]);
            }
        }
        // locations point at real rows
        assert forall|j: int|
            0 <= j < self.locations@.len() && (#[trigger] self.locations@[j]) is Some implies {
            let lj = self.locations@[j]->Some_0;
            &&& lj.archetype < self.archetypes@.len()
            &&& lj.row < self.tables@[lj.archetype as int].entities@.len()
            &&& self.tables@[lj.archetype as int].entities@[lj.row as int] == j
        } by {
            if j == ii {
                assert(self.tables@[ti].entities@[new_row as int] == i);
            } else if moved is Some && j == moved->Some_0 as int {
                assert(self.tables@[ai].entities@[r0 as int] == j);
            } else {
                assert(self.locations@[j] == mid.locations@[j]);
                let lj = mid.locations@[j]->Some_0;
                assert(mid.tables@[lj.archetype as int].entities@[lj.row as int] == j);
                if lj.archetype == a {
                    assert(lj.row as int != r0 as int);
                    assert(lj.row as int != old_last);
                    assert(self.tables@[ai].entities@[lj.row as int] == j);
                } else if lj.archetype == target {
                    assert(self.tables@[ti].entities@[lj.row as int] == j);
                }
            }
        }
        // rows point back at locations
        assert forall|b: int, r: int|
            0 <= b < self.tables@.len() && 0 <= r < self.tables@[b].entities@.len() implies {
            let j = #[trigger] self.tables@[b].entities@[r];
            &&& j < self.locations@.len()
            &&& self.locations@[j as int] == Some(
                EntityLocation { archetype: b as usize, row: r as usize },
            )
        } by {
            if b == ti && r == new_row as int {
                assert(self.tables@[b].entities@[r] == i);
            } else {
                let j = if b == ai && r == r0 as int && moved is Some {
                    mid.tables@[ai].entities@[old_last]
                } else {
                    mid.tables@[b].entities@[r]
                };
                assert(self.tables@[b].entities@[r] == j);
                if b == ai && r == r0 as int && moved is Some {
                    assert(self.locations@[j as int] == Some(
                        EntityLocation { archetype: a, row: r0 },
                    ));
                } else {
                    assert(mid.locations@[j as int] == Some(
                        EntityLocation { archetype: b as usize, row: r as usize },
                    ));
                    assert(j != i);
                    assert(moved is Some ==> j != moved->Some_0) by {
                        if moved is Some && j == moved->Some_0 {
                            assert(b == ai && r == old_last);
                            assert(r < self.tables@[ai].entities@.len());
                        }
                    }
                    assert(self.locations@[j as int] == mid.locations@[j as int]);
                }
            }
        }
        assert(self.wf_entities());
        // sparse sets
        assert forall|x: int|
            0 <= x < self.sparse_sets@.len() implies (#[trigger] self.sparse_sets@[x]).wf() by {
            if x != c {
                assert(self.sparse_sets@[x] == mid.sparse_sets@[x]);
                assert(mid.sparse_sets@[x].wf());
            }
        }
        assert forall|c2: usize, j: int|
            c2 < self.sparse_sets@.len() && #[trigger] self.sparse_sets@[c2 as int].spec_contains(j)
            implies {
            &&& self.live_index(j)
            &&& self.spec_comps(j).contains(c2)
            &&& self.registry.spec_info(c2 as int).kind == StorageKind::SparseSet
        } by {
            if c2 != c || (j != ii && c < self.sparse_sets@.len()) {
                assert(mid.sparse_sets@[c2 as int].spec_contains(j));
                assert(mid.live_index(j));
                assert(mid.spec_comps(j).contains(c2));
                if j == ii {
                    assert(c2 != c);
                    assert(self.spec_comps(j) == mid.archetypes@[ti].comp_set@);
                    assert(self.spec_comps(j).contains(c2));
                } else {
                    assert(self.locations@[j] == mid.locations@[j] || (moved is Some && j
                        == moved->Some_0 as int));
                    assert(self.arch_of(j) == mid.arch_of(j));
                    assert(self.live_index(j));
                }
            } else {
                assert(c2 == c && j == ii);
                assert(mid.registry.spec_info(c as int).kind == StorageKind::SparseSet) by {
                    if mid.registry.spec_info(c as int).kind == StorageKind::Table {
                        assert(self.sparse_sets@[c as int] == mid.sparse_sets@[c as int]);
                        assert(mid.sparse_sets@[c as int].spec_contains(ii));
                        assert(mid.spec_comps(ii).contains(c));
                        assert(false);
                    }
                }
                assert(self.archetypes@[ti].comp_set@.contains(c));
                assert(self.spec_comps(j).contains(c2));
            }
        }
        assert forall|j: int, c2: usize|
            self.live_index(j) && #[trigger] self.spec_comps(j).contains(c2)
                && self.registry.spec_info(c2 as int).kind == StorageKind::SparseSet implies
            self.sparse_sets@[c2 as int].spec_contains(j) by {
            let aj = if j == ii {
                ti
            } else {
                mid.arch_of(j)
            };
            assert(mid.arch_set_wf(aj));
            assert(self.spec_comps(j) == mid.archetypes@[aj].comp_set@);
            let p = choose|p: int| 0 <= p < self.spec_comps(j).len() && self.spec_comps(j)[p] == c2;
            assert(self.spec_comps(j)[p] < mid.registry.count());
            if j == ii {
                if c2 == c {
                    assert(self.sparse_sets@[c as int].spec_contains(ii));
                } else {
                    assert(mid.archetypes@[ai].comp_set@.contains(c2));
                    assert(mid.spec_comps(ii).contains(c2));
                    assert(mid.sparse_sets@[c2 as int].spec_contains(ii));
                    assert(self.sparse_sets@[c2 as int] == mid.sparse_sets@[c2 as int] || (c2 == c));
                }
            } else {
                assert(mid.live_index(j));
                assert(mid.arch_of(j) == self.arch_of(j));
                assert(mid.spec_comps(j).contains(c2));
                assert(mid.sparse_sets@[c2 as int].spec_contains(j));
                if c2 == c {
                    assert(self.sparse_sets@[c as int].spec_contains(j)
                        == mid.sparse_sets@[c as int].spec_contains(j));
                }
            }
        }
        assert(self.wf_sparse());
        // every other entity is untouched
        assert forall|j: int| j != ii implies mid.entity_unchanged(self, j) by {
            if mid.live_index(j) {
                assert(self.live_index(j));
                assert(self.arch_of(j) == mid.arch_of(j));
                assert forall|c2: usize| #[trigger] mid.spec_comps(j).contains(c2) implies {
                    &&& self.comp_value(j, c2) == mid.comp_value(j, c2)
                    &&& self.comp_added(j, c2) == mid.comp_added(j, c2)
                    &&& self.comp_changed(j, c2) == mid.comp_changed(j, c2)
                } by {
                    let aj = mid.arch_of(j);
                    assert(mid.arch_set_wf(aj));
                    let p = choose|p: int|
                        0 <= p < mid.spec_comps(j).len() && mid.spec_comps(j)[p] == c2;
                    assert(mid.spec_comps(j)[p] < mid.registry.count());
                    if mid.registry.spec_info(c2 as int).kind == StorageKind::SparseSet {
                        assert(mid.sparse_sets@[c2 as int].spec_contains(j));
                        if c2 == c {
                            assert(self.sparse_sets@[c as int].spec_slot(j)
                                == mid.sparse_sets@[c as int].spec_slot(j));
                        } else {
                            assert(self.sparse_sets@[c2 as int] == mid.sparse_sets@[c2 as int]);
                        }
                        assert(self.comp_slot(j, c2) == mid.comp_slot(j, c2));
                    } else {
                        assert(mid.archetypes@[aj].comp_set@.contains(c2));
                        assert(mid.tables@[aj].comp_ids@.contains(c2));
                        let col = mid.tables@[aj].col_index(c2);
                        assert(0 <= col < mid.tables@[aj].comp_ids@.len()) by {
                            assert(mid.tables@[aj].comp_ids@[mid.tables@[aj].comp_ids@.index_of(c2)]
                                == c2);
                        }
                        let rj = mid.spec_location(j).row as int;
                        if aj == ai {
                            if moved is Some && j == moved->Some_0 as int {
                                assert(rj == old_last);
                                assert(self.spec_location(j).row as int == r0 as int);
                                assert(self.tables@[ai].columns@[col]@[r0 as int]
                                    == mid.tables@[ai].columns@[col]@[old_last]);
                            } else {
                                assert(rj != r0 as int && rj != old_last);
                                assert(self.spec_location(j) == mid.spec_location(j));
                                assert(self.tables@[ai].columns@[col]@[rj]
                                    == mid.tables@[ai].columns@[col]@[rj]);
                            }
                        } else if aj == ti {
                            assert(rj < new_row as int);
                            assert(self.spec_location(j) == mid.spec_location(j));
                            assert(self.tables@[ti].columns@[col]@[rj] == mid.tables@[ti].columns@[col]@[rj]);
                        } else {
                            assert(self.tables@[aj] == mid.tables@[aj]);
                            assert(self.spec_location(j) == mid.spec_location(j));
                        }
                    }
                }
            }
        }
    }

    // ----- component access -----

    /// A borrow of the current bytes of component `c` on the entity, or
    /// `None` when the handle is dead or stale, the component is not
    /// registered, or the entity does not have it.
    pub fn get_component(&self, e: EntityId, c: usize) -> (r: Option<&Vec<u8>>)
        requires
            self.wf(),
        ensures
            match r {
                Some(v) => self.spec_live(e) && self.has_comp(e.index as int, c) && v@
                    == self.comp_value(e.index as int, c),
                None => !(self.spec_live(e) && self.has_comp(e.index as int, c)),
            },
    {
        if !self.allocator.is_live(e) {
            return None;
        }
        let i = e.index;
        if c >= self.registry.len() {
            proof {
                if self.spec_comps(i as int).contains(c) {
                    assert(self.arch_set_wf(self.arch_of(i as int)));
                    let p = choose|p: int|
                        0 <= p < self.spec_comps(i as int).len() && self.spec_comps(i as int)[p]
                            == c;
                    assert(self.spec_comps(i as int)[p] < self.registry.count());
                }
            }
            return None;
        }
        let l = match self.locations[i] {
            Some(l) => l,
            None => {
                return None;
            },
        };
        proof {
            assert(self.arch_set_wf(l.archetype as int));
        }
        match self.registry.kind_of(c) {
            StorageKind::SparseSet => {
                let got = self.sparse_sets[c].get(i);
                proof {
                    if self.sparse_sets@[c as int].spec_contains(i as int) {
                        assert(self.spec_comps(i as int).contains(c));
                    } else {
                        if self.spec_comps(i as int).contains(c) {
                            assert(self.sparse_sets@[c as int].spec_contains(i as int));
                        }
                    }
                }
                got
            },
            StorageKind::Table => {
                match self.tables[l.archetype].find_col(c) {
                    Some(j) => {
                        proof {
                            assert(self.tables@[l.archetype as int].comp_ids@.contains(c));
                            assert(self.spec_comps(i as int).contains(c));
                        }
                        let s = self.tables[l.archetype].slot_at(j, l.row);
                        Some(&s.value)
                    },
                    None => {
                        proof {
                            if self.spec_comps(i as int).contains(c) {
                                assert(self.tables@[l.archetype as int].comp_ids@.contains(c));
                            }
                        }
                        None
                    },
                }
            },
        }
    }

    /// Inserts component `c` with bytes `value` on the entity. A component
    /// already present is overwritten in place with no migration; otherwise
    /// the entity's row migrates to the archetype reached by adding `c`.
    /// The bytes must match the registered layout, as `layout_of` reports
    /// it. The write is stamped with the current tick.
    #[verifier::rlimit(100)]
    pub fn insert_component(&mut self, e: EntityId, c: usize, value: Vec<u8>) -> (r: Result<
        (),
        WorldError,
    >)
        requires
            old(self).wf(),
            old(self).registry.is_registered(c as int) ==> value@.len() == old(
                self,
            ).registry.spec_info(c as int).size,
        ensures
            final(self).wf(),
            final(self).registry == old(self).registry,
            final(self).tick == old(self).tick,
            final(self).slot_count() == old(self).slot_count(),
            final(self).live_count == old(self).live_count,
            forall|e2: EntityId| final(self).spec_live(e2) == old(self).spec_live(e2),
            match r {
                Ok(()) => {
                    &&& old(self).spec_live(e)
                    &&& old(self).registry.is_registered(c as int)
                    &&& spec_inserted(*old(self), *final(self), e.index as int, c, value@)
                    &&& forall|j: int| j != e.index ==> old(self).entity_unchanged(*final(self), j)
                },
                Err(err) => {
                    &&& *final(self) == *old(self)
                    &&& !(old(self).spec_live(e) && old(self).registry.is_registered(c as int))
                    &&& err == if !old(self).spec_live(e) {
                        old(self).spec_handle_error(e)
                    } else {
                        WorldError::ComponentNotRegistered
                    }
                },
            },
    {
        if let Err(err) = self.check_handle(e) {
            return Err(err);
        }
        if c >= self.registry.len() {
            return Err(WorldError::ComponentNotRegistered);
        }
        let i = e.index;
        let l = match self.locations[i] {
            Some(l) => l,
            None => {
                return Err(WorldError::EntityNotFound);
            },
        };
        let a = l.archetype;
        let r0 = l.row;
        let ghost pre = *self;
        proof {
            assert(pre.arch_set_wf(a as int));
            lemma_vec_len_bound(pre.tables@[a as int].entities);
        }
        let present = contains_id(&self.archetypes[a].comp_set, c);
        let kind = self.registry.kind_of(c);
        let t = self.tick;
        if present {
            match kind {
                StorageKind::SparseSet => {
                    proof {
                        assert(pre.spec_comps(i as int) == pre.archetypes@[a as int].comp_set@);
                        assert(pre.spec_comps(i as int).contains(c));
                        assert(pre.sparse_sets@[c as int].spec_contains(i as int));
                    }
                    self.sparse_sets[c].insert(i, value, t);
                    proof {
                        self.lemma_overwrite_wf(pre, i, c, a, r0);
                        assert(self.comp_slot(i as int, c) == self.sparse_sets@[c as int].spec_slot(
                            i as int,
                        ));
                        assert(spec_inserted(pre, *self, i as int, c, value@));
                    }
                },
                StorageKind::Table => {
                    let j = match self.tables[a].find_col(c) {
                        Some(j) => j,
                        None => {
                            return Err(WorldError::ComponentNotRegistered);
                        },
                    };
                    let added = self.tables[a].slot_at(j, r0).added;
                    self.tables[a].write_column(j, r0, value, added, t);
                    proof {
                        assert(pre.tables@[a as int].col_index(c) == j as int);
                        self.lemma_overwrite_wf(pre, i, c, a, r0);
                        assert(self.comp_slot(i as int, c) == self.tables@[a as int].spec_slot(
                            c,
                            r0 as int,
                        ));
                        assert(spec_inserted(pre, *self, i as int, c, value@));
                    }
                },
            }
            return Ok(());
        }
        // not present: migrate the row to the neighbouring archetype
        let target = self.transition_add(a, c);
        let ghost mid = *self;
        proof {
            assert(mid.archetypes@[target as int].comp_set@.contains(c));
            assert(!mid.archetypes@[a as int].comp_set@.contains(c));
            assert(a != target);
            assert(mid.arch_set_wf(a as int));
            assert(mid.arch_set_wf(target as int));
            assert(mid.locations@[i as int] == Some(l));
            assert(mid.tables@[a as int] == pre.tables@[a as int]);
            lemma_vec_len_bound(mid.tables@[target as int].entities);
        }
        let new_row = self.tables[target].allocate_row(i);
        let ncols = self.tables[a].comp_ids.len();
        let mut q: usize = 0;
        while q < ncols
            invariant
                mid.wf(),
                a != target,
                (a as int) < mid.tables@.len(),
                (target as int) < mid.tables@.len(),
                c < mid.registry.count(),
                ncols == mid.tables@[a as int].comp_ids@.len(),
                q <= ncols,
                i < mid.locations@.len(),
                mid.locations@[i as int] == Some(
                    EntityLocation { archetype: a, row: r0 },
                ),
                r0 < mid.tables@[a as int].entities@.len(),
                new_row as int == mid.tables@[target as int].entities@.len(),
                mid.archetypes@[target as int].comp_set@.contains(c),
                !mid.archetypes@[a as int].comp_set@.contains(c),
                forall|x: usize|
                    x != c ==> (#[trigger] mid.archetypes@[target as int].comp_set@.contains(x)
                        <==> mid.archetypes@[a as int].comp_set@.contains(x)),
                self.registry == mid.registry,
                self.archetypes@ == mid.archetypes@,
                self.allocator == mid.allocator,
                self.locations@ == mid.locations@,
                self.sparse_sets@ == mid.sparse_sets@,
                self.live_count == mid.live_count,
                self.tick == mid.tick,
                self.tables@.len() == mid.tables@.len(),
                forall|b: int|
                    0 <= b < mid.tables@.len() && b != target ==> self.tables@[b]
                        == mid.tables@[b],
                self.tables@[target as int].wf(),
                self.tables@[target as int].comp_ids@ == mid.tables@[target as int].comp_ids@,
                self.tables@[target as int].entities@ == mid.tables@[target as int].entities@.push(
                    i,
                ),
                forall|jt: int, r2: int|
                    0 <= jt < mid.tables@[target as int].columns@.len() && 0 <= r2 < new_row
                        ==> self.tables@[target as int].columns@[jt]@[r2]
                        == mid.tables@[target as int].columns@[jt]@[r2],
                forall|p: int|
                    0 <= p < q ==> {
                        let x = #[trigger] mid.tables@[a as int].comp_ids@[p];
                        let jt = self.tables@[target as int].col_index(x);
                        &&& self.tables@[target as int].comp_ids@.contains(x)
                        &&& self.tables@[target as int].columns@[jt]@[new_row as int].value@
                            == mid.tables@[a as int].columns@[p]@[r0 as int].value@
                        &&& self.tables@[target as int].columns@[jt]@[new_row as int].added
                            == mid.tables@[a as int].columns@[p]@[r0 as int].added
                        &&& self.tables@[target as int].columns@[jt]@[new_row as int].changed
                            == mid.tables@[a as int].columns@[p]@[r0 as int].changed
                    },
            decreases ncols - q,
        {
            proof {
                assert(mid.arch_set_wf(a as int));
                assert(mid.arch_set_wf(target as int));
            }
            let cq = self.tables[a].comp_ids[q];
            proof {
                assert(mid.tables@[a as int].comp_ids@[q as int] == cq);
                assert(mid.tables@[a as int].comp_ids@.contains(cq));
                assert(mid.archetypes@[a as int].comp_set@.contains(cq));
                assert(cq != c);
                assert(mid.registry.spec_info(cq as int).kind == StorageKind::Table);
                assert(mid.archetypes@[target as int].comp_set@.contains(cq));
                assert(mid.tables@[target as int].comp_ids@.contains(cq));
            }
            let slot = self.tables[a].copy_slot(q, r0);
            let jt = match self.tables[target].find_col(cq) {
                Some(jt) => jt,
                None => {
                    return Err(WorldError::ComponentNotRegistered);
                },
            };
            let ghost s0 = *self;
            self.tables[target].write_column(jt, new_row, slot.value, slot.added, slot.changed);
            proof {
                assert forall|p: int| 0 <= p < q + 1 implies {
                    let x = #[trigger] mid.tables@[a as int].comp_ids@[p];
                    let jt2 = self.tables@[target as int].col_index(x);
                    &&& self.tables@[target as int].comp_ids@.contains(x)
                    &&& self.tables@[target as int].columns@[jt2]@[new_row as int].value@
                        == mid.tables@[a as int].columns@[p]@[r0 as int].value@
                    &&& self.tables@[target as int].columns@[jt2]@[new_row as int].added
                        == mid.tables@[a as int].columns@[p]@[r0 as int].added
                    &&& self.tables@[target as int].columns@[jt2]@[new_row as int].changed
                        == mid.tables@[a as int].columns@[p]@[r0 as int].changed
                } by {
                    let x = mid.tables@[a as int].comp_ids@[p];
                    assert(mid.tables@[a as int].comp_ids@.contains(x));
                    if p == q {
                        assert(x == cq);
                        assert(self.tables@[target as int].col_index(cq) == jt as int);
                        assert(mid.tables@[a as int].col_index(cq) == q as int) by {
                            mid.tables@[a as int].lemma_col_index(cq, q as int);
                        }
                    } else {
                        assert(x != cq) by {
                            if x == cq {
                                mid.tables@[a as int].lemma_col_index(cq, q as int);
                                mid.tables@[a as int].lemma_col_index(x, p);
                            }
                        }
                        let jt2 = s0.tables@[target as int].col_index(x);
                        assert(s0.tables@[target as int].comp_ids@.contains(x));
                        assert(s0.tables@[target as int].comp_ids@[jt2] == x) by {
                            assert(s0.tables@[target as int].comp_ids@[s0.tables@[target as int].comp_ids@.index_of(
                                x,
                            )] == x);
                        }
                        assert(jt2 != jt as int);
                        assert(self.tables@[target as int].columns@[jt2]@[new_row as int]
                            == s0.tables@[target as int].columns@[jt2]@[new_row as int]);
                    }
                }
            }
            q = q + 1;
        }
        let ghost gloop = *self;
        // write the inserted component's own slot
        match kind {
            StorageKind::Table => {
                proof {
                    assert(mid.arch_set_wf(target as int));
                    assert(mid.tables@[target as int].comp_ids@.contains(c));
                }
                let jc = match self.tables[target].find_col(c) {
                    Some(j) => j,
                    None => {
                        return Err(WorldError::ComponentNotRegistered);
                    },
                };
                self.tables[target].write_column(jc, new_row, value, t, t);
                proof {
                    assert(self.tables@[target as int].col_index(c) == jc as int);
                    assert(self.tables@[target as int].spec_slot(c, new_row as int).value@
                        == value@);
                    assert(self.tables@[target as int].spec_slot(c, new_row as int).added == t);
                    assert(self.tables@[target as int].spec_slot(c, new_row as int).changed == t);
                    assert(forall|jt2: int|
                        0 <= jt2 < gloop.tables@[target as int].columns@.len() && jt2 != jc
                            ==> self.tables@[target as int].columns@[jt2]
                            == gloop.tables@[target as int].columns@[jt2]);
                }
            },
            StorageKind::SparseSet => {
                proof {
                    if mid.sparse_sets@[c as int].spec_contains(i as int) {
                        assert(mid.spec_comps(i as int).contains(c));
                    }
                }
                self.sparse_sets[c].insert(i, value, t);
            },
        }
        let ghost g2 = *self;
        // swap-remove the old row, fixing up the relocated entity last
        proof {
            assert(self.tables@[a as int] == mid.tables@[a as int]);
        }
        let moved = self.tables[a].swap_remove_row(r0);
        if let Some(mv) = moved {
            proof {
                let last = mid.tables@[a as int].entities@.len() - 1;
                assert(mid.tables@[a as int].entities@[last] == mv);
                assert(mid.locations@[mv as int] is Some);
            }
            self.locations[mv] = Some(EntityLocation { archetype: a, row: r0 });
        }
        self.locations[i] = Some(EntityLocation { archetype: target, row: new_row });
        proof {
            assert(self.tables@[target as int] == g2.tables@[target as int]);
            assert(self.sparse_sets@ == g2.sparse_sets@);
            // every target column except the inserted one carries the copied row
            assert forall|jt: int|
                0 <= jt < self.tables@[target as int].comp_ids@.len() && (
                #[trigger] self.tables@[target as int].comp_ids@[jt]) != c implies {
                let x = self.tables@[target as int].comp_ids@[jt];
                &&& mid.tables@[a as int].comp_ids@.contains(x)
                &&& self.tables@[target as int].columns@[jt]@[new_row as int].value@
                    == mid.tables@[a as int].spec_slot(x, r0 as int).value@
                &&& self.tables@[target as int].columns@[jt]@[new_row as int].added
                    == mid.tables@[a as int].spec_slot(x, r0 as int).added
                &&& self.tables@[target as int].columns@[jt]@[new_row as int].changed
                    == mid.tables@[a as int].spec_slot(x, r0 as int).changed
            } by {
                let x = self.tables@[target as int].comp_ids@[jt];
                assert(mid.arch_set_wf(a as int));
                assert(mid.arch_set_wf(target as int));
                assert(mid.tables@[target as int].comp_ids@.contains(x));
                assert(mid.archetypes@[target as int].comp_set@.contains(x));
                assert(mid.registry.spec_info(x as int).kind == StorageKind::Table);
                assert(mid.archetypes@[a as int].comp_set@.contains(x));
                assert(mid.tables@[a as int].comp_ids@.contains(x));
                let p = mid.tables@[a as int].col_index(x);
                assert(mid.tables@[a as int].comp_ids@[p] == x) by {
                    assert(mid.tables@[a as int].comp_ids@[mid.tables@[a as int].comp_ids@.index_of(
                        x,
                    )] == x);
                }
                assert(gloop.tables@[target as int].col_index(x) == jt) by {
                    gloop.tables@[target as int].lemma_col_index(x, jt);
                }
                assert(gloop.tables@[target as int].columns@[jt]@[new_row as int].value@
                    == mid.tables@[a as int].columns@[p]@[r0 as int].value@);
                assert(self.tables@[target as int].columns@[jt] == gloop.tables@[target as int].columns@[jt]);
            }
            self.lemma_migrate_wf(mid, i, c, a, target, r0, new_row, moved);
            // every other entity is untouched, end to end
            assert forall|j: int| j != i implies pre.entity_unchanged(*self, j) by {
                assert(pre.entity_unchanged(mid, j));
                assert(mid.entity_unchanged(*self, j));
                Self::lemma_entity_unchanged_trans(pre, mid, *self, j);
            }
            // and the inserted entity now reads as promised
            assert(pre.entity_unchanged(mid, i as int));
            assert(pre.spec_comps(i as int) == mid.spec_comps(i as int));
            assert(mid.spec_comps(i as int) == mid.archetypes@[a as int].comp_set@);
            assert(self.spec_comps(i as int) == mid.archetypes@[target as int].comp_set@);
            assert(!pre.has_comp(i as int, c));
            assert(self.comp_slot(i as int, c).value@ == value@ && self.comp_slot(i as int, c).added
                == t && self.comp_slot(i as int, c).changed == t) by {
                if mid.registry.spec_info(c as int).kind == StorageKind::SparseSet {
                    assert(self.comp_slot(i as int, c) == self.sparse_sets@[c as int].spec_slot(
                        i as int,
                    ));
                } else {
                    assert(self.comp_slot(i as int, c) == self.tables@[target as int].spec_slot(
                        c,
                        new_row as int,
                    ));
                }
            }
            assert forall|c2: usize|
                c2 != c && #[trigger] pre.spec_comps(i as int).contains(c2) implies {
                &&& self.comp_value(i as int, c2) == pre.comp_value(i as int, c2)
                &&& self.comp_added(i as int, c2) == pre.comp_added(i as int, c2)
                &&& self.comp_changed(i as int, c2) == pre.comp_changed(i as int, c2)
            } by {
                assert(mid.arch_set_wf(a as int));
                assert(mid.spec_comps(i as int).contains(c2));
                let pp = choose|pp: int|
                    0 <= pp < mid.spec_comps(i as int).len() && mid.spec_comps(i as int)[pp] == c2;
                assert(mid.spec_comps(i as int)[pp] < mid.registry.count());
                assert(pre.comp_value(i as int, c2) == mid.comp_value(i as int, c2));
                assert(pre.comp_added(i as int, c2) == mid.comp_added(i as int, c2));
                assert(pre.comp_changed(i as int, c2) == mid.comp_changed(i as int, c2));
                if mid.registry.spec_info(c2 as int).kind == StorageKind::SparseSet {
                    assert(mid.sparse_sets@[c2 as int].spec_contains(i as int));
                    assert(self.sparse_sets@[c2 as int] == mid.sparse_sets@[c2 as int]);
                    assert(self.comp_slot(i as int, c2) == self.sparse_sets@[c2 as int].spec_slot(
                        i as int,
                    ));
                    assert(mid.comp_slot(i as int, c2) == mid.sparse_sets@[c2 as int].spec_slot(
                        i as int,
                    ));
                } else {
                    assert(mid.archetypes@[a as int].comp_set@.contains(c2));
                    assert(mid.tables@[a as int].comp_ids@.contains(c2));
                    assert(mid.arch_set_wf(target as int));
                    assert(mid.archetypes@[target as int].comp_set@.contains(c2));
                    assert(mid.tables@[target as int].comp_ids@.contains(c2));
                    let jt = self.tables@[target as int].col_index(c2);
                    assert(self.tables@[target as int].comp_ids@[jt] == c2) by {
                        assert(self.tables@[target as int].comp_ids@[self.tables@[target as int].comp_ids@.index_of(
                            c2,
                        )] == c2);
                    }
                    assert(self.comp_slot(i as int, c2) == self.tables@[target as int].columns@[jt]@[new_row as int]);
                    assert(mid.comp_slot(i as int, c2) == mid.tables@[a as int].spec_slot(
                        c2,
                        r0 as int,
                    ));
                }
            }
            assert(spec_inserted(pre, *self, i as int, c, value@));
        }
        Ok(())
    }

    /// Removes component `c` from the entity and returns its bytes, or
    /// `Ok(None)` if the entity does not have it, in which case nothing
    /// moves. When present, the value is extracted first and the entity's
    /// row then migrates to the archetype reached by removing `c`.
    #[verifier::rlimit(100)]
    pub fn remove_component(&mut self, e: EntityId, c: usize) -> (r: Result<
        Option<Vec<u8>>,
        WorldError,
    >)
        requires
            old(self).wf(),
        ensures
            final(self).wf(),
            final(self).registry == old(self).registry,
            final(self).tick == old(self).tick,
            final(self).slot_count() == old(self).slot_count(),
            final(self).live_count == old(self).live_count,
            forall|e2: EntityId| final(self).spec_live(e2) == old(self).spec_live(e2),
            match r {
                Ok(out) => {
                    &&& old(self).spec_live(e)
                    &&& old(self).registry.is_registered(c as int)
                    &&& spec_removed(
                        *old(self),
                        *final(self),
                        e.index as int,
                        c,
                        if out is Some {
                            Some(out->Some_0@)
                        } else {
                            Option::<Seq<u8>>::None
                        },
                    )
                    &&& forall|j: int| j != e.index ==> old(self).entity_unchanged(*final(self), j)
                },
                Err(err) => {
                    &&& *final(self) == *old(self)
                    &&& !(old(self).spec_live(e) && old(self).registry.is_registered(c as int))
                    &&& err == if !old(self).spec_live(e) {
                        old(self).spec_handle_error(e)
                    } else {
                        WorldError::ComponentNotRegistered
                    }
                },
            },
    {
        if let Err(err) = self.check_handle(e) {
            return Err(err);
        }
        if c >= self.registry.len() {
            return Err(WorldError::ComponentNotRegistered);
        }
        let i = e.index;
        let l = match self.locations[i] {
            Some(l) => l,
            None => {
                return Err(WorldError::EntityNotFound);
            },
        };
        let a = l.archetype;
        let r0 = l.row;
        let ghost pre = *self;
        proof {
            assert(pre.arch_set_wf(a as int));
            assert(pre.spec_comps(i as int) == pre.archetypes@[a as int].comp_set@);
            lemma_vec_len_bound(pre.tables@[a as int].entities);
        }
        let present = contains_id(&self.archetypes[a].comp_set, c);
        if !present {
            proof {
                assert(spec_removed(pre, *self, i as int, c, Option::<Seq<u8>>::None));
            }
            return Ok(None);
        }
        let kind = self.registry.kind_of(c);
        let target = self.transition_remove(a, c);
        let ghost mid = *self;
        proof {
            assert(!mid.archetypes@[target as int].comp_set@.contains(c));
            assert(mid.archetypes@[a as int].comp_set@.contains(c));
            assert(a != target);
            assert(mid.arch_set_wf(a as int));
            assert(mid.arch_set_wf(target as int));
            assert(mid.locations@[i as int] == Some(l));
            assert(mid.tables@[a as int] == pre.tables@[a as int]);
            lemma_vec_len_bound(mid.tables@[target as int].entities);
        }
        // extract the value before anything moves
        let out: Vec<u8> = match kind {
            StorageKind::Table => {
                let jx = match self.tables[a].find_col(c) {
                    Some(j) => j,
                    None => {
                        return Err(WorldError::ComponentNotRegistered);
                    },
                };
                let s = self.tables[a].copy_slot(jx, r0);
                proof {
                    assert(mid.tables@[a as int].col_index(c) == jx as int);
                    assert(s.value@ == mid.tables@[a as int].spec_slot(c, r0 as int).value@);
                }
                s.value
            },
            StorageKind::SparseSet => {
                proof {
                    assert(mid.spec_comps(i as int).contains(c));
                    assert(mid.sparse_sets@[c as int].spec_contains(i as int));
                }
                match self.sparse_sets[c].remove(i) {
                    Some(v) => v,
                    None => {
                        return Err(WorldError::ComponentNotRegistered);
                    },
                }
            },
        };
        let ghost g0 = *self;
        let new_row = self.tables[target].allocate_row(i);
        let ncols = self.tables[a].comp_ids.len();
        let mut q: usize = 0;
        while q < ncols
            invariant
                mid.wf(),
                a != target,
                (a as int) < mid.tables@.len(),
                (target as int) < mid.tables@.len(),
                c < mid.registry.count(),
                ncols == mid.tables@[a as int].comp_ids@.len(),
                q <= ncols,
                i < mid.locations@.len(),
                mid.locations@[i as int] == Some(EntityLocation { archetype: a, row: r0 }),
                r0 < mid.tables@[a as int].entities@.len(),
                new_row as int == mid.tables@[target as int].entities@.len(),
                !mid.archetypes@[target as int].comp_set@.contains(c),
                mid.archetypes@[a as int].comp_set@.contains(c),
                forall|x: usize|
                    x != c ==> (#[trigger] mid.archetypes@[target as int].comp_set@.contains(x)
                        <==> mid.archetypes@[a as int].comp_set@.contains(x)),
                self.registry == mid.registry,
                self.archetypes@ == mid.archetypes@,
                self.allocator == mid.allocator,
                self.locations@ == mid.locations@,
                self.sparse_sets@ == g0.sparse_sets@,
                self.live_count == mid.live_count,
                self.tick == mid.tick,
                self.tables@.len() == mid.tables@.len(),
                forall|b: int|
                    0 <= b < mid.tables@.len() && b != target ==> self.tables@[b]
                        == mid.tables@[b],
                self.tables@[target as int].wf(),
                self.tables@[target as int].comp_ids@ == mid.tables@[target as int].comp_ids@,
                self.tables@[target as int].entities@ == mid.tables@[target as int].entities@.push(
                    i,
                ),
                forall|jt: int, r2: int|
                    0 <= jt < mid.tables@[target as int].columns@.len() && 0 <= r2 < new_row
                        ==> self.tables@[target as int].columns@[jt]@[r2]
                        == mid.tables@[target as int].columns@[jt]@[r2],
                forall|p: int|
                    0 <= p < q && (#[trigger] mid.tables@[a as int].comp_ids@[p]) != c ==> {
                        let x = mid.tables@[a as int].comp_ids@[p];
                        let jt = self.tables@[target as int].col_index(x);
                        &&& self.tables@[target as int].comp_ids@.contains(x)
                        &&& self.tables@[target as int].columns@[jt]@[new_row as int].value@
                            == mid.tables@[a as int].columns@[p]@[r0 as int].value@
                        &&& self.tables@[target as int].columns@[jt]@[new_row as int].added
                            == mid.tables@[a as int].columns@[p]@[r0 as int].added
                        &&& self.tables@[target as int].columns@[jt]@[new_row as int].changed
                            == mid.tables@[a as int].columns@[p]@[r0 as int].changed
                    },
            decreases ncols - q,
        {
            proof {
                assert(mid.arch_set_wf(a as int));
                assert(mid.arch_set_wf(target as int));
            }
            let cq = self.tables[a].comp_ids[q];
            if cq != c {
                proof {
                    assert(mid.tables@[a as int].comp_ids@[q as int] == cq);
                    assert(mid.tables@[a as int].comp_ids@.contains(cq));
                    assert(mid.archetypes@[a as int].comp_set@.contains(cq));
                    assert(mid.registry.spec_info(cq as int).kind == StorageKind::Table);
                    assert(mid.archetypes@[target as int].comp_set@.contains(cq));
                    assert(mid.tables@[target as int].comp_ids@.contains(cq));
                }
                let slot = self.tables[a].copy_slot(q, r0);
                let jt = match self.tables[target].find_col(cq) {
                    Some(jt) => jt,
                    None => {
                        return Err(WorldError::ComponentNotRegistered);
                    },
                };
                let ghost s0 = *self;
                self.tables[target].write_column(jt, new_row, slot.value, slot.added, slot.changed);
                proof {
                    assert forall|p: int|
                        0 <= p < q + 1 && (#[trigger] mid.tables@[a as int].comp_ids@[p]) != c
                        implies {
                        let x = mid.tables@[a as int].comp_ids@[p];
                        let jt2 = self.tables@[target as int].col_index(x);
                        &&& self.tables@[target as int].comp_ids@.contains(x)
                        &&& self.tables@[target as int].columns@[jt2]@[new_row as int].value@
                            == mid.tables@[a as int].columns@[p]@[r0 as int].value@
                        &&& self.tables@[target as int].columns@[jt2]@[new_row as int].added
                            == mid.tables@[a as int].columns@[p]@[r0 as int].added
                        &&& self.tables@[target as int].columns@[jt2]@[new_row as int].changed
                            == mid.tables@[a as int].columns@[p]@[r0 as int].changed
                    } by {
                        let x = mid.tables@[a as int].comp_ids@[p];
                        assert(mid.tables@[a as int].comp_ids@.contains(x));
                        if p == q {
                            assert(x == cq);
                            assert(self.tables@[target as int].col_index(cq) == jt as int);
                            assert(mid.tables@[a as int].col_index(cq) == q as int) by {
                                mid.tables@[a as int].lemma_col_index(cq, q as int);
                            }
                        } else {
                            assert(x != cq) by {
                                if x == cq {
                                    mid.tables@[a as int].lemma_col_index(cq, q as int);
                                    mid.tables@[a as int].lemma_col_index(x, p);
                                }
                            }
                            let jt2 = s0.tables@[target as int].col_index(x);
                            assert(s0.tables@[target as int].comp_ids@.contains(x));
                            assert(s0.tables@[target as int].comp_ids@[jt2] == x) by {
                                assert(s0.tables@[target as int].comp_ids@[s0.tables@[target as int].comp_ids@.index_of(
                                    x,
                                )] == x);
                            }
                            assert(jt2 != jt as int);
                            assert(self.tables@[target as int].columns@[jt2]@[new_row as int]
                                == s0.tables@[target as int].columns@[jt2]@[new_row as int]);
                        }
                    }
                }
            } else {
                proof {
                    assert(mid.tables@[a as int].comp_ids@[q as int] == c);
                    assert forall|p: int|
                        0 <= p < q + 1 && (#[trigger] mid.tables@[a as int].comp_ids@[p]) != c
                        implies 0 <= p < q by {}
                }
            }
            q = q + 1;
        }
        let ghost gloop = *self;
        // swap-remove the old row, fixing up the relocated entity last
        proof {
            assert(self.tables@[a as int] == mid.tables@[a as int]);
        }
        let moved = self.tables[a].swap_remove_row(r0);
        if let Some(mv) = moved {
            proof {
                let last = mid.tables@[a as int].entities@.len() - 1;
                assert(mid.tables@[a as int].entities@[last] == mv);
                assert(mid.locations@[mv as int] is Some);
            }
            self.locations[mv] = Some(EntityLocation { archetype: a, row: r0 });
        }
        self.locations[i] = Some(EntityLocation { archetype: target, row: new_row });
        proof {
            assert(self.tables@[target as int] == gloop.tables@[target as int]);
            assert(self.sparse_sets@ == g0.sparse_sets@);
            // every target column carries the copied row
            assert forall|jt: int|
                0 <= jt < self.tables@[target as int].comp_ids@.len() && (
                #[trigger] self.tables@[target as int].comp_ids@[jt]) != c implies {
                let x = self.tables@[target as int].comp_ids@[jt];
                &&& mid.tables@[a as int].comp_ids@.contains(x)
                &&& self.tables@[target as int].columns@[jt]@[new_row as int].value@
                    == mid.tables@[a as int].spec_slot(x, r0 as int).value@
                &&& self.tables@[target as int].columns@[jt]@[new_row as int].added
                    == mid.tables@[a as int].spec_slot(x, r0 as int).added
                &&& self.tables@[target as int].columns@[jt]@[new_row as int].changed
                    == mid.tables@[a as int].spec_slot(x, r0 as int).changed
            } by {
                let x = self.tables@[target as int].comp_ids@[jt];
                assert(mid.arch_set_wf(a as int));
                assert(mid.arch_set_wf(target as int));
                assert(mid.tables@[target as int].comp_ids@.contains(x));
                assert(mid.archetypes@[target as int].comp_set@.contains(x));
                assert(mid.registry.spec_info(x as int).kind == StorageKind::Table);
                assert(mid.archetypes@[a as int].comp_set@.contains(x));
                assert(mid.tables@[a as int].comp_ids@.contains(x));
                let p = mid.tables@[a as int].col_index(x);
                assert(mid.tables@[a as int].comp_ids@[p] == x) by {
                    assert(mid.tables@[a as int].comp_ids@[mid.tables@[a as int].comp_ids@.index_of(
                        x,
                    )] == x);
                }
                assert(gloop.tables@[target as int].col_index(x) == jt) by {
                    gloop.tables@[target as int].lemma_col_index(x, jt);
                }
            }
            self.lemma_migrate_wf(mid, i, c, a, target, r0, new_row, moved);
            // every other entity is untouched, end to end
            assert forall|j: int| j != i implies pre.entity_unchanged(*self, j) by {
                assert(pre.entity_unchanged(mid, j));
                assert(mid.entity_unchanged(*self, j));
                Self::lemma_entity_unchanged_trans(pre, mid, *self, j);
            }
            // and the entity now reads as promised
            assert(pre.entity_unchanged(mid, i as int));
            assert(pre.spec_comps(i as int) == mid.spec_comps(i as int));
            assert(self.spec_comps(i as int) == mid.archetypes@[target as int].comp_set@);
            assert(pre.has_comp(i as int, c));
            assert(!self.has_comp(i as int, c));
            assert(out@ == pre.comp_value(i as int, c)) by {
                if mid.registry.spec_info(c as int).kind == StorageKind::SparseSet {
                    assert(mid.comp_slot(i as int, c) == mid.sparse_sets@[c as int].spec_slot(
                        i as int,
                    ));
                } else {
                    assert(mid.comp_slot(i as int, c) == mid.tables@[a as int].spec_slot(
                        c,
                        r0 as int,
                    ));
                }
                assert(pre.comp_value(i as int, c) == mid.comp_value(i as int, c));
            }
            assert forall|c2: usize|
                c2 != c && #[trigger] pre.spec_comps(i as int).contains(c2) implies {
                &&& self.comp_value(i as int, c2) == pre.comp_value(i as int, c2)
                &&& self.comp_added(i as int, c2) == pre.comp_added(i as int, c2)
                &&& self.comp_changed(i as int, c2) == pre.comp_changed(i as int, c2)
            } by {
                assert(mid.arch_set_wf(a as int));
                assert(mid.spec_comps(i as int).contains(c2));
                let pp = choose|pp: int|
                    0 <= pp < mid.spec_comps(i as int).len() && mid.spec_comps(i as int)[pp] == c2;
                assert(mid.spec_comps(i as int)[pp] < mid.registry.count());
                assert(pre.comp_value(i as int, c2) == mid.comp_value(i as int, c2));
                assert(pre.comp_added(i as int, c2) == mid.comp_added(i as int, c2));
                assert(pre.comp_changed(i as int, c2) == mid.comp_changed(i as int, c2));
                if mid.registry.spec_info(c2 as int).kind == StorageKind::SparseSet {
                    assert(mid.sparse_sets@[c2 as int].spec_contains(i as int));
                    assert(self.sparse_sets@[c2 as int] == mid.sparse_sets@[c2 as int]);
                    assert(self.comp_slot(i as int, c2) == self.sparse_sets@[c2 as int].spec_slot(
                        i as int,
                    ));
                    assert(mid.comp_slot(i as int, c2) == mid.sparse_sets@[c2 as int].spec_slot(
                        i as int,
                    ));
                } else {
                    assert(mid.archetypes@[a as int].comp_set@.contains(c2));
                    assert(mid.tables@[a as int].comp_ids@.contains(c2));
                    assert(mid.arch_set_wf(target as int));
                    assert(mid.archetypes@[target as int].comp_set@.contains(c2));
                    assert(mid.tables@[target as int].comp_ids@.contains(c2));
                    let jt = self.tables@[target as int].col_index(c2);
                    assert(self.tables@[target as int].comp_ids@[jt] == c2) by {
                        assert(self.tables@[target as int].comp_ids@[self.tables@[target as int].comp_ids@.index_of(
                            c2,
                        )] == c2);
                    }
                    assert(self.comp_slot(i as int, c2) == self.tables@[target as int].columns@[jt]@[new_row as int]);
                    assert(mid.comp_slot(i as int, c2) == mid.tables@[a as int].spec_slot(
                        c2,
                        r0 as int,
                    ));
                }
            }
            assert(spec_removed(pre, *self, i as int, c, Some(out@)));
        }
        Ok(Some(out))
    }

    /// The Location Index lookup: where a live entity's data sits right
    /// now. Row numbers are not stable across mutations — a swap-remove
    /// elsewhere can relocate a row — so callers must not cache them.
    pub fn location_of(&self, e: EntityId) -> (r: Option<EntityLocation>)
        requires
            self.wf(),
        ensures
            match r {
                Some(l) => self.spec_live(e) && self.locations@[e.index as int] == Some(l),
                None => !self.spec_live(e),
            },
    {
        if !self.allocator.is_live(e) {
            return None;
        }
        self.locations[e.index]
    }

    /// How many entities are live.
    pub fn entity_count(&self) -> (n: usize)
        requires
            self.wf(),
        ensures
            n == count_live(self.locations@, self.locations@.len() as int),
    {
        self.live_count
    }
}

} // verus!
