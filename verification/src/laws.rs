//! Store-wide laws: properties that relate several operations, stated over
//! the same spec functions the operations' own contracts use.

use vstd::prelude::*;
use crate::component::StorageKind;
use crate::component_set::lemma_sorted_sets_equal;
use crate::entity::EntityId;
use crate::world::{spec_inserted, spec_removed, World};

verus! {

/// Inserting a fresh component and then removing it returns exactly the
/// inserted bytes, restores the entity's component set, leaves the
/// entity's remaining components byte-for-byte unchanged, and leaves every
/// other entity untouched.
pub proof fn lemma_insert_remove_round_trip(
    w0: World,
    w1: World,
    w2: World,
    i: int,
    c: usize,
    v: Seq<u8>,
    out: Option<Seq<u8>>,
)
    requires
        spec_inserted(w0, w1, i, c, v),
        spec_removed(w1, w2, i, c, out),
        !w0.spec_comps(i).contains(c),
        forall|j: int| j != i ==> w0.entity_unchanged(w1, j),
        forall|j: int| j != i ==> w1.entity_unchanged(w2, j),
        w0.slot_count() <= w1.slot_count(),
    ensures
        out == Some(v),
        forall|x: usize| #[trigger] w2.spec_comps(i).contains(x) <==> w0.spec_comps(i).contains(x),
        forall|c2: usize|
            c2 != c && #[trigger] w0.spec_comps(i).contains(c2) ==> {
                &&& w2.comp_value(i, c2) == w0.comp_value(i, c2)
                &&& w2.comp_added(i, c2) == w0.comp_added(i, c2)
                &&& w2.comp_changed(i, c2) == w0.comp_changed(i, c2)
            },
        forall|j: int| j != i ==> w0.entity_unchanged(w2, j),
{
    assert(w1.has_comp(i, c));
    assert(w1.comp_value(i, c) == v);
    assert(out == Some(v));
    assert forall|x: usize| #[trigger] w2.spec_comps(i).contains(x) <==> w0.spec_comps(i).contains(
        x,
    ) by {
        assert(w2.spec_comps(i).contains(x) <==> (w1.spec_comps(i).contains(x) && x != c));
        assert(w1.spec_comps(i).contains(x) <==> (w0.spec_comps(i).contains(x) || x == c));
    }
    assert forall|c2: usize| c2 != c && #[trigger] w0.spec_comps(i).contains(c2) implies {
        &&& w2.comp_value(i, c2) == w0.comp_value(i, c2)
        &&& w2.comp_added(i, c2) == w0.comp_added(i, c2)
        &&& w2.comp_changed(i, c2) == w0.comp_changed(i, c2)
    } by {
        assert(w1.spec_comps(i).contains(c2));
    }
    assert forall|j: int| j != i implies w0.entity_unchanged(w2, j) by {
        World::lemma_entity_unchanged_trans(w0, w1, w2, j);
    }
}

/// For every live entity, the location index resolves to a row of its
/// archetype's table that really holds that entity, and the storage backing
/// each component of its set is populated: table-backed components have a
/// column in that table, sparse-backed ones an entry under the entity's
/// index. The entity's stored component set is exactly its archetype's.
pub proof fn lemma_location_index_consistent(w: World, e: EntityId)
    requires
        w.wf(),
        w.spec_live(e),
    ensures
        w.live_index(e.index as int),
        0 <= w.arch_of(e.index as int) < w.arch_count(),
        w.spec_location(e.index as int).row < w.tables@[w.arch_of(
            e.index as int,
        )].entities@.len(),
        w.tables@[w.arch_of(e.index as int)].entities@[w.spec_location(e.index as int).row as int]
            == e.index,
        forall|c: usize|
            #[trigger] w.has_comp(e.index as int, c) <==> w.spec_comps(e.index as int).contains(c),
        forall|c: usize|
            #[trigger] w.spec_comps(e.index as int).contains(c) && w.registry.spec_info(
                c as int,
            ).kind == StorageKind::SparseSet ==> w.sparse_sets@[c as int].spec_contains(
                e.index as int,
            ),
        forall|c: usize|
            #[trigger] w.spec_comps(e.index as int).contains(c) && w.registry.spec_info(
                c as int,
            ).kind == StorageKind::Table ==> w.tables@[w.arch_of(e.index as int)].comp_ids@.contains(
                c,
            ),
{
    let i = e.index as int;
    assert(w.locations@[i] is Some);
    assert(w.arch_set_wf(w.arch_of(i)));
    assert forall|c: usize|
        #[trigger] w.spec_comps(i).contains(c) && w.registry.spec_info(c as int).kind
            == StorageKind::SparseSet implies w.sparse_sets@[c as int].spec_contains(i) by {
        let p = choose|p: int| 0 <= p < w.spec_comps(i).len() && w.spec_comps(i)[p] == c;
        assert(w.spec_comps(i)[p] < w.registry.count());
    }
}

/// Two archetypes of one store are the same node exactly when their
/// component sets have the same members: archetype identity is component
/// set identity.
pub proof fn lemma_archetype_identity(w: World, a: int, b: int)
    requires
        w.wf(),
        0 <= a < w.arch_count(),
        0 <= b < w.arch_count(),
    ensures
        (a == b) <==> (forall|x: usize|
            #[trigger] w.archetypes@[a].comp_set@.contains(x) <==> w.archetypes@[b].comp_set@.contains(
                x,
            )),
{
    if a != b {
        assert(w.archetypes@[a].comp_set@ != w.archetypes@[b].comp_set@);
        if forall|x: usize|
            #[trigger] w.archetypes@[a].comp_set@.contains(x)
                <==> w.archetypes@[b].comp_set@.contains(x) {
            assert(w.arch_set_wf(a));
            assert(w.arch_set_wf(b));
            lemma_sorted_sets_equal(w.archetypes@[a].comp_set@, w.archetypes@[b].comp_set@);
        }
    }
}

/// A handle whose generation differs from the one now live on its index is
/// stale: it fails the liveness check, so every operation taking it is
/// refused.
pub proof fn lemma_stale_handle_dead(w: World, stale: EntityId, live: EntityId)
    requires
        w.wf(),
        w.spec_live(live),
        stale.index == live.index,
        stale.generation != live.generation,
    ensures
        !w.spec_live(stale),
{
}

} // verus!
