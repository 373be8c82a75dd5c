//! Exercises the store's boundary surface: registration, spawning,
//! inserting, reading, removing, despawning, and the errors owed for
//! stale or unknown handles and components.

use ecs_core::component::{RegistryError, StorageKind};
use ecs_core::world::{World, WorldError};

#[test]
fn register_is_idempotent_per_key() {
    let mut w = World::new();
    let a = w.register_component(1, 4, StorageKind::Table).unwrap();
    let b = w.register_component(2, 2, StorageKind::SparseSet).unwrap();
    assert_ne!(a, b);
    let a2 = w.register_component(1, 4, StorageKind::Table).unwrap();
    assert_eq!(a, a2);
    assert_eq!(w.registry.layout_of(a), 4);
    assert_eq!(w.registry.kind_of(b), StorageKind::SparseSet);
}

#[test]
fn register_rejects_changed_strategy_or_layout() {
    let mut w = World::new();
    let _a = w.register_component(1, 4, StorageKind::Table).unwrap();
    assert_eq!(
        w.register_component(1, 4, StorageKind::SparseSet),
        Err(RegistryError::StorageMismatch)
    );
    assert_eq!(
        w.register_component(1, 8, StorageKind::Table),
        Err(RegistryError::LayoutMismatch)
    );
    // a rejected registration changes nothing
    let a2 = w.register_component(1, 4, StorageKind::Table).unwrap();
    assert_eq!(a2, 0);
}

#[test]
fn get_returns_latest_write_and_absent_for_missing() {
    let mut w = World::new();
    let a = w.register_component(1, 4, StorageKind::Table).unwrap();
    let b = w.register_component(2, 2, StorageKind::SparseSet).unwrap();
    let e = w.spawn();
    assert!(w.get_component(e, a).is_none());
    assert!(w.get_component(e, b).is_none());

    w.insert_component(e, a, vec![1, 2, 3, 4]).unwrap();
    assert_eq!(w.get_component(e, a).unwrap(), &vec![1, 2, 3, 4]);
    assert!(w.get_component(e, b).is_none());

    w.insert_component(e, b, vec![9, 9]).unwrap();
    assert_eq!(w.get_component(e, a).unwrap(), &vec![1, 2, 3, 4]);
    assert_eq!(w.get_component(e, b).unwrap(), &vec![9, 9]);

    // overwriting stores the most recent value
    w.insert_component(e, a, vec![5, 6, 7, 8]).unwrap();
    assert_eq!(w.get_component(e, a).unwrap(), &vec![5, 6, 7, 8]);
    w.insert_component(e, b, vec![0, 1]).unwrap();
    assert_eq!(w.get_component(e, b).unwrap(), &vec![0, 1]);
}

#[test]
fn overwrite_does_not_migrate() {
    let mut w = World::new();
    let a = w.register_component(1, 4, StorageKind::Table).unwrap();
    let b = w.register_component(2, 2, StorageKind::SparseSet).unwrap();
    let e = w.spawn();
    w.insert_component(e, a, vec![1, 2, 3, 4]).unwrap();
    w.insert_component(e, b, vec![7, 7]).unwrap();
    let before = w.location_of(e).unwrap();
    w.insert_component(e, a, vec![9, 9, 9, 9]).unwrap();
    let after = w.location_of(e).unwrap();
    assert_eq!(before, after);
    w.insert_component(e, b, vec![8, 8]).unwrap();
    assert_eq!(w.location_of(e).unwrap(), after);
}

#[test]
fn insert_then_remove_round_trips() {
    let mut w = World::new();
    let a = w.register_component(1, 4, StorageKind::Table).unwrap();
    let b = w.register_component(2, 2, StorageKind::SparseSet).unwrap();
    let e = w.spawn();
    let other = w.spawn();
    w.insert_component(other, a, vec![11, 12, 13, 14]).unwrap();
    w.insert_component(e, a, vec![1, 2, 3, 4]).unwrap();

    w.insert_component(e, b, vec![5, 6]).unwrap();
    let out = w.remove_component(e, b).unwrap();
    assert_eq!(out, Some(vec![5, 6]));
    assert!(w.get_component(e, b).is_none());
    // the remaining component is byte-for-byte unchanged
    assert_eq!(w.get_component(e, a).unwrap(), &vec![1, 2, 3, 4]);
    // no cross-entity corruption from the swap-remove
    assert_eq!(w.get_component(other, a).unwrap(), &vec![11, 12, 13, 14]);

    // the same round trip through the table-backed path
    let out = w.remove_component(e, a).unwrap();
    assert_eq!(out, Some(vec![1, 2, 3, 4]));
    assert!(w.get_component(e, a).is_none());
    assert_eq!(w.get_component(other, a).unwrap(), &vec![11, 12, 13, 14]);
}

#[test]
fn remove_absent_component_is_none_and_moves_nothing() {
    let mut w = World::new();
    let a = w.register_component(1, 4, StorageKind::Table).unwrap();
    let b = w.register_component(2, 2, StorageKind::SparseSet).unwrap();
    let e = w.spawn();
    w.insert_component(e, a, vec![1, 2, 3, 4]).unwrap();
    let before = w.location_of(e).unwrap();
    assert_eq!(w.remove_component(e, b).unwrap(), None);
    assert_eq!(w.location_of(e).unwrap(), before);
}

#[test]
fn despawn_recycles_index_with_bumped_generation() {
    let mut w = World::new();
    let a = w.register_component(1, 4, StorageKind::Table).unwrap();
    let e1 = w.spawn();
    w.insert_component(e1, a, vec![1, 2, 3, 4]).unwrap();
    assert!(w.is_live(e1));
    w.despawn(e1).unwrap();
    assert!(!w.is_live(e1));

    // the index is reused under a fresh, incremented generation
    let e2 = w.spawn();
    assert_eq!(e2.index, e1.index);
    assert_eq!(e2.generation, e1.generation + 1);
    assert!(w.is_live(e2));
    assert!(!w.is_live(e1));

    // operations through the stale handle are refused
    assert_eq!(
        w.insert_component(e1, a, vec![0, 0, 0, 0]),
        Err(WorldError::InvalidEntity)
    );
    assert_eq!(w.remove_component(e1, a), Err(WorldError::InvalidEntity));
    assert_eq!(w.despawn(e1), Err(WorldError::InvalidEntity));
    assert!(w.get_component(e1, a).is_none());

    // the new entity starts empty
    assert!(w.get_component(e2, a).is_none());
}

#[test]
fn dead_index_reports_entity_not_found() {
    let mut w = World::new();
    let a = w.register_component(1, 4, StorageKind::Table).unwrap();
    let e = w.spawn();
    w.despawn(e).unwrap();
    // the index is dead (not yet reused): not found rather than stale
    assert_eq!(w.despawn(e), Err(WorldError::EntityNotFound));
    assert_eq!(
        w.insert_component(e, a, vec![0, 0, 0, 0]),
        Err(WorldError::EntityNotFound)
    );
    assert_eq!(w.remove_component(e, a), Err(WorldError::EntityNotFound));
}

#[test]
fn unregistered_component_is_refused() {
    let mut w = World::new();
    let e = w.spawn();
    assert_eq!(
        w.insert_component(e, 99, vec![1]),
        Err(WorldError::ComponentNotRegistered)
    );
    assert_eq!(
        w.remove_component(e, 99),
        Err(WorldError::ComponentNotRegistered)
    );
    assert!(w.get_component(e, 99).is_none());
}

#[test]
fn entity_count_follows_spawn_and_despawn() {
    let mut w = World::new();
    assert_eq!(w.entity_count(), 0);
    let e1 = w.spawn();
    let _e2 = w.spawn();
    let _e3 = w.spawn();
    assert_eq!(w.entity_count(), 3);
    w.despawn(e1).unwrap();
    assert_eq!(w.entity_count(), 2);
    let _e4 = w.spawn();
    assert_eq!(w.entity_count(), 3);
}

#[test]
fn spawn_with_inserts_the_initial_components() {
    let mut w = World::new();
    let a = w.register_component(1, 4, StorageKind::Table).unwrap();
    let b = w.register_component(2, 2, StorageKind::SparseSet).unwrap();
    let e = w
        .spawn_with(vec![(a, vec![1, 2, 3, 4]), (b, vec![5, 6])])
        .unwrap();
    assert!(w.is_live(e));
    assert_eq!(w.get_component(e, a).unwrap(), &vec![1, 2, 3, 4]);
    assert_eq!(w.get_component(e, b).unwrap(), &vec![5, 6]);
    assert_eq!(w.entity_count(), 1);
}

#[test]
fn spawn_with_last_value_wins_per_component() {
    let mut w = World::new();
    let a = w.register_component(1, 1, StorageKind::Table).unwrap();
    let e = w.spawn_with(vec![(a, vec![1]), (a, vec![2])]).unwrap();
    assert_eq!(w.get_component(e, a).unwrap(), &vec![2]);
}

#[test]
fn spawn_with_refuses_unknown_components_and_changes_nothing() {
    let mut w = World::new();
    let a = w.register_component(1, 1, StorageKind::Table).unwrap();
    let r = w.spawn_with(vec![(a, vec![1]), (7, vec![2])]);
    assert_eq!(r, Err(WorldError::ComponentNotRegistered));
    assert_eq!(w.entity_count(), 0);
}

#[test]
fn zero_sized_components_and_empty_spawns_work() {
    let mut w = World::new();
    let tag = w.register_component(1, 0, StorageKind::SparseSet).unwrap();
    let e = w.spawn_with(vec![]).unwrap();
    assert_eq!(w.entity_count(), 1);
    assert!(w.get_component(e, tag).is_none());
    w.insert_component(e, tag, vec![]).unwrap();
    assert_eq!(w.get_component(e, tag).unwrap(), &Vec::<u8>::new());
    assert_eq!(w.remove_component(e, tag).unwrap(), Some(vec![]));
}

#[test]
fn migration_chain_through_many_archetypes() {
    // grow one entity through four archetypes and shrink it back, reading
    // every component after every step
    let mut w = World::new();
    let a = w.register_component(1, 1, StorageKind::Table).unwrap();
    let b = w.register_component(2, 1, StorageKind::Table).unwrap();
    let c = w.register_component(3, 1, StorageKind::SparseSet).unwrap();
    let e = w.spawn();
    w.insert_component(e, a, vec![1]).unwrap();
    w.insert_component(e, b, vec![2]).unwrap();
    w.insert_component(e, c, vec![3]).unwrap();
    assert_eq!(w.get_component(e, a).unwrap(), &vec![1]);
    assert_eq!(w.get_component(e, b).unwrap(), &vec![2]);
    assert_eq!(w.get_component(e, c).unwrap(), &vec![3]);
    assert_eq!(w.remove_component(e, b).unwrap(), Some(vec![2]));
    assert_eq!(w.get_component(e, a).unwrap(), &vec![1]);
    assert_eq!(w.get_component(e, c).unwrap(), &vec![3]);
    assert_eq!(w.remove_component(e, a).unwrap(), Some(vec![1]));
    assert_eq!(w.get_component(e, c).unwrap(), &vec![3]);
    assert_eq!(w.remove_component(e, c).unwrap(), Some(vec![3]));
    assert!(w.get_component(e, c).is_none());
    assert!(w.is_live(e));
}

#[test]
fn despawn_drops_sparse_values_and_spares_neighbours() {
    let mut w = World::new();
    let a = w.register_component(1, 1, StorageKind::Table).unwrap();
    let b = w.register_component(2, 1, StorageKind::SparseSet).unwrap();
    let e1 = w
        .spawn_with(vec![(a, vec![1]), (b, vec![10])])
        .unwrap();
    let e2 = w
        .spawn_with(vec![(a, vec![2]), (b, vec![20])])
        .unwrap();
    w.despawn(e1).unwrap();
    assert_eq!(w.get_component(e2, a).unwrap(), &vec![2]);
    assert_eq!(w.get_component(e2, b).unwrap(), &vec![20]);
    assert_eq!(w.entity_count(), 1);
    // a recycled index does not resurrect the dropped sparse value
    let e3 = w.spawn();
    assert_eq!(e3.index, e1.index);
    assert!(w.get_component(e3, b).is_none());
}

#[test]
fn swap_remove_relocation_keeps_values_straight() {
    // three entities in one archetype; despawning the first relocates the
    // last row, and every surviving value must still read back correctly
    let mut w = World::new();
    let a = w.register_component(1, 1, StorageKind::Table).unwrap();
    let e1 = w.spawn();
    let e2 = w.spawn();
    let e3 = w.spawn();
    w.insert_component(e1, a, vec![1]).unwrap();
    w.insert_component(e2, a, vec![2]).unwrap();
    w.insert_component(e3, a, vec![3]).unwrap();
    w.despawn(e1).unwrap();
    assert_eq!(w.get_component(e2, a).unwrap(), &vec![2]);
    assert_eq!(w.get_component(e3, a).unwrap(), &vec![3]);
    w.despawn(e2).unwrap();
    assert_eq!(w.get_component(e3, a).unwrap(), &vec![3]);
}
