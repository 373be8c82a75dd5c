//! Exercises the query engine: matching by present and absent components,
//! the incrementally extended archetype cache, and change-tick filtering.

use ecs_core::component::StorageKind;
use ecs_core::query::{QueryError, QueryShape, QueryState};
use ecs_core::world::World;

#[test]
fn query_build_rejects_conflicts_and_loose_filters() {
    let q = QueryShape::new(&vec![0, 1], &vec![1], &vec![]);
    assert!(matches!(q, Err(QueryError::Conflict)));
    let q = QueryShape::new(&vec![0], &vec![1], &vec![2]);
    assert!(matches!(q, Err(QueryError::FilterNotRequired)));
    assert!(QueryShape::new(&vec![0, 1], &vec![2], &vec![1]).is_ok());
}

#[test]
fn query_matches_present_and_absent_sets() {
    let mut w = World::new();
    let a = w.register_component(1, 1, StorageKind::Table).unwrap();
    let b = w.register_component(2, 1, StorageKind::SparseSet).unwrap();
    let e_a = w.spawn();
    w.insert_component(e_a, a, vec![1]).unwrap();
    let e_ab = w.spawn();
    w.insert_component(e_ab, a, vec![2]).unwrap();
    w.insert_component(e_ab, b, vec![3]).unwrap();
    let e_none = w.spawn();

    let mut q_a = QueryState::new(QueryShape::new(&vec![a], &vec![], &vec![]).unwrap());
    let r = w.run_query(&mut q_a, 0);
    assert_eq!(r.len(), 2);
    assert!(r.contains(&e_a) && r.contains(&e_ab));

    let mut q_a_not_b = QueryState::new(QueryShape::new(&vec![a], &vec![b], &vec![]).unwrap());
    let r = w.run_query(&mut q_a_not_b, 0);
    assert_eq!(r, vec![e_a]);

    let mut q_empty = QueryState::new(QueryShape::new(&vec![], &vec![], &vec![]).unwrap());
    let r = w.run_query(&mut q_empty, 0);
    assert_eq!(r.len(), 3);
    assert!(r.contains(&e_none));
}

#[test]
fn query_cache_extends_over_new_archetypes() {
    let mut w = World::new();
    let a = w.register_component(1, 1, StorageKind::Table).unwrap();
    let b = w.register_component(2, 1, StorageKind::Table).unwrap();
    let e1 = w.spawn();
    w.insert_component(e1, a, vec![1]).unwrap();

    let mut q = QueryState::new(QueryShape::new(&vec![a], &vec![], &vec![]).unwrap());
    assert_eq!(w.run_query(&mut q, 0), vec![e1]);

    // a new archetype appears after the first run; the cached match list
    // is extended, never rebuilt, and the new entity is found
    let e2 = w.spawn();
    w.insert_component(e2, a, vec![2]).unwrap();
    w.insert_component(e2, b, vec![3]).unwrap();
    let r = w.run_query(&mut q, 0);
    assert_eq!(r.len(), 2);
    assert!(r.contains(&e1) && r.contains(&e2));
}

#[test]
fn bulk_toggle_matches_ten_thousand() {
    // register A (table-backed) and B (sparse-backed); spawn 10,000
    // entities with only A; toggle B on and off across all of them and
    // check the matching counts and the total population each time
    let mut w = World::new();
    let a = w.register_component(1, 1, StorageKind::Table).unwrap();
    let b = w.register_component(2, 1, StorageKind::SparseSet).unwrap();
    let mut entities = Vec::new();
    for k in 0..10_000u32 {
        let e = w.spawn();
        w.insert_component(e, a, vec![k as u8]).unwrap();
        entities.push(e);
    }
    assert_eq!(w.entity_count(), 10_000);

    for e in &entities {
        w.insert_component(*e, b, vec![1]).unwrap();
    }
    let mut q_ab = QueryState::new(QueryShape::new(&vec![a, b], &vec![], &vec![]).unwrap());
    assert_eq!(w.run_query(&mut q_ab, 0).len(), 10_000);

    for e in &entities {
        assert_eq!(w.remove_component(*e, b).unwrap(), Some(vec![1]));
    }
    let mut q_a = QueryState::new(QueryShape::new(&vec![a], &vec![], &vec![]).unwrap());
    assert_eq!(w.run_query(&mut q_a, 0).len(), 10_000);
    assert_eq!(w.run_query(&mut q_ab, 0).len(), 0);
    assert_eq!(w.entity_count(), 10_000);

    // the values written first are still intact
    assert_eq!(w.get_component(entities[0], a).unwrap(), &vec![0]);
    assert_eq!(w.get_component(entities[9_999], a).unwrap(), &vec![15]);
}

#[test]
fn change_filter_sees_writes_after_the_captured_tick() {
    let mut w = World::new();
    let a = w.register_component(1, 1, StorageKind::Table).unwrap();
    let b = w.register_component(2, 1, StorageKind::SparseSet).unwrap();
    let e = w.spawn();
    w.insert_component(e, a, vec![1]).unwrap();

    let pre_insert = w.current_tick();
    w.advance_tick();
    w.insert_component(e, b, vec![2]).unwrap();

    // changed since the pre-insert tick: the insert is seen
    let shape = QueryShape::new(&vec![a, b], &vec![], &vec![b]).unwrap();
    let mut q = QueryState::new(shape);
    assert_eq!(w.run_query(&mut q, pre_insert), vec![e]);

    // a later capture sees nothing until B is written again
    let later = w.current_tick();
    assert_eq!(w.run_query(&mut q, later), Vec::new());

    w.advance_tick();
    w.insert_component(e, b, vec![3]).unwrap();
    assert_eq!(w.run_query(&mut q, later), vec![e]);
}

#[test]
fn change_filter_distinguishes_entities() {
    let mut w = World::new();
    let a = w.register_component(1, 1, StorageKind::Table).unwrap();
    let e1 = w.spawn();
    w.insert_component(e1, a, vec![1]).unwrap();
    let captured = w.current_tick();
    w.advance_tick();
    let e2 = w.spawn();
    w.insert_component(e2, a, vec![2]).unwrap();

    // only the entity written after the capture passes the filter
    let shape = QueryShape::new(&vec![a], &vec![], &vec![a]).unwrap();
    let mut q = QueryState::new(shape);
    assert_eq!(w.run_query(&mut q, captured), vec![e2]);
}
