//! An in-process store for entities and their runtime-chosen sets of typed
//! components: a columnar storage engine with an archetype graph, per-type
//! sparse sets, online migration of entity rows when a component set changes,
//! and change-tick-filtered queries.

pub mod capsule;
pub mod component;
pub mod component_set;
pub mod entity;
pub mod laws;
pub mod query;
pub mod sparse;
pub mod table;
pub mod visibility;
pub mod world;
