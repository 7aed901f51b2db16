//! An archetype-based entity-component storage engine.
//!
//! Entities carry an arbitrary set of components; entities with the same
//! set share an archetype, whose data lives in densely packed,
//! column-oriented byte chunks of a fixed budget.

pub mod cmp;
pub mod entity;
pub mod meta;
pub mod chunk;
pub mod archetype;
pub mod registry;
pub mod scene;

pub use cmp::{CmpData, CmpId, CmpMeta, ComponentSet, EcsError};
pub use entity::{Entity, EntityLocation, EntityMap, EntityMapChunk};
pub use meta::ArchetypeMeta;
pub use chunk::ArchetypeChunk;
pub use archetype::Archetype;
pub use registry::ArchetypeMap;
pub use scene::Scene;
