//! An entity database in the style of an entity-component system: entities carry
//! named attributes, entities with the same attribute set share an archetype, and
//! a transaction buffers every write until it is committed as one batch.
pub mod archetype;
pub mod attribute;
pub mod bytemap;
pub mod commit;
pub mod edge;
pub mod entity;
pub mod ids;
pub mod query;
pub mod storage;
pub mod tx;

pub use attribute::{hash_name, Attribute};
pub use edge::{edge_type_hash, Edge};
pub use entity::Entity;
