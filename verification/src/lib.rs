//! The entity model of a Dota 2 replay decoder: the schema of serializers and fields, the
//! field paths and property names that lead through it, the sparse state of an entity's
//! fields, and the table of the live entities.

pub mod chat;
pub mod class;
pub mod decoder;
pub mod entity;
pub mod field;
pub mod field_path;
pub mod field_state;
pub mod field_type;
pub mod field_value;
pub mod prelude;
pub mod serializer;
pub mod table;
pub mod text;

pub use crate::entity::{Entity, EntityEvents};
