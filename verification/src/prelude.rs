//! What most users of the library need.

pub use crate::class::Class;
pub use crate::entity::{Entities, Entity, EntityError, EntityEvents};
pub use crate::field_path::FieldPath;
pub use crate::field_state::FieldState;
pub use crate::field_value::{ConversionError, FieldValue};
