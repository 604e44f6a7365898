//! Melting nested JSON documents into flat, linked entities, and inferring
//! schemas from sample documents.
pub mod text;
pub mod format;
pub mod assoc;
pub mod value;
pub mod entity;
pub mod extractor;
pub mod plan;
pub mod planned;
pub mod schema;
pub mod inference;

pub use value::{JsonValue, JsonNumber};
pub use entity::{Entity, EntityId, ParentRef, MeltConfig};
pub use extractor::JsonMelter;
pub use plan::{ArrayType, FieldRule, EntityPlan, MeltPlan};
pub use planned::PlannedMelter;
pub use schema::{SchemaBuilder, JsonType, infer_schema_streaming};
pub use format::detect_format;
pub use inference::infer_schema;
