//! Infers a structural schema from example JSON documents and produces
//! synthetic documents that follow such a schema.
//!
//! A schema is inferred from each document and the schemas are merged into
//! one; the merge is the heart of the library, and what holds of it is
//! proved in [`laws`]. From a schema a document is produced that follows it.
//! A schema can also be read from and written as a JSON Schema document, and
//! described in words.

pub mod any_order;
pub mod double;
pub mod double_order;
pub mod fields;
pub mod infer;
pub mod infer_string;
pub mod invariants;
pub mod json;
pub mod json_schema;
pub mod laws;
pub mod merge;
pub mod parse_schema;
pub mod pretty;
pub mod produce;
pub mod schema;
pub mod strings;
pub mod text;

pub use crate::infer::{infer_schema, infer_schema_from_iter, EnumInference, InferenceOptions};
pub use crate::json_schema::ToJsonSchema;
pub use crate::parse_schema::{parse_json_schema, ParseSchemaError};
pub use crate::produce::produce;
pub use crate::schema::{NumberType, SchemaState, StringType};
