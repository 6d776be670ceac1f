//! Inference of structural types for JSON documents, their unification, and
//! the emission of declarations for an inferred type.

pub mod data_type;
pub mod declare;
pub mod json_value;
pub mod laws;
pub mod shape;

pub use data_type::DataType;
pub use declare::Decls;
pub use json_value::{JsonValue, Number};
