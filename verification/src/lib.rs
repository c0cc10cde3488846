//! Flow: a human-writable, indentation-structured configuration format.
//!
//! The library parses Flow text into a generic structured value, serializes
//! such a value back to Flow text, and offers a small schema registry.
//! Parsing is total: malformed lines are ignored and unparseable scalars
//! fall back to strings.

pub mod chars;
pub mod laws;
pub mod model;
pub mod numbers;
pub mod parse;
pub mod scalar;
pub mod serialize;
pub mod tokenize;
pub mod value;

pub use model::FieldDefinition;
pub use model::ModelDefinition;
pub use model::ModelRegistry;
pub use model::ParseFlowWithModel;
pub use parse::ParseFlow;
pub use scalar::parse_value;
pub use serialize::StringifyFlow;
pub use tokenize::tokenize_lines;
pub use value::SpecValue;
pub use value::Value;
