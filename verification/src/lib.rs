//! Streaming validation of delimited text against a declarative schema.
//!
//! The engine consumes raw byte chunks, tokenizes them into records through
//! an external CSV tokenizer, reconciles header names against the schema,
//! validates every data field, collects a bounded queue of packed error
//! records, and re-emits a canonicalized copy of each clean row.

pub mod schema;
pub mod fields;
pub mod decimal;
pub mod date;
pub mod validate;
pub mod writer;
pub mod tok;
pub mod engine;
pub mod errors;

pub use schema::{ColumnSpec, ColumnType, DateFormat, Progress, Schema, default_delimiter};
pub use errors::{ColKind, ErrorCode, PackedError};
pub use engine::ValidatorEngine;
