//! structmd — a structured document format for machine-generated content that people read and edit.
//!
//! Structure comes from line prefixes (`#`, `##`, `-`), not punctuation.
//! Documents are deterministically parsable without a schema; a schema adds validation.
//!
//! See [`parse`] for the document model, [`schema`] for schema loading,
//! [`validate`] for validation and [`errors`] for structured error output.
use vstd::prelude::*;

pub mod errors;
pub mod linter;
pub mod parse;
pub mod schema;
pub mod text;
pub mod validate;

verus! {

/// Validate a parsed document against a schema and return any errors.
///
/// Convenience wrapper around [`validate::validate`].
pub fn lint(doc: &parse::Document, schema: &schema::Schema, file: &str) -> (errors: Vec<errors::Error>)
    ensures
        validate::errors_view(errors@) == validate::validate_spec(doc@, schema@, file@),
{
    validate::validate(doc, schema, file)
}

} // verus!
