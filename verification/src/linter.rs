//! The validator of the command-line linter.
//!
//! It checks a document exactly as [`crate::validate::validate`] does: the
//! command line and the library give the same verdict.
use vstd::prelude::*;
use crate::errors::Error;
use crate::parse::Document;
use crate::schema::Schema;
use crate::validate::{collect_errors, errors_view, sort_errors, validate_spec};

verus! {

/// Validate `doc` against `schema` and return any errors, sorted by line.
///
/// `file` is used as the file name in error output.
pub fn validate(doc: &Document, schema: &Schema, file: &str) -> (errors: Vec<Error>)
    ensures
        errors_view(errors@) == validate_spec(doc@, schema@, file@),
{
    let errors = collect_errors(file, doc, schema);
    sort_errors(errors)
}

} // verus!
