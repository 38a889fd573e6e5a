//! The errors the database reports.

use vstd::prelude::*;

use crate::parser::ParseError;

verus! {

/// An error of the database.
#[derive(Debug)]
pub enum PachaError {
    UnrecoverableStorageError(String),
    QueryParsingError(ParseError),
    Unknown(String),
}

impl From<ParseError> for PachaError {
    fn from(value: ParseError) -> (r: PachaError) {
        PachaError::QueryParsingError(value)
    }
}

impl vstd::std_specs::convert::FromSpecImpl<ParseError> for PachaError {
    open spec fn obeys_from_spec() -> bool {
        true
    }

    open spec fn from_spec(value: ParseError) -> PachaError {
        PachaError::QueryParsingError(value)
    }
}

pub type PachaResult<V> = Result<V, PachaError>;

} // verus!
