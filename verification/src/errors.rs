//! Errors found in TOML documents and in queries on their trees.
use std::sync::Arc;
use vstd::prelude::*;
use crate::platform::share;

verus! {

/// Errors of queries on a tree.
#[derive(Debug)]
pub enum QueryError {
    /// Nothing stands at the requested key or index.
    NotFound,
    /// The glob pattern could not be compiled.
    InvalidGlob(Arc<globset::Error>),
}

/// Errors found in a document or a query.
#[derive(Debug)]
pub enum TomlError {
    /// A key is defined twice.
    ConflictingKeys { key: String, other: String },
    /// A key was expected to name an array of tables.
    ExpectedTableArray { target: String, key: String },
    /// A key was expected to name a table.
    ExpectedTable { target: String, key: String },
    /// A string holds an invalid escape sequence.
    InvalidEscapeSequence { text: String },
    /// The source holds text that does not belong there.
    UnexpectedSyntax { text: String },
    /// A query failed.
    Query(QueryError),
}

impl Clone for QueryError {
    fn clone(&self) -> (r: Self)
        ensures
            r == *self,
    {
        match self {
            QueryError::NotFound => QueryError::NotFound,
            QueryError::InvalidGlob(e) => QueryError::InvalidGlob(share(e)),
        }
    }
}

impl Clone for TomlError {
    fn clone(&self) -> (r: Self)
        ensures
            r == *self,
    {
        match self {
            TomlError::ConflictingKeys { key, other } => TomlError::ConflictingKeys { key: key.clone(), other: other.clone() },
            TomlError::ExpectedTableArray { target, key } => TomlError::ExpectedTableArray { target: target.clone(), key: key.clone() },
            TomlError::ExpectedTable { target, key } => TomlError::ExpectedTable { target: target.clone(), key: key.clone() },
            TomlError::InvalidEscapeSequence { text } => TomlError::InvalidEscapeSequence { text: text.clone() },
            TomlError::UnexpectedSyntax { text } => TomlError::UnexpectedSyntax { text: text.clone() },
            TomlError::Query(q) => TomlError::Query(q.clone()),
        }
    }
}

} // verus!
