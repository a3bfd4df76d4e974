//! Priorities of schema associations: where several associations match a document, the
//! one of highest priority wins.
use vstd::prelude::*;

verus! {

/// Associations built into the library.
pub const BUILTIN: usize = 10;
/// Associations from a schema catalog.
pub const CATALOG: usize = 25;
/// The association of the configuration file as a whole.
pub const CONFIG: usize = 50;
/// Associations of rules of the configuration file.
pub const CONFIG_RULE: usize = 51;
/// Associations from the editor's configuration.
pub const LSP_CONFIG: usize = 60;
/// Associations from a `$schema` field of a document.
pub const SCHEMA_FIELD: usize = 70;
/// Associations from a schema directive in a document.
pub const DIRECTIVE: usize = 75;
/// The highest priority.
pub const MAX: usize = usize::MAX;

} // verus!
