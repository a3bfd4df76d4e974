//! Where schema associations come from, as recorded in their metadata.
use vstd::prelude::*;

verus! {

/// Built into the library.
pub const BUILTIN: &'static str = "builtin";
/// From a schema catalog.
pub const CATALOG: &'static str = "catalog";
/// From the configuration file.
pub const CONFIG: &'static str = "config";
/// From the editor's configuration.
pub const LSP_CONFIG: &'static str = "lsp_config";
/// Added by hand.
pub const MANUAL: &'static str = "manual";
/// From a `$schema` field of a document.
pub const SCHEMA_FIELD: &'static str = "$schema";
/// From a schema directive in a document.
pub const DIRECTIVE: &'static str = "directive";

} // verus!
