//! Schema-loading security policy, schema associations and the TOML DOM tree.
pub mod text;
pub mod paths;
pub mod platform;
pub mod bindings;
pub mod location;
pub mod security;
pub mod errors;
pub mod keys;
pub mod node;
pub mod traversal;
pub mod stats;
pub mod inspect;
pub mod query;
pub mod priority;
pub mod source;
pub mod rules;
pub mod index;
pub mod catalog;
pub mod config;
pub mod associations;
