//! Hierarchical settings resolution for editor-managed language servers.
//!
//! The crate models configuration fragments as a recursive [`value::SettingsValue`]
//! tree, explodes flattened `key=value` override entries into such trees while
//! detecting structural conflicts, projects a configured section out of a tree,
//! and resolves, per server, exactly one settings source out of the dynamic,
//! legacy and static candidates.

pub mod config;
pub mod flatten;
pub mod insert;
pub mod parse;
pub mod resolve;
pub mod value;
