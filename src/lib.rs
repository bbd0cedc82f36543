//! Adds named groups of dependencies to a Cargo manifest: reads the groups file,
//! resolves the versions asked for as newest through a crate search run once per
//! name, and writes the manifest back with its dependencies sorted.
pub mod arguments;
pub mod error;
pub mod group_reader;
pub mod order;
pub mod toml_editor;
pub mod toml_value;
pub mod version_getter;
