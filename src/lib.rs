//! Vault indexer and search engine for a directory of markdown notes.
//!
//! The library works on plain snapshots of the file system: a directory
//! listing is handed in as a tree of [`DiskNode`] values, and file contents
//! as strings. Reading the disk is left to the caller.

mod entry;
mod filter;
mod list;
mod order;
mod pattern;
mod search;
mod tree;
mod unique;

pub use entry::{DiskNode, FileContent, FileEntry, GrepMatch, MatchView, VaultError};
pub use filter::{is_admitted, is_hidden, is_markdown_name, METADATA_DIR};
pub use list::{list_recursive_markdown, list_shallow};
pub use pattern::{compile_pattern, CompiledPattern};
pub use search::{is_searchable_file, result_cap, search_notes, SearchSession, DEFAULT_MAX_RESULTS};
pub use tree::{build_level, build_tree, join_components, join_path};
