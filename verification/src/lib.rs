//! A pure packing engine: it takes an in-memory set of source files and
//! produces an ordered sequence of token-balanced packs. Import-like lines
//! are scanned heuristically, specifiers are resolved against the known
//! file set, files are ordered so dependencies come first, documentation
//! is split from code and re-prioritised, import-connected code files are
//! grouped, and the result is partitioned into order-preserving packs.

use vstd::prelude::*;

mod distribute;
mod docs;
mod extract;
mod format;
mod graph;
mod group;
mod models;
mod order;
mod pack;
mod paths;
mod resolve;
mod scope;
mod text;

pub use distribute::{distribute_files, distribute_with_doc_strategy};
pub use docs::{doc_priority, is_doc_file, split_docs_and_code};
pub use extract::{extract_module_specifiers, extract_quoted_segments};
pub use format::{estimate_tokens, format_file_header, wrap_pack};
pub use graph::{build_dependency_graph, build_related_adjacency};
pub use group::group_code_by_related_components;
pub use models::{FileContent, FileNode, PackItem, PackRequest, PackResponse, ReachabilityResult};
pub use order::compute_dependency_order;
pub use pack::pack_files;
pub use paths::{
    file_basename, get_extension, has_extension, normalize_path, parent_dir, path_extension,
    path_has_parent_traversal,
};
pub use resolve::resolve_module_specifier;
pub use scope::{is_binary_by_extension, should_exclude_dir, ScopeState};

verus! {

} // verus!
