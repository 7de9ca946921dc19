//! The data types exchanged with the engine's callers.

use vstd::prelude::*;

verus! {

use std::collections::HashMap;

/// One entry of a discovered file tree.
#[derive(Debug)]
pub struct FileNode {
    pub id: String,
    pub path: String,
    pub relative_path: String,
    pub name: String,
    pub extension: String,
    pub size: u64,
    pub is_dir: bool,
    pub children: Option<Vec<FileNode>>,
}

/// One input file: its path, its text, and an optional precomputed
/// token count.
#[derive(Debug, Clone)]
pub struct FileContent {
    pub path: String,
    pub content: String,
    pub token_count: Option<usize>,
}

/// A request to pack a set of files.
#[derive(Debug)]
pub struct PackRequest {
    pub files: Vec<FileContent>,
    pub num_packs: usize,
    pub output_format: String,
    pub llm_profile_id: String,
}

/// One rendered pack.
#[derive(Debug)]
pub struct PackItem {
    pub index: usize,
    pub content: String,
    pub estimated_tokens: usize,
    pub file_count: usize,
    pub file_paths: Vec<String>,
}

/// The full packing result.
#[derive(Debug)]
pub struct PackResponse {
    pub packs: Vec<PackItem>,
    pub total_tokens: usize,
}

/// Per-file reachable and unreachable symbol names, as reported by a
/// separate reachability analyzer.
#[derive(Debug)]
pub struct ReachabilityResult {
    pub reachable_symbols: HashMap<String, Vec<String>>,
    pub unreachable_symbols: HashMap<String, Vec<String>>,
}

} // verus!
