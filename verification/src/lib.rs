use vstd::prelude::*;

pub mod prefix;
pub mod sort;
pub mod lossless;
pub mod ranges;
pub mod types;
pub mod exclusion;
pub mod preferred;
pub mod error;
pub mod text;
pub mod trie;
pub mod trie_build;
pub mod trie_insert;
pub mod trie_marks;
pub mod trie_paths;
pub mod efficiency;
pub mod heap;
pub mod progress;
pub mod optimizer;
pub mod source_map;
pub mod provenance;
pub mod pipeline;
pub mod outcome;
pub mod ipnet_calls;
pub mod parser;
pub mod reader;
pub mod target;

verus! {
} // verus!
