//! Word prediction, completion and spell-checking engine for an on-screen keyboard.

pub mod binary_trie;
pub mod candidates;
pub mod canonical;
pub mod codec;
pub mod dyntrie;
pub mod engine;
pub mod fuzzy;
pub mod json;
pub mod model;
pub mod ranking;
pub mod scoring;
pub mod text;
pub mod version;
pub mod word_map;
pub mod word_trie;
