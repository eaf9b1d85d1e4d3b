//! An in-memory prefix tree (trie) for a dictionary of words, with exact
//! membership, prefix-based autocompletion, and single-edit spelling
//! suggestion.

pub mod autocomplete;
pub mod error_check;
pub mod node;
pub mod text;
pub mod tree;
