//! A binary trie whose nodes live in one vector.
pub mod node;
pub mod table;
