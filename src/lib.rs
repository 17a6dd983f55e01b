//! A generic trie (prefix tree) over sequences of characters, with a payload
//! value at every stored key, verified with Verus.
pub mod laws;
pub mod tree;
pub mod trie;
pub mod trie_node;

pub use trie::Trie;
pub use trie_node::TrieNode;
