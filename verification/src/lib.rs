//! A prefix tree (trie) over character sequences.
//!
//! Words are inserted one at a time; membership and prefix existence are
//! answered by [`Trie::find`] together with the [`OpTN`] helper trait, and
//! all words stored below a prefix can be enumerated.

pub mod node;
pub mod trie;

pub use crate::node::TrieNode;
pub use crate::trie::OpTN;
pub use crate::trie::Trie;
