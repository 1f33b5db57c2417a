//! A qp-trie: a compact, ordered, byte-string-keyed associative container.
//!
//! Branch nodes hold up to 17 children in a bitmap-compacted sparse array,
//! indexed by 4-bit key nibbles (slot 0 is reserved for "key exhausted").
//! Every operation is specified against a mathematical view of the trie as a
//! `Map<Seq<u8>, V>` and verified to maintain the structural invariants.

pub mod iterator;
pub mod keys;
pub mod laws;
pub mod node;
pub mod sparse_array;
pub mod trie;

pub use iterator::TriePrefixIterator;
pub use trie::Trie;
