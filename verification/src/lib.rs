//! A compressed prefix tree (radix trie) over strings.
//!
//! The trie stores a set of keys with shared-prefix compression: each node
//! carries an edge label (a run of characters) and an ordered list of child
//! nodes.  `insert` splits and extends nodes so that every inserted key is
//! represented by the concatenation of edge labels along some root-to-node
//! path, and `contains` answers whether a word is a prefix of one of those
//! concatenations.
//!
//! The mathematical model of a trie lives in [`model`]; the executable
//! structure and its operations live in [`trie`]; the laws the operations
//! obey (membership, idempotence, monotonicity, invariant preservation) are
//! proved in [`laws`].

pub mod laws;
pub mod model;
pub mod trie;

pub use trie::RadixTrie;
