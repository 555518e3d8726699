//! An ordered associative container (map and set) for fixed-width integer
//! keys, backed by a multiway radix trie with a configurable branching
//! factor. Lookup, insertion and removal walk one node per key digit; the
//! trie keeps a cached subtree element count in every node and offers
//! ordered traversal from both ends at once.

pub mod key;
pub mod node;
pub mod tree;
