//! A fixed-width byte-keyed trie (radix tree).
//!
//! Every key of a given [`trie::Trie`] is a byte sequence of one fixed width,
//! chosen at construction. Each of the `W` key positions selects one edge out
//! of a bounded alphabet of `N` byte values (the arity, at most 256). Point
//! lookup, insertion and deletion descend one [`byte_map::ByteMap`] per level;
//! deletion prunes internal nodes that are left without children; ordered
//! traversal yields every stored `(key, value)` pair in strictly ascending
//! lexicographic key order.

pub mod byte_map;
pub mod error;
pub mod trie;
