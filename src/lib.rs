//! A radix trie (compressed prefix tree) over keys split into segments.

pub mod edge;
pub mod key;
pub mod node;
pub mod radix;
pub mod retrieval;
pub mod segment;
pub mod trie;
pub mod value;
