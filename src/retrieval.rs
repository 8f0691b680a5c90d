use vstd::prelude::*;

use crate::node::NodeId;

verus! {

/// Where a key stands relative to the nodes of a trie.
#[derive(PartialEq, Eq, Debug, Structural)]
pub enum Retrieval {
    /// Searching for /a/b/c: found /a/b/c.
    Exact(NodeId),
    /// Searching for /a/b/c: found /a/b, which has no route onwards.
    Prefix { ancestor_id: NodeId, depth: usize },
    /// Searching for /a/b: the ancestor is /a, the descendant is /a/b/c.
    Split { ancestor_id: NodeId, desc_id: NodeId, depth: usize },
    /// Searching for /a/b/x: the ancestor is /a, the sibling is /a/b/c.
    Divergence { ancestor_id: NodeId, sibling_id: NodeId, depth: usize, common_len: usize },
}

} // verus!
