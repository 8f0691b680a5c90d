use vstd::prelude::*;

use crate::edge::Edge;
use crate::radix::Radix;
use crate::segment::Segment;

verus! {

/// A stable handle to a node: its index in the trie's arena.
#[derive(Clone, Copy, PartialEq, Eq, Debug, Structural)]
pub struct NodeId(pub usize);

/// A node of the trie: the segments compressed beyond the discriminator that
/// routes to it, its children, and the value of a key that ends here.
#[derive(Debug)]
pub struct TrieNode<S, V, R> {
    pub edge: Edge<S>,
    pub radix: R,
    pub value: Option<V>,
}

impl<S: Segment, V, R: Radix<S>> TrieNode<S, V, R> {
    /// A node without children.
    pub fn new(edge: Edge<S>, value: Option<V>) -> (r: Self)
        ensures
            r.edge@ == edge@,
            r.value == value,
            r.radix.routes() == Map::<S::V, NodeId>::empty(),
            r.radix.inv(),
    {
        TrieNode { edge, radix: R::new(), value }
    }

    /// The child reached through `segment`, if any.
    pub fn route(&self, segment: &S) -> (r: Option<NodeId>)
        requires
            self.radix.inv(),
        ensures
            r == (if self.radix.routes().contains_key(segment@) {
                Some(self.radix.routes()[segment@])
            } else {
                None
            }),
    {
        self.radix.get(segment)
    }

    /// Routes `segment` to `node_id`, replacing any earlier route for it.
    pub fn insert_edge(&mut self, segment: S, node_id: NodeId)
        requires
            old(self).radix.inv(),
        ensures
            final(self).radix.inv(),
            final(self).radix.routes() == old(self).radix.routes().insert(segment@, node_id),
            final(self).edge@ == old(self).edge@,
            final(self).value == old(self).value,
    {
        self.radix.insert(segment, node_id);
    }
}

} // verus!
