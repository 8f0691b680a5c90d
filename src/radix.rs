pub mod hashmap;
pub mod vec;

use vstd::prelude::*;

use crate::node::NodeId;
use crate::segment::Segment;

verus! {

/// A node's routing table: from one discriminating segment to a child.
pub trait Radix<S: Segment>: Sized {
    /// The routes held, keyed by the view of the segment.
    spec fn routes(&self) -> Map<<S as View>::V, NodeId>;

    /// The table's own well-formedness.
    spec fn inv(&self) -> bool;

    fn new() -> (r: Self)
        ensures
            r.inv(),
            r.routes() == Map::<<S as View>::V, NodeId>::empty(),
    ;

    fn get(&self, segment: &S) -> (r: Option<NodeId>)
        requires
            self.inv(),
        ensures
            r == (if self.routes().contains_key(segment@) {
                Some(self.routes()[segment@])
            } else {
                None
            }),
    ;

    /// Adds a route, or overwrites the one for an equal segment.
    fn insert(&mut self, segment: S, node_id: NodeId)
        requires
            old(self).inv(),
        ensures
            final(self).inv(),
            final(self).routes() == old(self).routes().insert(segment@, node_id),
    ;
}

} // verus!
