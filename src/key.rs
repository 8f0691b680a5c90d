pub mod char_splitter;
pub mod str_splitter;

use vstd::prelude::*;

use crate::edge::Edge;
use crate::segment::Segment;

verus! {

/// Turns a key into its ordered sequence of segments.
pub trait IntoEdge<S: Segment> {
    /// The segments of `key`: a function of the key alone.
    spec fn encode(&self, key: Seq<char>) -> Seq<<S as View>::V>;

    fn segment(&self, key: &str) -> (r: Edge<S>)
        ensures
            r@ == self.encode(key@),
    ;
}

} // verus!
