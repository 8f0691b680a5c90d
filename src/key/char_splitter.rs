use vstd::prelude::*;

use super::IntoEdge;
use crate::edge::{views, Edge};

verus! {

/// Splits a key into its characters.
#[derive(Debug)]
pub struct CharSplitter {}

impl IntoEdge<char> for CharSplitter {
    open spec fn encode(&self, key: Seq<char>) -> Seq<char> {
        key
    }

    fn segment(&self, key: &str) -> (r: Edge<char>) {
        let mut v: Vec<char> = Vec::new();
        for c in it: key.chars()
            invariant
                v@ == it.seq().take(it.index() as int),
        {
            v.push(c);
        }
        assert(views(v@) =~= v@);
        Edge::from_vec(v)
    }
}

} // verus!
