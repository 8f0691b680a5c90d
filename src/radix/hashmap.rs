use std::collections::HashMap;

use vstd::prelude::*;

use super::Radix;
use crate::node::NodeId;

verus! {

broadcast use vstd::std_specs::hash::group_hash_axioms;

/// A routing table on a hash map, keyed by the character's code point:
/// lookups stay cheap for many children.
#[derive(Debug)]
pub struct HashMapRadix(HashMap<u32, NodeId>);

impl Radix<char> for HashMapRadix {
    closed spec fn routes(&self) -> Map<char, NodeId> {
        Map::new(|c: char| self.0@.contains_key(c as u32), |c: char| self.0@[c as u32])
    }

    closed spec fn inv(&self) -> bool {
        true
    }

    fn new() -> (r: Self) {
        let r = HashMapRadix(HashMap::new());
        assert(r.routes() =~= Map::<char, NodeId>::empty());
        r
    }

    fn get(&self, segment: &char) -> (r: Option<NodeId>) {
        let code = *segment as u32;
        match self.0.get(&code) {
            Some(id) => Some(*id),
            None => None,
        }
    }

    fn insert(&mut self, segment: char, node_id: NodeId) {
        let code = segment as u32;
        self.0.insert(code, node_id);
        let ghost m0 = old(self).routes();
        let ghost m1 = self.routes();
        assert forall|c: char| #[trigger] m1.contains_key(c) == m0.insert(
            segment,
            node_id,
        ).contains_key(c) && (m1.contains_key(c) ==> m1[c] == m0.insert(segment, node_id)[c]) by {
            if c == segment {
                assert(c as u32 == code);
            } else {
                if c as u32 == code {
                    vstd::utf8::char_u32_cast(c, code);
                    vstd::utf8::char_u32_cast(segment, code);
                }
                assert(c as u32 != code);
                assert(m1.contains_key(c) == self.0@.contains_key(c as u32));
                assert(m0.contains_key(c) == old(self).0@.contains_key(c as u32));
            }
        }
        assert(m1 =~= m0.insert(segment, node_id));
    }
}

} // verus!
