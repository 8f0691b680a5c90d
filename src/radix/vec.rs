use vstd::prelude::*;

use super::Radix;
use crate::node::NodeId;
use crate::segment::Segment;

verus! {

/// The routes that a list of pairs holds; a later pair wins.
pub open spec fn pairs_map<S: View>(v: Seq<(S, NodeId)>) -> Map<S::V, NodeId>
    decreases v.len(),
{
    if v.len() == 0 {
        Map::empty()
    } else {
        pairs_map(v.drop_last()).insert(v.last().0@, v.last().1)
    }
}

/// No two pairs have equal segments.
pub open spec fn unique_keys<S: View>(v: Seq<(S, NodeId)>) -> bool {
    forall|i: int, j: int| 0 <= i < j < v.len() ==> v[i].0@ != v[j].0@
}

proof fn lemma_pairs_map_index<S: View>(v: Seq<(S, NodeId)>, i: int)
    requires
        unique_keys(v),
        0 <= i < v.len(),
    ensures
        pairs_map(v).contains_key(v[i].0@),
        pairs_map(v)[v[i].0@] == v[i].1,
    decreases v.len(),
{
    if i < v.len() - 1 {
        lemma_pairs_map_index(v.drop_last(), i);
    }
}

proof fn lemma_pairs_map_absent<S: View>(v: Seq<(S, NodeId)>, k: S::V)
    requires
        forall|i: int| 0 <= i < v.len() ==> v[i].0@ != k,
    ensures
        !pairs_map(v).contains_key(k),
    decreases v.len(),
{
    if v.len() > 0 {
        lemma_pairs_map_absent(v.drop_last(), k);
    }
}

proof fn lemma_pairs_map_update<S: View>(v: Seq<(S, NodeId)>, i: int, x: (S, NodeId))
    requires
        unique_keys(v),
        0 <= i < v.len(),
        x.0@ == v[i].0@,
    ensures
        pairs_map(v.update(i, x)) == pairs_map(v).insert(x.0@, x.1),
    decreases v.len(),
{
    let w = v.update(i, x);
    if i == v.len() - 1 {
        assert(w.drop_last() =~= v.drop_last());
        lemma_pairs_map_absent(v.drop_last(), x.0@);
        assert(pairs_map(w) =~= pairs_map(v).insert(x.0@, x.1));
    } else {
        assert(w.drop_last() =~= v.drop_last().update(i, x));
        lemma_pairs_map_update(v.drop_last(), i, x);
        assert(pairs_map(w) =~= pairs_map(v).insert(x.0@, x.1));
    }
}

/// The segments' views, with their targets, in order.
pub open spec fn entries_of<S: View>(v: Seq<(S, NodeId)>) -> Seq<(S::V, NodeId)> {
    v.map_values(|p: (S, NodeId)| (p.0@, p.1))
}

/// A routing table that scans a list of pairs: cheap for few children.
#[derive(Debug)]
pub struct VecRadix<S>(Vec<(S, NodeId)>);

impl<S: View> VecRadix<S> {
    /// The pairs held, in order of insertion.
    pub closed spec fn entries(&self) -> Seq<(S::V, NodeId)> {
        entries_of(self.0@)
    }
}

impl<S: Segment> VecRadix<S> {
    /// The routes are the pairs held: a segment is routed exactly when a
    /// pair holds it, and to that pair's target.
    pub proof fn lemma_routes_are_entries(&self)
        requires
            self.inv(),
        ensures
            forall|i: int|
                0 <= i < self.entries().len() ==> #[trigger] self.routes().contains_key(
                    self.entries()[i].0,
                ) && self.routes()[self.entries()[i].0] == self.entries()[i].1,
            forall|s: S::V|
                #[trigger] self.routes().contains_key(s) ==> exists|i: int|
                    0 <= i < self.entries().len() && #[trigger] self.entries()[i].0 == s,
    {
        assert forall|i: int| 0 <= i < self.entries().len() implies #[trigger] self.routes().contains_key(
            self.entries()[i].0,
        ) && self.routes()[self.entries()[i].0] == self.entries()[i].1 by {
            lemma_pairs_map_index(self.0@, i);
        }
        assert forall|s: S::V| #[trigger] self.routes().contains_key(s) implies exists|i: int|
            0 <= i < self.entries().len() && #[trigger] self.entries()[i].0 == s by {
            if !(exists|i: int| 0 <= i < self.entries().len() && #[trigger] self.entries()[i].0 == s) {
                assert forall|i: int| 0 <= i < self.0@.len() implies self.0@[i].0@ != s by {
                    assert(self.entries()[i].0 == self.0@[i].0@);
                }
                lemma_pairs_map_absent(self.0@, s);
            }
        }
    }
}

impl<S: Segment> Radix<S> for VecRadix<S> {
    closed spec fn routes(&self) -> Map<S::V, NodeId> {
        pairs_map(self.0@)
    }

    closed spec fn inv(&self) -> bool {
        unique_keys(self.0@)
    }

    fn new() -> (r: Self) {
        let r = VecRadix(Vec::new());
        assert(pairs_map(r.0@) =~= Map::empty());
        r
    }

    /// The target of the pair whose segment equals `segment`, if any.
    fn get(&self, segment: &S) -> (r: Option<NodeId>)
        ensures
            forall|i: int|
                0 <= i < self.entries().len() && #[trigger] self.entries()[i].0 == segment@ ==> r
                    == Some(self.entries()[i].1),
            (forall|i: int|
                0 <= i < self.entries().len() ==> #[trigger] self.entries()[i].0 != segment@)
                ==> r == None::<NodeId>,
            r matches Some(id) ==> exists|i: int|
                0 <= i < self.entries().len() && #[trigger] self.entries()[i] == (segment@, id),
    {
        let mut i: usize = 0;
        while i < self.0.len()
            invariant
                i <= self.0@.len(),
                unique_keys(self.0@),
                forall|j: int| 0 <= j < i ==> self.0@[j].0@ != segment@,
            decreases self.0@.len() - i,
        {
            if self.0[i].0.same(segment) {
                proof {
                    lemma_pairs_map_index(self.0@, i as int);
                    let e = entries_of(self.0@);
                    assert(e[i as int] == (segment@, self.0@[i as int].1));
                    assert(self.entries()[i as int].0 == segment@);
                    assert forall|j: int| 0 <= j < e.len() && #[trigger] e[j].0 == segment@ implies j
                        == i by {
                        if j != i {
                            assert(self.0@[j].0@ == self.0@[i as int].0@);
                        }
                    }
                }
                return Some(self.0[i].1);
            }
            i = i + 1;
        }
        proof {
            lemma_pairs_map_absent(self.0@, segment@);
            let e = entries_of(self.0@);
            assert forall|j: int| 0 <= j < e.len() implies #[trigger] e[j].0 != segment@ by {
                assert(self.0@[j].0@ != segment@);
            }
        }
        None
    }

    /// A pair with an equal segment is re-pointed in place; otherwise the
    /// pair is appended.
    fn insert(&mut self, segment: S, node_id: NodeId)
        ensures
            forall|i: int|
                0 <= i < old(self).entries().len() && #[trigger] old(self).entries()[i].0
                    == segment@ ==> final(self).entries() == old(self).entries().update(
                    i,
                    (segment@, node_id),
                ),
            (forall|i: int|
                0 <= i < old(self).entries().len() ==> #[trigger] old(self).entries()[i].0
                    != segment@) ==> final(self).entries() == old(self).entries().push(
                (segment@, node_id),
            ),
    {
        let mut i: usize = 0;
        while i < self.0.len()
            invariant
                i <= self.0@.len(),
                unique_keys(self.0@),
                self.0@ == old(self).0@,
                forall|j: int| 0 <= j < i ==> self.0@[j].0@ != segment@,
            decreases self.0@.len() - i,
        {
            if self.0[i].0.same(&segment) {
                let ghost v = self.0@;
                let ghost x = (segment, node_id);
                proof {
                    lemma_pairs_map_update(v, i as int, x);
                }
                self.0.set(i, (segment, node_id));
                proof {
                    assert(entries_of(self.0@) =~= entries_of(v).update(i as int, (x.0@, x.1)));
                    assert(entries_of(v)[i as int].0 == x.0@);
                    assert forall|j: int|
                        0 <= j < entries_of(v).len() && #[trigger] entries_of(v)[j].0
                            == x.0@ implies j == i by {
                        if j != i {
                            assert(v[j].0@ == v[i as int].0@);
                        }
                    }
                }
                return;
            }
            i = i + 1;
        }
        proof {
            lemma_pairs_map_absent(self.0@, segment@);
        }
        let ghost sv = segment@;
        self.0.push((segment, node_id));
        assert(self.0@.drop_last() =~= old(self).0@);
        assert(entries_of(self.0@) =~= entries_of(old(self).0@).push((sv, node_id)));
    }
}

} // verus!
