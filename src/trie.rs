use vstd::prelude::*;
use vstd::slice::slice_subrange;

use crate::edge::{
    is_prefix, lemma_common_prefix, lemma_common_prefix_is_prefix, views, Edge,
};
use crate::key::IntoEdge;
use crate::node::{NodeId, TrieNode};
use crate::radix::Radix;
use crate::retrieval::Retrieval;
use crate::segment::Segment;

verus! {

/// Is `a` a prefix of `b` and shorter than it?
pub open spec fn is_strict_prefix<T>(a: Seq<T>, b: Seq<T>) -> bool {
    a.len() < b.len() && b.take(a.len() as int) == a
}

/// What a reference held in an option points to.
pub open spec fn deref_opt<V>(o: Option<&V>) -> Option<V> {
    match o {
        Some(v) => Some(*v),
        None => None,
    }
}

/// A radix trie: an arena of nodes with the root at index 0, and the encoder
/// that turns keys into segments.
pub struct Trie<S: Segment, V, E: IntoEdge<S>, R: Radix<S>> {
    nodes: Vec<TrieNode<S, V, R>>,
    encoder: E,
    /// The full segment path from the root to each node.
    paths: Ghost<Seq<Seq<S::V>>>,
}

impl<S: Segment, V, E: IntoEdge<S>, R: Radix<S>> Trie<S, V, E, R> {
    /// The number of nodes in the arena.
    pub closed spec fn size(&self) -> nat {
        self.nodes@.len()
    }

    /// The segments that lead from the root to node `i`.
    pub closed spec fn path(&self, i: int) -> Seq<S::V> {
        self.paths@[i]
    }

    /// Node `i` of the arena.
    pub closed spec fn node_at(&self, i: int) -> TrieNode<S, V, R> {
        self.nodes@[i]
    }

    /// The segments stored in node `i` beyond its discriminator.
    pub closed spec fn edge_at(&self, i: int) -> Seq<S::V> {
        self.nodes@[i].edge@
    }

    /// The routing table of node `i`.
    pub closed spec fn routes_at(&self, i: int) -> Map<S::V, NodeId> {
        self.nodes@[i].radix.routes()
    }

    /// The value stored at node `i`.
    pub closed spec fn value_at(&self, i: int) -> Option<V> {
        self.nodes@[i].value
    }

    /// The segments that this trie's encoder makes of `key`.
    pub closed spec fn encode(&self, key: Seq<char>) -> Seq<S::V> {
        self.encoder.encode(key)
    }

    /// Some node lies at the end of the segment path `k`.
    pub open spec fn has_path(&self, k: Seq<S::V>) -> bool {
        exists|i: int| 0 <= i < self.size() && self.path(i) == k
    }

    /// The value stored for the segment path `k`.
    pub open spec fn lookup(&self, k: Seq<S::V>) -> Option<V> {
        if self.has_path(k) {
            self.value_at(choose|i: int| 0 <= i < self.size() && self.path(i) == k)
        } else {
            None
        }
    }

    /// The route of node `i` through segment `s` reaches a node whose path is
    /// that of `i`, then `s`, then the child's edge.
    pub open spec fn child_ok(&self, i: int, s: S::V) -> bool {
        let c = self.routes_at(i)[s].0 as int;
        &&& 0 < c < self.size()
        &&& self.path(c) == self.path(i).push(s) + self.edge_at(c)
    }

    /// Node `i` routes towards node `j`, whose path it strictly prefixes.
    pub open spec fn descends(&self, i: int, j: int) -> bool {
        let s = self.path(j)[self.path(i).len() as int];
        &&& self.routes_at(i).contains_key(s)
        &&& is_prefix(self.path(self.routes_at(i)[s].0 as int), self.path(j))
    }

    /// Some route leads to node `c`.
    pub open spec fn has_parent(&self, c: int) -> bool {
        exists|i: int, s: S::V|
            0 <= i < self.size() && #[trigger] self.routes_at(i).contains_key(s) && self.routes_at(
                i,
            )[s].0 == c
    }

    /// Node `i` routes through at least two segments.
    pub open spec fn branches(&self, i: int) -> bool {
        exists|s1: S::V, s2: S::V|
            s1 != s2 && #[trigger] self.routes_at(i).contains_key(s1)
                && #[trigger] self.routes_at(i).contains_key(s2)
    }

    /// The trie's well-formedness: the node links are right, every node but
    /// the root is reached by a route, and every node but the root that has
    /// no value branches.
    pub closed spec fn wf(&self) -> bool {
        &&& self.linked()
        &&& forall|c: int| 0 < c < self.size() ==> #[trigger] self.has_parent(c)
        &&& forall|i: int|
            0 < i < self.size() && #[trigger] self.value_at(i) == None::<V> ==> self.branches(i)
    }

    /// Paths, routes and edges agree, and paths are distinct.
    spec fn linked(&self) -> bool {
        let n = self.size();
        &&& self.paths@.len() == n
        &&& n >= 1
        &&& self.path(0) == Seq::<S::V>::empty()
        &&& self.edge_at(0) == Seq::<S::V>::empty()
        &&& forall|i: int| 0 <= i < n ==> #[trigger] self.nodes@[i].radix.inv()
        &&& forall|i: int, s: S::V|
            0 <= i < n && #[trigger] self.routes_at(i).contains_key(s) ==> self.child_ok(i, s)
        &&& forall|i: int, j: int|
            0 <= i < n && 0 <= j < n && is_strict_prefix(self.path(i), self.path(j))
                ==> #[trigger] self.descends(i, j)
        &&& forall|i: int, j: int|
            0 <= i < n && 0 <= j < n && i != j ==> #[trigger] self.path(i) != #[trigger] self.path(
                j,
            )
    }

    /// An empty trie: the root alone, without a value.
    pub fn new(encoder: E) -> (r: Self)
        ensures
            r.wf(),
            r.size() == 1,
            r.path(0) == Seq::<S::V>::empty(),
            r.edge_at(0) == Seq::<S::V>::empty(),
            r.routes_at(0) == Map::<S::V, NodeId>::empty(),
            r.value_at(0) == None::<V>,
            forall|key: Seq<char>| #[trigger] r.encode(key) == encoder.encode(key),
            forall|k: Seq<S::V>| #[trigger] r.lookup(k) == None::<V>,
    {
        let root = TrieNode::new(Edge::empty(), None);
        let mut nodes = Vec::new();
        nodes.push(root);
        let ghost paths = seq![Seq::<S::V>::empty()];
        let r = Trie { nodes, encoder, paths: Ghost(paths) };
        assert forall|i: int, s: S::V|
            0 <= i < r.size() && #[trigger] r.routes_at(i).contains_key(s) implies r.child_ok(
            i,
            s,
        ) by {}
        r
    }

    /// The number of nodes in the arena.
    pub fn node_count(&self) -> (r: usize)
        ensures
            r == self.size(),
    {
        self.nodes.len()
    }

    /// The encoder that turns keys into segments.
    pub fn encoder(&self) -> (r: &E)
        ensures
            forall|key: Seq<char>| #[trigger] r.encode(key) == self.encode(key),
    {
        &self.encoder
    }

    /// The node with the given id.
    pub fn get_node(&self, node_id: NodeId) -> (r: &TrieNode<S, V, R>)
        requires
            node_id.0 < self.size(),
        ensures
            *r == self.node_at(node_id.0 as int),
            self.wf() ==> r.radix.inv(),
    {
        &self.nodes[node_id.0]
    }

    /// Walks from the root along `key_edge` and says where the key stands.
    ///
    /// With `exact_only`, a key that has no node of its own may be reported
    /// as `Prefix` at any node on the way.
    pub fn retrieve(&self, key_edge: &Edge<S>, exact_only: bool) -> (r: Retrieval)
        requires
            self.wf(),
        ensures
            r is Exact <==> self.has_path(key_edge@),
            r matches Retrieval::Exact(n) ==> n.0 < self.size() && self.path(n.0 as int)
                == key_edge@,
            r matches Retrieval::Prefix { ancestor_id, .. } ==> ancestor_id.0 < self.size(),
            exact_only ==> r is Exact || r is Prefix,
            !exact_only ==> self.retrieved(key_edge@, r),
            !exact_only ==> r == self.position(key_edge@),
    {
        let ghost k = key_edge@;
        let keys = key_edge.as_slice();
        let mut current: NodeId = NodeId(0);
        let mut depth: usize = 0;
        assert(k.take(0) =~= Seq::<S::V>::empty());
        loop
            invariant
                self.wf(),
                k == key_edge@,
                views(keys@) == k,
                keys@.len() == k.len(),
                current.0 < self.size(),
                depth == self.path(current.0 as int).len(),
                is_prefix(self.path(current.0 as int), k),
            decreases k.len() - depth,
        {
            let ghost a = current.0 as int;
            if depth == keys.len() {
                assert(self.path(a) =~= k);
                assert(self.has_path(k));
                proof {
                    self.lemma_position(k, Retrieval::Exact(current));
                }
                return Retrieval::Exact(current);
            }
            assert(views(keys@)[depth as int] == keys@[depth as int]@);
            let node = self.get_node(current);
            let desc_id = match node.route(&keys[depth]) {
                Some(id) => id,
                None => {
                    proof {
                        assert(keys@[depth as int]@ == k[depth as int]);
                        assert(!self.routes_at(a).contains_key(k[depth as int]));
                        self.lemma_no_node_past(a, k);
                        self.lemma_position(k, Retrieval::Prefix { ancestor_id: current, depth });
                    }
                    return Retrieval::Prefix { ancestor_id: current, depth };
                },
            };
            let ghost c = desc_id.0 as int;
            assert(self.child_ok(a, k[depth as int]));
            let rest = slice_subrange(keys, depth + 1, keys.len());
            proof {
                assert(views(rest@) =~= k.skip(depth + 1));
            }
            let desc = self.get_node(desc_id);
            let common = desc.edge.common_prefix_len(rest);
            proof {
                lemma_common_prefix(self.edge_at(c), k.skip(depth + 1));
                lemma_common_prefix_is_prefix(self.edge_at(c), k.skip(depth + 1));
                self.lemma_step(a, k);
            }
            if common == desc.edge.len() {
                current = desc_id;
                depth = depth + 1 + common;
            } else {
                proof {
                    self.lemma_no_node_past(a, k);
                }
                if exact_only {
                    return Retrieval::Prefix { ancestor_id: current, depth };
                } else if common == rest.len() {
                    proof {
                        let e = self.edge_at(c);
                        let rr = k.skip(depth + 1);
                        assert(e.take(common as int) == rr.take(common as int));
                        assert forall|t: int| 0 <= t < k.len() implies k[t] == self.path(c)[t] by {
                            if t > depth {
                                assert(e.take(common as int)[t - depth - 1] == rr.take(
                                    common as int,
                                )[t - depth - 1]);
                            }
                        }
                        assert(self.path(c).take(k.len() as int) =~= k);
                        self.lemma_position(k, Retrieval::Split { ancestor_id: current, desc_id, depth });
                    }
                    return Retrieval::Split { ancestor_id: current, desc_id, depth };
                } else {
                    proof {
                        let l = common + 1;
                        let e = self.edge_at(c);
                        let rr = k.skip(depth + 1);
                        assert(k.take(depth + l) =~= self.path(c).take(depth + l)) by {
                            assert(e.take(common as int) == rr.take(common as int));
                            assert forall|t: int| depth < t < depth + l implies k[t]
                                == self.path(c)[t] by {
                                assert(e.take(common as int)[t - depth - 1] == rr.take(
                                    common as int,
                                )[t - depth - 1]);
                            }
                        }
                        assert(k[depth + l] == rr[common as int]);
                        assert(self.path(c)[depth + l] == e[common as int]);
                        self.lemma_position(
                            k,
                            Retrieval::Divergence {
                                ancestor_id: current,
                                sibling_id: desc_id,
                                depth,
                                common_len: (common + 1) as usize,
                            },
                        );
                    }
                    return Retrieval::Divergence {
                        ancestor_id: current,
                        sibling_id: desc_id,
                        depth,
                        common_len: common + 1,
                    };
                }
            }
        }
    }

    /// The value stored for `key`, if any.
    pub fn get(&self, key: &str) -> (r: Option<&V>)
        requires
            self.wf(),
        ensures
            deref_opt(r) == self.value_for(key@),
    {
        let key_edge = self.encoder.segment(key);
        match self.retrieve(&key_edge, true) {
            Retrieval::Exact(node_id) => {
                proof {
                    self.lemma_lookup_at(node_id.0 as int);
                }
                self.get_node(node_id).value.as_ref()
            },
            _ => None,
        }
    }

    /// The value of the node that lies at a path is what a lookup gives.
    proof fn lemma_lookup_at(&self, i: int)
        requires
            self.linked(),
            0 <= i < self.size(),
        ensures
            self.lookup(self.path(i)) == self.value_at(i),
    {
        let k = self.path(i);
        assert(self.has_path(k));
        let j = choose|j: int| 0 <= j < self.size() && self.path(j) == k;
        assert(i == j);
    }

    /// Appends a node to the arena, at the given path.
    fn insert_node(&mut self, node: TrieNode<S, V, R>, path: Ghost<Seq<S::V>>) -> (r: NodeId)
        ensures
            r.0 == old(self).size(),
            final(self).nodes@ == old(self).nodes@.push(node),
            final(self).paths@ == old(self).paths@.push(path@),
            final(self).encoder == old(self).encoder,
    {
        let node_id = NodeId(self.nodes.len());
        self.nodes.push(node);
        self.paths = Ghost(self.paths@.push(path@));
        node_id
    }

    /// Node `id` and the rest of the trie are the same but for the node's
    /// value, edge and routes, as `other`.
    spec fn same_but(&self, other: &Self, id: int) -> bool {
        &&& self.nodes@.len() == other.nodes@.len()
        &&& self.paths@ == other.paths@
        &&& self.encoder == other.encoder
        &&& forall|j: int| 0 <= j < self.nodes@.len() && j != id ==> self.nodes@[j] == other.nodes@[j]
    }

    fn set_value(&mut self, id: NodeId, value: V)
        requires
            id.0 < old(self).size(),
        ensures
            final(self).same_but(old(self), id.0 as int),
            final(self).value_at(id.0 as int) == Some(value),
            final(self).edge_at(id.0 as int) == old(self).edge_at(id.0 as int),
            final(self).nodes@[id.0 as int].radix == old(self).nodes@[id.0 as int].radix,
    {
        self.nodes[id.0].value = Some(value);
    }

    fn add_route(&mut self, id: NodeId, segment: S, child: NodeId)
        requires
            id.0 < old(self).size(),
            old(self).nodes@[id.0 as int].radix.inv(),
        ensures
            final(self).same_but(old(self), id.0 as int),
            final(self).value_at(id.0 as int) == old(self).value_at(id.0 as int),
            final(self).edge_at(id.0 as int) == old(self).edge_at(id.0 as int),
            final(self).routes_at(id.0 as int) == old(self).routes_at(id.0 as int).insert(
                segment@,
                child,
            ),
            final(self).nodes@[id.0 as int].radix.inv(),
    {
        self.nodes[id.0].insert_edge(segment, child);
    }

    /// Drops the first `n` segments of node `id`'s edge and takes the next
    /// one out, to route to the node by.
    fn cut_edge(&mut self, id: NodeId, n: usize) -> (r: S)
        requires
            id.0 < old(self).size(),
            n < old(self).edge_at(id.0 as int).len(),
        ensures
            final(self).same_but(old(self), id.0 as int),
            final(self).value_at(id.0 as int) == old(self).value_at(id.0 as int),
            final(self).edge_at(id.0 as int) == old(self).edge_at(id.0 as int).skip(n + 1),
            final(self).nodes@[id.0 as int].radix == old(self).nodes@[id.0 as int].radix,
            r@ == old(self).edge_at(id.0 as int)[n as int],
    {
        let ghost e = self.edge_at(id.0 as int);
        self.nodes[id.0].edge.remove_prefix(n);
        let first = self.nodes[id.0].edge.remove_prefix(1);
        assert(e.skip(n as int).skip(1) =~= e.skip(n + 1));
        first.take_first()
    }

    /// Stores `value` under `key`, replacing the value stored there before.
    pub fn insert(&mut self, key: &str, value: V)
        requires
            old(self).wf(),
        ensures
            Self::inserted(*old(self), *final(self), key@, value),
            Self::reshaped(*old(self), *final(self), key@, value),
    {
        let mut key_edge = self.encoder.segment(key);
        let ghost k = key_edge@;
        let ghost t0 = *self;
        let position = self.retrieve(&key_edge, false);
        match position {
            Retrieval::Exact(node_id) => {
                self.set_value(node_id, value);
                proof {
                    let t1 = *self;
                    assert forall|i: int| 0 <= i < t0.size() && i != node_id.0 implies t1.nodes@[i]
                        == t0.nodes@[i] by {}
                    assert forall|i: int| 0 <= i < t0.size() && t0.path(i) == k implies i
                        == node_id.0 by {
                        if i != node_id.0 {
                            assert(t0.path(i) != t0.path(node_id.0 as int));
                        }
                    }
                    Self::lemma_wf_same_shape(t0, *self, node_id.0 as int);
                    Self::lemma_lookup_set(t0, *self, node_id.0 as int);
                    let a = node_id.0 as int;
                    assert forall|i: int, x: S::V|
                        0 <= i < t0.size() && #[trigger] t0.routes_at(i).contains_key(x) implies t1.routes_at(
                        i,
                    ).contains_key(x) && t1.routes_at(i)[x] == t0.routes_at(i)[x] by {
                        if i != a {
                            assert(t1.nodes@[i] == t0.nodes@[i]);
                        }
                    }
                    if t0.routes_at(a).contains_key(k[0]) {
                        let c = t0.routes_at(a)[k[0]].0 as int;
                        assert(t1.routes_at(a).contains_key(k[0]) && t1.routes_at(a)[k[0]].0 == c);
                        assert(t1.has_parent(c));
                    }
                    Self::lemma_wf_reach(t0, t1, a, k[0]);
                }
            },
            Retrieval::Prefix { ancestor_id, depth } => {
                key_edge.remove_prefix(depth);
                let route_segment = key_edge.remove_prefix(1).take_first();
                assert(k.skip(depth as int).skip(1) =~= k.skip(depth + 1));
                let leaf = TrieNode::new(key_edge, Some(value));
                let leaf_id = self.insert_node(leaf, Ghost(k));
                self.add_route(ancestor_id, route_segment, leaf_id);
                proof {
                    assert(t0.path(ancestor_id.0 as int).push(k[depth as int]) + k.skip(depth + 1)
                        =~= k);
                    let t1 = *self;
                    assert(t1.nodes@[t0.size() as int] == leaf);
                    Self::lemma_wf_prefix(t0, t1, k, ancestor_id.0 as int, leaf_id);
                    assert(t1.path(t0.size() as int) == k);
                    Self::lemma_lookup_grow(t0, t1, k, value);
                    let a = ancestor_id.0 as int;
                    let n = t0.size() as int;
                    let sd = k[depth as int];
                    assert forall|i: int, x: S::V|
                        0 <= i < t0.size() && #[trigger] t0.routes_at(i).contains_key(x) implies t1.routes_at(
                        i,
                    ).contains_key(x) && (i == a && x == sd || t1.routes_at(i)[x] == t0.routes_at(
                        i,
                    )[x]) by {
                        if i != a {
                            assert(t1.nodes@[i] == t0.nodes@[i]);
                        }
                    }
                    assert forall|i: int|
                        0 <= i < t0.size() && #[trigger] t1.value_at(i) == None::<V> implies t0.value_at(i)
                        == None::<V> by {
                        if i != a {
                            assert(t1.nodes@[i] == t0.nodes@[i]);
                        }
                    }
                    assert(t1.routes_at(a).contains_key(sd) && t1.routes_at(a)[sd].0 == n);
                    assert(t1.has_parent(n));
                    Self::lemma_wf_reach(t0, t1, a, sd);
                }
            },
            Retrieval::Split { ancestor_id, desc_id, depth } => {
                key_edge.remove_prefix(depth);
                let leaf_route_segment = key_edge.remove_prefix(1).take_first();
                assert(k.skip(depth as int).skip(1) =~= k.skip(depth + 1));
                // The leaf takes over the segments it shares with the
                // descendant's edge; the next one routes from the leaf down.
                let shared = key_edge.len();
                let mut leaf = TrieNode::new(key_edge, Some(value));
                proof {
                    assert(t0.child_ok(ancestor_id.0 as int, k[depth as int]));
                }
                let desc_route_segment = self.cut_edge(desc_id, shared);
                leaf.insert_edge(desc_route_segment, desc_id);
                let leaf_id = self.insert_node(leaf, Ghost(k));
                self.add_route(ancestor_id, leaf_route_segment, leaf_id);
                proof {
                    let t1 = *self;
                    let a = ancestor_id.0 as int;
                    assert(t1.nodes@[t0.size() as int] == leaf);
                    assert(t0.path(a).push(k[depth as int]) + k.skip(depth + 1) =~= k);
                    assert(leaf.radix.routes() =~= map![
                        t0.edge_at(desc_id.0 as int)[k.len() - depth - 1] => desc_id
                    ]);
                    Self::lemma_wf_split(t0, t1, k, a, desc_id, leaf_id);
                    assert(t1.path(t0.size() as int) == k);
                    Self::lemma_lookup_grow(t0, t1, k, value);
                    let n = t0.size() as int;
                    let c = desc_id.0 as int;
                    let sd = k[depth as int];
                    let em = t0.edge_at(c)[k.len() - depth - 1];
                    assert forall|i: int, x: S::V|
                        0 <= i < t0.size() && #[trigger] t0.routes_at(i).contains_key(x) implies t1.routes_at(
                        i,
                    ).contains_key(x) && (i == a && x == sd || t1.routes_at(i)[x] == t0.routes_at(
                        i,
                    )[x]) by {
                        if i != a && i != c {
                            assert(t1.nodes@[i] == t0.nodes@[i]);
                        }
                    }
                    assert forall|i: int|
                        0 <= i < t0.size() && #[trigger] t1.value_at(i) == None::<V> implies t0.value_at(i)
                        == None::<V> by {
                        if i != a && i != c {
                            assert(t1.nodes@[i] == t0.nodes@[i]);
                        }
                    }
                    assert(t1.routes_at(a).contains_key(sd) && t1.routes_at(a)[sd].0 == n);
                    assert(t1.has_parent(n));
                    assert(t1.routes_at(n).contains_key(em) && t1.routes_at(n)[em].0 == c);
                    assert(t1.has_parent(c));
                    Self::lemma_wf_reach(t0, t1, a, sd);
                }
            },
            Retrieval::Divergence { ancestor_id, sibling_id, depth, common_len } => {
                key_edge.remove_prefix(depth);
                let mut branch_edge = key_edge.remove_prefix(common_len);
                let branch_route_segment = branch_edge.remove_prefix(1).take_first();
                let branch_path = Ghost(k.take(depth + common_len));
                let mut branch = TrieNode::new(branch_edge, None);
                proof {
                    assert(t0.child_ok(ancestor_id.0 as int, k[depth as int]));
                }
                // The branch holds the shared segments; the sibling keeps
                // what follows them, less its new discriminator.
                let sibling_route_segment = self.cut_edge(sibling_id, common_len - 1);
                let leaf_route_segment = key_edge.remove_prefix(1).take_first();
                let leaf = TrieNode::new(key_edge, Some(value));
                branch.insert_edge(sibling_route_segment, sibling_id);
                let leaf_id = self.insert_node(leaf, Ghost(k));
                branch.insert_edge(leaf_route_segment, leaf_id);
                let branch_id = self.insert_node(branch, branch_path);
                self.add_route(ancestor_id, branch_route_segment, branch_id);
                proof {
                    let t1 = *self;
                    let n = t0.size() as int;
                    let d = depth as int;
                    let l = common_len as int;
                    assert(t1.nodes@[n] == leaf);
                    assert(t1.nodes@[n + 1] == branch);
                    assert(k.skip(d).skip(l) =~= k.skip(d + l));
                    assert(k.skip(d + l).skip(1) =~= k.skip(d + l + 1));
                    assert(k.skip(d).take(l).skip(1) =~= k.subrange(d + 1, d + l));
                    assert(t0.edge_at(sibling_id.0 as int).skip(l - 1).skip(1) =~= t0.edge_at(
                        sibling_id.0 as int,
                    ).skip(l));
                    assert(branch.radix.routes() =~= map![
                        t0.edge_at(sibling_id.0 as int)[l - 1] => sibling_id,
                        k[d + l] => leaf_id
                    ]);
                    Self::lemma_wf_branch(
                        t0,
                        t1,
                        k,
                        ancestor_id,
                        sibling_id,
                        depth,
                        common_len,
                        leaf_id,
                        branch_id,
                    );
                    assert(t1.path(n) == k);
                    assert(t1.path(n + 1) != k);
                    Self::lemma_lookup_grow(t0, t1, k, value);
                    let a = ancestor_id.0 as int;
                    let c = sibling_id.0 as int;
                    let sd = k[d];
                    let el = t0.edge_at(c)[l - 1];
                    let kl = k[d + l];
                    assert forall|i: int, x: S::V|
                        0 <= i < t0.size() && #[trigger] t0.routes_at(i).contains_key(x) implies t1.routes_at(
                        i,
                    ).contains_key(x) && (i == a && x == sd || t1.routes_at(i)[x] == t0.routes_at(
                        i,
                    )[x]) by {
                        if i != a && i != c {
                            assert(t1.nodes@[i] == t0.nodes@[i]);
                        }
                    }
                    assert forall|i: int|
                        0 <= i < t0.size() && #[trigger] t1.value_at(i) == None::<V> implies t0.value_at(i)
                        == None::<V> by {
                        if i != a && i != c {
                            assert(t1.nodes@[i] == t0.nodes@[i]);
                        }
                    }
                    assert(t1.routes_at(a).contains_key(sd) && t1.routes_at(a)[sd].0 == n + 1);
                    assert(t1.has_parent(n + 1));
                    assert(t1.routes_at(n + 1).contains_key(kl) && t1.routes_at(n + 1)[kl].0 == n);
                    assert(t1.has_parent(n));
                    assert(t1.routes_at(n + 1).contains_key(el) && t1.routes_at(n + 1)[el].0 == c);
                    assert(t1.has_parent(c));
                    assert(el != kl);
                    assert(t1.branches(n + 1));
                    Self::lemma_wf_reach(t0, t1, a, sd);
                }
            },
        }
    }

    /// What `insert(key, value)` makes of `t0`: a well-formed trie with the
    /// same encoder that stores `value` under `key` and agrees with `t0` on
    /// every other segment path; it grows only for a key without a node.
    pub open spec fn inserted(t0: Self, t1: Self, key: Seq<char>, value: V) -> bool {
        let k = t0.encode(key);
        &&& t1.wf()
        &&& forall|q: Seq<char>| #[trigger] t1.encode(q) == t0.encode(q)
        &&& t1.lookup(k) == Some(value)
        &&& forall|p: Seq<S::V>| p != k ==> #[trigger] t1.lookup(p) == t0.lookup(p)
        &&& t0.has_path(k) ==> t1.size() == t0.size()
        &&& !t0.has_path(k) ==> t0.size() < t1.size() <= t0.size() + 2
    }

    /// The number of nodes that an insertion at position `r` adds.
    pub open spec fn growth(r: Retrieval) -> nat {
        match r {
            Retrieval::Exact(_) => 0,
            Retrieval::Prefix { .. } => 1,
            Retrieval::Split { .. } => 1,
            Retrieval::Divergence { .. } => 2,
        }
    }

    /// How `insert(key, value)` changes the nodes of `t0`. Old nodes keep
    /// their paths; the node at the key's path, if any, takes the value, and
    /// no other old value changes. By the key's position:
    /// - `Exact`: no edge or route changes;
    /// - `Prefix`: a leaf for the rest of the key is appended and the
    ///   ancestor routes the key's next segment to it;
    /// - `Split`: a leaf for the rest of the key is appended between the
    ///   ancestor and the descendant, which keeps what follows the key less
    ///   its new discriminator;
    /// - `Divergence`: a leaf, then a branch without a value for the shared
    ///   segments, are appended; the branch routes to the sibling and to the
    ///   leaf, and the ancestor routes to the branch.
    /// Only the ancestor's entry for the key's next segment is added or
    /// re-pointed among old routes.
    pub open spec fn reshaped(t0: Self, t1: Self, key: Seq<char>, value: V) -> bool {
        let k = t0.encode(key);
        let n = t0.size() as int;
        let r = t0.position(k);
        &&& t0.retrieved(k, r)
        &&& t1.size() == t0.size() + Self::growth(r)
        &&& forall|i: int| 0 <= i < n ==> #[trigger] t1.path(i) == t0.path(i)
        &&& forall|i: int|
            0 <= i < n ==> #[trigger] t1.value_at(i) == (if t0.path(i) == k {
                Some(value)
            } else {
                t0.value_at(i)
            })
        &&& match r {
            Retrieval::Exact(_) => {
                &&& forall|i: int| 0 <= i < n ==> #[trigger] t1.edge_at(i) == t0.edge_at(i)
                &&& forall|i: int| 0 <= i < n ==> #[trigger] t1.routes_at(i) == t0.routes_at(i)
            },
            Retrieval::Prefix { ancestor_id: a, depth: d } => {
                let s = k[d as int];
                &&& forall|i: int| 0 <= i < n ==> #[trigger] t1.edge_at(i) == t0.edge_at(i)
                &&& forall|i: int|
                    0 <= i < n && i != a.0 ==> #[trigger] t1.routes_at(i) == t0.routes_at(i)
                &&& t1.routes_at(a.0 as int) == t0.routes_at(a.0 as int).insert(
                    s,
                    t1.routes_at(a.0 as int)[s],
                )
                &&& t1.routes_at(a.0 as int)[s].0 == n
                &&& t1.path(n) == k
                &&& t1.edge_at(n) == k.skip(d + 1)
                &&& t1.value_at(n) == Some(value)
                &&& t1.routes_at(n) == Map::<S::V, NodeId>::empty()
            },
            Retrieval::Split { ancestor_id: a, desc_id: c, depth: d } => {
                let s = k[d as int];
                let e = t0.edge_at(c.0 as int);
                &&& forall|i: int|
                    0 <= i < n && i != c.0 ==> #[trigger] t1.edge_at(i) == t0.edge_at(i)
                &&& t1.edge_at(c.0 as int) == e.skip(k.len() - d)
                &&& forall|i: int|
                    0 <= i < n && i != a.0 ==> #[trigger] t1.routes_at(i) == t0.routes_at(i)
                &&& t1.routes_at(a.0 as int) == t0.routes_at(a.0 as int).insert(
                    s,
                    t1.routes_at(a.0 as int)[s],
                )
                &&& t1.routes_at(a.0 as int)[s].0 == n
                &&& t1.path(n) == k
                &&& t1.edge_at(n) == k.skip(d + 1)
                &&& t1.value_at(n) == Some(value)
                &&& t1.routes_at(n) == map![e[k.len() - d - 1] => c]
            },
            Retrieval::Divergence { ancestor_id: a, sibling_id: c, depth: d, common_len: l } => {
                let s = k[d as int];
                let e = t0.edge_at(c.0 as int);
                &&& forall|i: int|
                    0 <= i < n && i != c.0 ==> #[trigger] t1.edge_at(i) == t0.edge_at(i)
                &&& t1.edge_at(c.0 as int) == e.skip(l as int)
                &&& forall|i: int|
                    0 <= i < n && i != a.0 ==> #[trigger] t1.routes_at(i) == t0.routes_at(i)
                &&& t1.routes_at(a.0 as int) == t0.routes_at(a.0 as int).insert(
                    s,
                    t1.routes_at(a.0 as int)[s],
                )
                &&& t1.routes_at(a.0 as int)[s].0 == n + 1
                &&& t1.path(n) == k
                &&& t1.edge_at(n) == k.skip(d + l + 1)
                &&& t1.value_at(n) == Some(value)
                &&& t1.routes_at(n) == Map::<S::V, NodeId>::empty()
                &&& t1.path(n + 1) == k.take(d + l)
                &&& t1.edge_at(n + 1) == k.subrange(d + 1, d + l)
                &&& t1.value_at(n + 1) == None::<V>
                &&& t1.routes_at(n + 1) == map![
                    e[l - 1] => c,
                    k[d + l] => t1.routes_at(n + 1)[k[d + l]]
                ]
                &&& t1.routes_at(n + 1)[k[d + l]].0 == n
                &&& e[l - 1] != k[d + l]
            },
        }
    }

    /// The value that `get(key)` gives.
    pub open spec fn value_for(&self, key: Seq<char>) -> Option<V> {
        self.lookup(self.encode(key))
    }

    /// Round trip: after `insert(key, value)`, `get(key)` gives `value`.
    pub proof fn lemma_get_after_insert(t0: Self, t1: Self, key: Seq<char>, value: V)
        requires
            t0.wf(),
            Self::inserted(t0, t1, key, value),
        ensures
            t1.value_for(key) == Some(value),
    {
    }

    /// Inserting the same key twice: the second value wins, and the second
    /// insertion neither grows the arena nor changes any edge or route.
    pub proof fn lemma_upsert(
        t0: Self,
        t1: Self,
        t2: Self,
        key: Seq<char>,
        v1: V,
        v2: V,
    )
        requires
            t0.wf(),
            Self::inserted(t0, t1, key, v1),
            Self::inserted(t1, t2, key, v2),
            Self::reshaped(t1, t2, key, v2),
        ensures
            t2.value_for(key) == Some(v2),
            t2.size() == t1.size(),
            forall|i: int|
                0 <= i < t1.size() ==> #[trigger] t2.edge_at(i) == t1.edge_at(i)
                    && t2.routes_at(i) == t1.routes_at(i),
    {
        let k = t1.encode(key);
        assert(t1.encode(key) == t0.encode(key));
        assert(t1.has_path(k));
        if !(t1.position(k) is Exact) {
            t1.lemma_stuck(k, t1.position(k));
        }
    }

    /// Two keys with different segments, inserted one after the other in
    /// either order, can both be read back.
    pub proof fn lemma_independent_keys(
        t0: Self,
        t1: Self,
        t2: Self,
        key1: Seq<char>,
        key2: Seq<char>,
        v1: V,
        v2: V,
    )
        requires
            t0.wf(),
            t0.encode(key1) != t0.encode(key2),
            Self::inserted(t0, t1, key1, v1),
            Self::inserted(t1, t2, key2, v2),
        ensures
            t2.value_for(key1) == Some(v1),
            t2.value_for(key2) == Some(v2),
    {
        assert(t1.encode(key2) == t0.encode(key2));
        assert(t2.encode(key1) == t0.encode(key1));
        assert(t2.lookup(t1.encode(key1)) == t1.lookup(t1.encode(key1)));
    }

    /// A key whose segments were never inserted stays absent: insertions of
    /// other keys do not make it appear.
    pub proof fn lemma_miss(t0: Self, t1: Self, key: Seq<char>, value: V, other: Seq<char>)
        requires
            t0.wf(),
            t0.value_for(other) == None::<V>,
            t0.encode(other) != t0.encode(key),
            Self::inserted(t0, t1, key, value),
        ensures
            t1.value_for(other) == None::<V>,
    {
        assert(t1.encode(other) == t0.encode(other));
    }

    /// The shape of a well-formed trie: the root has an empty edge and the
    /// empty path; every route leads to a non-root node whose path is the
    /// parent's, then the discriminator, then the child's own edge, so that
    /// each step adds at least one segment; distinct discriminators of a
    /// node lead to distinct children; every node but the root is reached
    /// from exactly one parent; every node but the root that holds no value
    /// branches into at least two routes; and no two nodes share a path.
    pub proof fn lemma_shape(t: Self)
        requires
            t.wf(),
        ensures
            t.size() >= 1,
            t.path(0) == Seq::<S::V>::empty(),
            t.edge_at(0) == Seq::<S::V>::empty(),
            forall|i: int, s: S::V|
                0 <= i < t.size() && #[trigger] t.routes_at(i).contains_key(s) ==> {
                    let c = t.routes_at(i)[s].0 as int;
                    &&& 0 < c < t.size()
                    &&& t.path(c) == t.path(i).push(s) + t.edge_at(c)
                    &&& t.path(c).len() > t.path(i).len()
                },
            forall|i: int, s1: S::V, j: int, s2: S::V|
                0 <= i < t.size() && 0 <= j < t.size() && #[trigger] t.routes_at(i).contains_key(
                    s1,
                ) && #[trigger] t.routes_at(j).contains_key(s2) && t.routes_at(i)[s1]
                    == t.routes_at(j)[s2] ==> i == j && s1 == s2,
            forall|i: int, j: int|
                0 <= i < t.size() && 0 <= j < t.size() && i != j ==> #[trigger] t.path(i)
                    != #[trigger] t.path(j),
            forall|c: int| 0 < c < t.size() ==> #[trigger] t.has_parent(c),
            forall|i: int|
                0 < i < t.size() && #[trigger] t.value_at(i) == None::<V> ==> t.branches(i),
            forall|i: int| 0 <= i < t.size() ==> #[trigger] t.node_at(i).radix.inv(),
    {
        assert forall|i: int, s: S::V|
            0 <= i < t.size() && #[trigger] t.routes_at(i).contains_key(s) implies {
            let c = t.routes_at(i)[s].0 as int;
            &&& 0 < c < t.size()
            &&& t.path(c) == t.path(i).push(s) + t.edge_at(c)
            &&& t.path(c).len() > t.path(i).len()
        } by {
            assert(t.child_ok(i, s));
        }
        assert forall|i: int, s1: S::V, j: int, s2: S::V|
            0 <= i < t.size() && 0 <= j < t.size() && #[trigger] t.routes_at(i).contains_key(s1)
                && #[trigger] t.routes_at(j).contains_key(s2) && t.routes_at(i)[s1]
                == t.routes_at(j)[s2] implies i == j && s1 == s2 by {
            t.lemma_unique_parent(i, s1, j, s2);
        }
    }

    /// An insertion that keeps old routes, but perhaps the route of `a`
    /// through `s`, whose old target gets another parent, that clears no
    /// value, and whose new nodes have parents and branch where they have no
    /// value, keeps every node reachable and every valueless node branching.
    proof fn lemma_wf_reach(t0: Self, t1: Self, a: int, s: S::V)
        requires
            t0.wf(),
            t1.linked(),
            t0.size() <= t1.size(),
            0 <= a < t0.size(),
            forall|i: int, x: S::V|
                0 <= i < t0.size() && #[trigger] t0.routes_at(i).contains_key(x) ==> t1.routes_at(
                    i,
                ).contains_key(x) && (i == a && x == s || t1.routes_at(i)[x] == t0.routes_at(
                    i,
                )[x]),
            forall|i: int|
                0 <= i < t0.size() && #[trigger] t1.value_at(i) == None::<V> ==> t0.value_at(i)
                    == None::<V>,
            t0.routes_at(a).contains_key(s) ==> t1.has_parent(t0.routes_at(a)[s].0 as int),
            forall|j: int|
                t0.size() <= j < t1.size() ==> #[trigger] t1.has_parent(j) && (t1.value_at(j)
                    == None::<V> ==> t1.branches(j)),
        ensures
            t1.wf(),
    {
        let n0 = t0.size() as int;
        assert forall|c: int| 0 < c < t1.size() implies #[trigger] t1.has_parent(c) by {
            if c < n0 {
                assert(t0.has_parent(c));
                let (i, x) = choose|i: int, x: S::V|
                    0 <= i < t0.size() && #[trigger] t0.routes_at(i).contains_key(x)
                        && t0.routes_at(i)[x].0 == c;
                if !(i == a && x == s) {
                    assert(t1.routes_at(i).contains_key(x));
                }
            } else {
                assert(t1.has_parent(c));
            }
        }
        assert forall|i: int|
            0 < i < t1.size() && #[trigger] t1.value_at(i) == None::<V> implies t1.branches(i) by {
            if i < n0 {
                assert(t0.branches(i));
                let (s1, s2) = choose|s1: S::V, s2: S::V|
                    s1 != s2 && #[trigger] t0.routes_at(i).contains_key(s1)
                        && #[trigger] t0.routes_at(i).contains_key(s2);
                assert(t1.routes_at(i).contains_key(s1));
                assert(t1.routes_at(i).contains_key(s2));
            } else {
                assert(t1.has_parent(i));
            }
        }
    }

    /// Setting the value of one node keeps the trie well formed.
    proof fn lemma_wf_same_shape(t0: Self, t1: Self, id: int)
        requires
            t0.wf(),
            0 <= id < t0.size(),
            t1.same_but(&t0, id),
            t1.edge_at(id) == t0.edge_at(id),
            t1.nodes@[id].radix == t0.nodes@[id].radix,
        ensures
            t1.linked(),
    {
        assert forall|i: int| 0 <= i < t1.size() implies t1.routes_at(i) == t0.routes_at(i)
            && t1.edge_at(i) == t0.edge_at(i) && #[trigger] t1.nodes@[i].radix.inv() by {
            if i != id {
                assert(t1.nodes@[i] == t0.nodes@[i]);
            }
        }
        assert forall|i: int, s: S::V|
            0 <= i < t1.size() && #[trigger] t1.routes_at(i).contains_key(s) implies t1.child_ok(
            i,
            s,
        ) by {
            assert(t0.child_ok(i, s));
        }
        assert forall|i: int, j: int|
            0 <= i < t1.size() && 0 <= j < t1.size() && is_strict_prefix(
                t1.path(i),
                t1.path(j),
            ) implies #[trigger] t1.descends(i, j) by {
            assert(t0.descends(i, j));
        }
        assert forall|i: int, j: int|
            0 <= i < t1.size() && 0 <= j < t1.size() && i != j implies #[trigger] t1.path(i)
            != #[trigger] t1.path(j) by {
            assert(t0.path(i) != t0.path(j));
        }
    }

    /// After a value is set at node `id`, lookups give it there and give
    /// what they gave before elsewhere.
    proof fn lemma_lookup_set(t0: Self, t1: Self, id: int)
        requires
            t0.wf(),
            t1.linked(),
            0 <= id < t0.size(),
            t1.same_but(&t0, id),
        ensures
            t1.lookup(t0.path(id)) == t1.value_at(id),
            forall|k: Seq<S::V>| k != t0.path(id) ==> #[trigger] t1.lookup(k) == t0.lookup(k),
    {
        t1.lemma_lookup_at(id);
        assert forall|k: Seq<S::V>| k != t0.path(id) implies #[trigger] t1.lookup(k)
            == t0.lookup(k) by {
            if t0.has_path(k) {
                let j = choose|j: int| 0 <= j < t0.size() && t0.path(j) == k;
                t0.lemma_lookup_at(j);
                t1.lemma_lookup_at(j);
                assert(t1.nodes@[j] == t0.nodes@[j]);
            } else if t1.has_path(k) {
                let j = choose|j: int| 0 <= j < t1.size() && t1.path(j) == k;
                assert(t0.path(j) == k);
            }
        }
    }

    /// After nodes are appended, none at an old path, and a value is stored
    /// at the new path `k` alone, lookups change at `k` alone.
    proof fn lemma_lookup_grow(t0: Self, t1: Self, k: Seq<S::V>, v: V)
        requires
            t0.wf(),
            t1.linked(),
            t0.size() <= t1.size(),
            !t0.has_path(k),
            t1.has_path(k),
            forall|i: int|
                0 <= i < t0.size() ==> #[trigger] t1.path(i) == t0.path(i) && t1.value_at(i)
                    == t0.value_at(i),
            forall|i: int|
                t0.size() <= i < t1.size() ==> #[trigger] t1.value_at(i) == (if t1.path(i) == k {
                    Some(v)
                } else {
                    None
                }),
        ensures
            t1.lookup(k) == Some(v),
            forall|q: Seq<S::V>| q != k ==> #[trigger] t1.lookup(q) == t0.lookup(q),
    {
        let j = choose|j: int| 0 <= j < t1.size() && t1.path(j) == k;
        t1.lemma_lookup_at(j);
        if j < t0.size() {
            assert(t0.path(j) == k);
        }
        assert forall|q: Seq<S::V>| q != k implies #[trigger] t1.lookup(q) == t0.lookup(q) by {
            if t0.has_path(q) {
                let j0 = choose|j0: int| 0 <= j0 < t0.size() && t0.path(j0) == q;
                t0.lemma_lookup_at(j0);
                t1.lemma_lookup_at(j0);
            } else if t1.has_path(q) {
                let j1 = choose|j1: int| 0 <= j1 < t1.size() && t1.path(j1) == q;
                t1.lemma_lookup_at(j1);
                if j1 < t0.size() {
                    assert(t0.path(j1) == q);
                }
            }
        }
    }

    /// Attaching a leaf at path `k` under `a`, which has no route along `k`,
    /// keeps the trie well formed.
    proof fn lemma_wf_prefix(t0: Self, t1: Self, k: Seq<S::V>, a: int, leaf: NodeId)
        requires
            leaf.0 == t0.size(),
            t0.wf(),
            0 <= a < t0.size(),
            is_strict_prefix(t0.path(a), k),
            !t0.routes_at(a).contains_key(k[t0.path(a).len() as int]),
            t1.nodes@.len() == t0.size() + 1,
            t1.paths@ == t0.paths@.push(k),
            forall|i: int| 0 <= i < t0.size() && i != a ==> t1.nodes@[i] == t0.nodes@[i],
            t1.edge_at(a) == t0.edge_at(a),
            t1.routes_at(a) == t0.routes_at(a).insert(k[t0.path(a).len() as int], leaf),
            t1.nodes@[a].radix.inv(),
            t1.routes_at(t0.size() as int) == Map::<S::V, NodeId>::empty(),
            t1.nodes@[t0.size() as int].radix.inv(),
            t0.path(a).push(k[t0.path(a).len() as int]) + t1.edge_at(t0.size() as int) == k,
        ensures
            t1.linked(),
            !t0.has_path(k),
    {
        let n = t0.size() as int;
        let d = t0.path(a).len() as int;
        // no old node lies at or below k
        assert forall|j: int| 0 <= j < n implies !is_prefix(k, #[trigger] t0.path(j)) by {
            if is_prefix(k, t0.path(j)) {
                lemma_prefix_trans(t0.path(a), k, t0.path(j));
                assert(t0.path(j)[d] == k[d]);
                assert(t0.descends(a, j));
            }
        }
        assert forall|i: int| 0 <= i < n + 1 implies #[trigger] t1.nodes@[i].radix.inv() by {
            if i < n && i != a {
                assert(t1.nodes@[i] == t0.nodes@[i]);
            }
        }
        assert forall|i: int| 0 <= i < n implies #[trigger] t1.edge_at(i) == t0.edge_at(i) by {
            if i != a {
                assert(t1.nodes@[i] == t0.nodes@[i]);
            }
        }
        assert forall|i: int| 0 <= i < n implies #[trigger] t1.path(i) == t0.path(i) by {}
        assert forall|i: int| 0 <= i < n && i != a implies #[trigger] t1.routes_at(i)
            == t0.routes_at(i) by {
            assert(t1.nodes@[i] == t0.nodes@[i]);
        }
        assert forall|i: int, s: S::V|
            0 <= i < n + 1 && #[trigger] t1.routes_at(i).contains_key(s) implies t1.child_ok(
            i,
            s,
        ) by {
            if i == n {
                assert(!t1.routes_at(i).contains_key(s));
            } else if i == a && s == k[d] {
                assert(t1.path(n) == k);
                assert(t1.path(a) == t0.path(a));
            } else {
                assert(t0.routes_at(i).contains_key(s));
                assert(t0.child_ok(i, s));
                let c = t0.routes_at(i)[s].0 as int;
                assert(t1.routes_at(i)[s] == t0.routes_at(i)[s]);
                assert(t1.edge_at(c) == t0.edge_at(c));
                assert(t1.path(c) == t0.path(c));
                assert(t1.path(i) == t0.path(i));
            }
        }
        assert forall|i: int, j: int|
            0 <= i < n + 1 && 0 <= j < n + 1 && is_strict_prefix(
                t1.path(i),
                t1.path(j),
            ) implies #[trigger] t1.descends(i, j) by {
            if i == n {
                assert(is_prefix(k, t0.path(j)));
            } else if j == n {
                if i == a {
                    assert(k.take(k.len() as int) =~= k);
                    assert(t1.path(j)[d] == k[d]);
                } else {
                    lemma_prefixes_of_one(t0.path(i), t0.path(a), k);
                    lemma_prefixes_of_one(t0.path(a), t0.path(i), k);
                    if t0.path(i).len() < d {
                        assert(t0.descends(i, a));
                        assert(t1.nodes@[i] == t0.nodes@[i]);
                        let s = k[t0.path(i).len() as int];
                        assert(t0.path(a)[t0.path(i).len() as int] == s);
                        assert(t0.child_ok(i, s));
                        lemma_prefix_trans(
                            t0.path(t0.routes_at(i)[s].0 as int),
                            t0.path(a),
                            k,
                        );
                    } else if t0.path(i).len() > d {
                        assert(t0.descends(a, i));
                        assert(t0.path(i)[d] == k[d]);
                    } else {
                        assert(t0.path(i) != t0.path(a));
                    }
                }
            } else {
                assert(t0.descends(i, j));
                let s = t0.path(j)[t0.path(i).len() as int];
                assert(t0.child_ok(i, s));
                if i == a {
                    assert(s != k[d]);
                } else {
                    assert(t1.nodes@[i] == t0.nodes@[i]);
                }
            }
        }
        assert forall|i: int, j: int|
            0 <= i < n + 1 && 0 <= j < n + 1 && i != j implies #[trigger] t1.path(i)
            != #[trigger] t1.path(j) by {
            if i == n {
                assert(!is_prefix(k, t0.path(j)));
                assert(k.take(k.len() as int) =~= k);
            } else if j == n {
                assert(!is_prefix(k, t0.path(i)));
                assert(k.take(k.len() as int) =~= k);
            } else {
                assert(t0.path(i) != t0.path(j));
            }
        }
        if t0.has_path(k) {
            let j = choose|j: int| 0 <= j < n && t0.path(j) == k;
            assert(k.take(k.len() as int) =~= k);
            assert(!is_prefix(k, t0.path(j)));
        }
    }

    /// A node is routed to from one place only.
    proof fn lemma_unique_parent(&self, a: int, s: S::V, i: int, s2: S::V)
        requires
            self.wf(),
            0 <= a < self.size(),
            0 <= i < self.size(),
            self.routes_at(a).contains_key(s),
            self.routes_at(i).contains_key(s2),
            self.routes_at(a)[s] == self.routes_at(i)[s2],
        ensures
            a == i,
            s == s2,
    {
        assert(self.child_ok(a, s));
        assert(self.child_ok(i, s2));
        let c = self.routes_at(a)[s].0 as int;
        let p = self.path(c);
        assert(p == self.path(a).push(s) + self.edge_at(c));
        assert(p == self.path(i).push(s2) + self.edge_at(c));
        assert(p.len() == self.path(a).len() + 1 + self.edge_at(c).len());
        assert(p.len() == self.path(i).len() + 1 + self.edge_at(c).len());
        assert(self.path(a) =~= p.take(self.path(a).len() as int));
        assert(self.path(i) =~= p.take(self.path(i).len() as int));
        assert(p[self.path(a).len() as int] == s);
        assert(p[self.path(i).len() as int] == s2);
    }

    /// Putting a new node `l`, at the path `k`, between `a` and its child
    /// `c` keeps the trie well formed.
    proof fn lemma_wf_split(t0: Self, t1: Self, k: Seq<S::V>, a: int, cn: NodeId, l: NodeId)
        requires
            t0.wf(),
            l.0 == t0.size(),
            0 <= a < t0.size(),
            is_strict_prefix(t0.path(a), k),
            t0.routes_at(a).contains_key(k[t0.path(a).len() as int]),
            t0.routes_at(a)[k[t0.path(a).len() as int]] == cn,
            is_strict_prefix(k, t0.path(cn.0 as int)),
            t1.nodes@.len() == t0.size() + 1,
            t1.paths@ == t0.paths@.push(k),
            forall|i: int|
                0 <= i < t0.size() && i != a && i != cn.0 ==> t1.nodes@[i] == t0.nodes@[i],
            t1.edge_at(a) == t0.edge_at(a),
            t1.routes_at(a) == t0.routes_at(a).insert(k[t0.path(a).len() as int], l),
            t1.nodes@[a].radix.inv(),
            t1.nodes@[cn.0 as int].radix == t0.nodes@[cn.0 as int].radix,
            t1.edge_at(cn.0 as int) == t0.edge_at(cn.0 as int).skip(k.len() - t0.path(a).len()),
            t1.routes_at(l.0 as int) == map![t0.edge_at(cn.0 as int)[k.len() - t0.path(a).len() - 1] => cn],
            t1.nodes@[l.0 as int].radix.inv(),
            t0.path(a).push(k[t0.path(a).len() as int]) + t1.edge_at(l.0 as int) == k,
        ensures
            t1.linked(),
            !t0.has_path(k),
    {
        let c = cn.0 as int;
        let n = t0.size() as int;
        let d = t0.path(a).len() as int;
        let kd = k[d];
        let e = t0.edge_at(c);
        let m = k.len() - d - 1;
        assert(t0.child_ok(a, kd));
        let pc = t0.path(c);
        assert(pc == t0.path(a).push(kd) + e);
        assert(0 < c < n);
        assert(pc[k.len() as int] == e[m]);
        assert(pc =~= k.push(e[m]) + e.skip(m + 1)) by {
            assert(pc.take(k.len() as int) == k);
            assert forall|t: int| 0 <= t < pc.len() implies pc[t] == (k.push(e[m]) + e.skip(
                m + 1,
            ))[t] by {
                if t < k.len() {
                    assert(pc.take(k.len() as int)[t] == pc[t]);
                }
            }
        }
        assert forall|i: int| 0 <= i < n implies #[trigger] t1.path(i) == t0.path(i) by {}
        assert forall|i: int| 0 <= i < n + 1 implies #[trigger] t1.nodes@[i].radix.inv() by {
            if i < n && i != a && i != c {
                assert(t1.nodes@[i] == t0.nodes@[i]);
            }
        }
        assert forall|i: int| 0 <= i < n && i != c implies #[trigger] t1.edge_at(i)
            == t0.edge_at(i) by {
            if i != a {
                assert(t1.nodes@[i] == t0.nodes@[i]);
            }
        }
        assert forall|i: int| 0 <= i < n && i != a implies #[trigger] t1.routes_at(i)
            == t0.routes_at(i) by {
            if i != c {
                assert(t1.nodes@[i] == t0.nodes@[i]);
            }
        }
        // no old node lies at k
        assert forall|j: int| 0 <= j < n implies #[trigger] t0.path(j) != k by {
            if t0.path(j) == k {
                assert(t0.descends(a, j));
                assert(k.take(k.len() as int) =~= k);
            }
        }
        assert forall|i: int, s: S::V|
            0 <= i < n + 1 && #[trigger] t1.routes_at(i).contains_key(s) implies t1.child_ok(
            i,
            s,
        ) by {
            if i == n {
                assert(s == e[m]);
            } else if i == a && s == kd {
                assert(t1.path(n) == k);
            } else {
                assert(t0.routes_at(i).contains_key(s));
                assert(t0.child_ok(i, s));
                let c2 = t0.routes_at(i)[s].0 as int;
                assert(t1.routes_at(i)[s] == t0.routes_at(i)[s]);
                if c2 == c {
                    t0.lemma_unique_parent(a, kd, i, s);
                }
                assert(t1.edge_at(c2) == t0.edge_at(c2));
            }
        }
        assert forall|i: int, j: int|
            0 <= i < n + 1 && 0 <= j < n + 1 && is_strict_prefix(
                t1.path(i),
                t1.path(j),
            ) implies #[trigger] t1.descends(i, j) by {
            if i == n {
                let pj = t0.path(j);
                lemma_prefix_trans(t0.path(a), k, pj);
                assert(pj[d] == kd);
                assert(t0.descends(a, j));
                lemma_prefixes_of_one(k, pc, pj);
                assert(pj[k.len() as int] == pc[k.len() as int]);
            } else if j == n {
                if i == a {
                    assert(k.take(k.len() as int) =~= k);
                    assert(t1.path(j)[d] == k[d]);
                } else {
                    lemma_prefixes_of_one(t0.path(i), t0.path(a), k);
                    lemma_prefixes_of_one(t0.path(a), t0.path(i), k);
                    if t0.path(i).len() < d {
                        assert(t0.descends(i, a));
                        let s = k[t0.path(i).len() as int];
                        assert(t0.path(a)[t0.path(i).len() as int] == s);
                        assert(t0.child_ok(i, s));
                        lemma_prefix_trans(t0.path(t0.routes_at(i)[s].0 as int), t0.path(a), k);
                    } else if t0.path(i).len() > d {
                        assert(t0.descends(a, i));
                        assert(t0.path(i)[d] == kd);
                    } else {
                        assert(t0.path(i) != t0.path(a));
                    }
                }
            } else {
                assert(t0.descends(i, j));
                let s = t0.path(j)[t0.path(i).len() as int];
                assert(t0.child_ok(i, s));
                if i == a && s == kd {
                    lemma_prefix_trans(k, pc, t0.path(j));
                }
            }
        }
        assert forall|i: int, j: int|
            0 <= i < n + 1 && 0 <= j < n + 1 && i != j implies #[trigger] t1.path(i)
            != #[trigger] t1.path(j) by {
            if i < n && j < n {
                assert(t0.path(i) != t0.path(j));
            }
        }
        if t0.has_path(k) {
            let j = choose|j: int| 0 <= j < n && t0.path(j) == k;
            assert(t0.path(j) != k);
        }
    }

    /// Putting a branch node `b`, at the path `bk`, between `a` and its child
    /// `c`, with a new leaf `l` at the path `k` beside `c`, keeps the trie
    /// well formed.
    proof fn lemma_wf_branch(
        t0: Self,
        t1: Self,
        k: Seq<S::V>,
        an: NodeId,
        cn: NodeId,
        depth: usize,
        common_len: usize,
        l: NodeId,
        b: NodeId,
    )
        requires
            t0.wf(),
            l.0 == t0.size(),
            b.0 == t0.size() + 1,
            t0.retrieved(
                k,
                Retrieval::Divergence {
                    ancestor_id: an,
                    sibling_id: cn,
                    depth,
                    common_len,
                },
            ),
            t1.nodes@.len() == t0.size() + 2,
            t1.paths@ == t0.paths@.push(k).push(k.take(depth + common_len)),
            forall|i: int|
                0 <= i < t0.size() && i != an.0 && i != cn.0 ==> t1.nodes@[i] == t0.nodes@[i],
            t1.edge_at(an.0 as int) == t0.edge_at(an.0 as int),
            t1.routes_at(an.0 as int) == t0.routes_at(an.0 as int).insert(k[depth as int], b),
            t1.nodes@[an.0 as int].radix.inv(),
            t1.nodes@[cn.0 as int].radix == t0.nodes@[cn.0 as int].radix,
            t1.edge_at(cn.0 as int) == t0.edge_at(cn.0 as int).skip(common_len as int),
            t1.routes_at(l.0 as int) == Map::<S::V, NodeId>::empty(),
            t1.nodes@[l.0 as int].radix.inv(),
            t1.edge_at(l.0 as int) == k.skip(depth + common_len + 1),
            t1.routes_at(b.0 as int) == map![
                t0.edge_at(cn.0 as int)[common_len - 1] => cn,
                k[depth + common_len] => l
            ],
            t1.nodes@[b.0 as int].radix.inv(),
            t1.edge_at(b.0 as int) == k.subrange(depth + 1int, depth + common_len),
        ensures
            t1.linked(),
            !t0.has_path(k),
    {
        let a = an.0 as int;
        let c = cn.0 as int;
        let len = common_len as int;
        let n = t0.size() as int;
        let d = t0.path(a).len() as int;
        let kd = k[d];
        let e = t0.edge_at(c);
        let bk = k.take(d + len);
        assert(t0.child_ok(a, kd));
        let pc = t0.path(c);
        assert(pc == t0.path(a).push(kd) + e);
        assert(0 < c < n);
        assert(pc[d + len] == e[len - 1]);
        assert(bk =~= pc.take(d + len));
        assert(pc =~= bk.push(e[len - 1]) + e.skip(len));
        assert(k =~= bk.push(k[d + len]) + k.skip(d + len + 1));
        assert(bk =~= t0.path(a).push(kd) + k.subrange(d + 1, d + len)) by {
            assert(k.take(d) == t0.path(a));
        }
        assert(t1.path(n) == k);
        assert(t1.path(n + 1) == bk);
        assert(is_strict_prefix(bk, pc));
        assert(is_strict_prefix(bk, k));
        assert(bk.take(d) =~= k.take(d));
        assert(is_strict_prefix(t0.path(a), bk));
        assert(bk[d] == kd);
        assert forall|i: int| 0 <= i < n implies #[trigger] t1.path(i) == t0.path(i) by {}
        assert forall|i: int| 0 <= i < n + 2 implies #[trigger] t1.nodes@[i].radix.inv() by {
            if i < n && i != a && i != c {
                assert(t1.nodes@[i] == t0.nodes@[i]);
            }
        }
        assert forall|i: int| 0 <= i < n && i != c implies #[trigger] t1.edge_at(i)
            == t0.edge_at(i) by {
            if i != a {
                assert(t1.nodes@[i] == t0.nodes@[i]);
            }
        }
        assert forall|i: int| 0 <= i < n && i != a implies #[trigger] t1.routes_at(i)
            == t0.routes_at(i) by {
            if i != c {
                assert(t1.nodes@[i] == t0.nodes@[i]);
            }
        }
        // an old node below a along kd lies at or below c
        assert forall|j: int|
            0 <= j < n && is_strict_prefix(t0.path(a), #[trigger] t0.path(j)) && t0.path(j)[d]
                == kd implies is_prefix(pc, t0.path(j)) by {
            assert(t0.descends(a, j));
        }
        assert forall|j: int| 0 <= j < n implies #[trigger] t0.path(j) != k && t0.path(j)
            != bk by {
            if t0.path(j) == k || t0.path(j) == bk {
                assert(t0.path(j)[d] == kd);
                assert(is_prefix(pc, t0.path(j)));
                assert(pc.take(d + len + 1)[d + len] == pc[d + len]);
            }
        }
        assert forall|i: int, s: S::V|
            0 <= i < n + 2 && #[trigger] t1.routes_at(i).contains_key(s) implies t1.child_ok(
            i,
            s,
        ) by {
            if i == n {
                assert(!t1.routes_at(i).contains_key(s));
            } else if i == n + 1 {
            } else if i == a && s == kd {
            } else {
                assert(t0.routes_at(i).contains_key(s));
                assert(t0.child_ok(i, s));
                let c2 = t0.routes_at(i)[s].0 as int;
                assert(t1.routes_at(i)[s] == t0.routes_at(i)[s]);
                if c2 == c {
                    t0.lemma_unique_parent(a, kd, i, s);
                }
                assert(t1.edge_at(c2) == t0.edge_at(c2));
            }
        }
        assert forall|i: int, j: int|
            0 <= i < n + 2 && 0 <= j < n + 2 && is_strict_prefix(
                t1.path(i),
                t1.path(j),
            ) implies #[trigger] t1.descends(i, j) by {
            let pi = t1.path(i);
            let pj = t1.path(j);
            if i == n {
                if j < n {
                    lemma_prefix_trans(t0.path(a), k, pj);
                    assert(pj[d] == kd);
                    assert(is_prefix(pc, pj));
                    assert(pj.take(d + len + 1)[d + len] == pj[d + len]);
                    assert(pc.take(d + len + 1)[d + len] == pc[d + len]);
                }
                assert(t1.descends(i, j));
            } else if i == n + 1 {
                if j < n {
                    lemma_prefix_trans(t0.path(a), bk, pj);
                    assert(pj[d] == kd);
                    assert(is_prefix(pc, pj));
                    assert(pj[d + len] == pc[d + len]);
                    assert(t1.path(c) == pc);
                    assert(e[len - 1] != k[d + len]);
                    assert(t1.routes_at(n + 1)[e[len - 1]] == cn);
                } else {
                    assert(j == n);
                    assert(k.take(k.len() as int) =~= k);
                    assert(t1.routes_at(n + 1)[k[d + len]] == l);
                }
                assert(t1.descends(i, j));
            } else if j >= n {
                assert(bk.take(bk.len() as int) =~= bk);
                assert(is_prefix(bk, pj));
                assert(pj[d] == kd);
                if i != a {
                    lemma_prefix_trans(t0.path(a), bk, pj);
                    lemma_prefixes_of_one(pi, t0.path(a), pj);
                    lemma_prefixes_of_one(t0.path(a), pi, pj);
                    if pi.len() < d {
                        assert(t0.descends(i, a));
                        let s = pj[pi.len() as int];
                        assert(t0.path(a)[pi.len() as int] == s);
                        lemma_prefix_trans(t0.path(t0.routes_at(i)[s].0 as int), t0.path(a), pj);
                    } else if pi.len() > d {
                        assert(t0.descends(a, i));
                        assert(pi[d] == kd);
                        assert(is_prefix(pc, pi));
                        lemma_prefix_trans(pc, pi, pj);
                        assert(pj.take(d + len + 1)[d + len] == pj[d + len]);
                        assert(k.take(d + len + 1)[d + len] == k[d + len]);
                    } else {
                        assert(pi != t0.path(a));
                    }
                }
                assert(t1.descends(i, j));
            } else {
                assert(t0.descends(i, j));
                let s = pj[pi.len() as int];
                assert(t0.child_ok(i, s));
                if i == a && s == kd {
                    lemma_prefix_trans(bk, pc, pj);
                }
                assert(t1.descends(i, j));
            }
        }
        assert forall|i: int, j: int|
            0 <= i < n + 2 && 0 <= j < n + 2 && i != j implies #[trigger] t1.path(i)
            != #[trigger] t1.path(j) by {
            if i < n && j < n {
                assert(t0.path(i) != t0.path(j));
            }
        }
        if t0.has_path(k) {
            let j = choose|j: int| 0 <= j < n && t0.path(j) == k;
            assert(t0.path(j) != k);
        }
    }

    /// What the full walk reports of the segment path `k`.
    pub open spec fn retrieved(&self, k: Seq<S::V>, r: Retrieval) -> bool {
        match r {
            Retrieval::Exact(n) => n.0 < self.size() && self.path(n.0 as int) == k,
            Retrieval::Prefix { ancestor_id: a, depth: d } => {
                &&& a.0 < self.size()
                &&& d == self.path(a.0 as int).len()
                &&& is_strict_prefix(self.path(a.0 as int), k)
                &&& !self.routes_at(a.0 as int).contains_key(k[d as int])
            },
            Retrieval::Split { ancestor_id: a, desc_id: c, depth: d } => {
                &&& a.0 < self.size()
                &&& d == self.path(a.0 as int).len()
                &&& is_strict_prefix(self.path(a.0 as int), k)
                &&& self.routes_at(a.0 as int).contains_key(k[d as int])
                &&& self.routes_at(a.0 as int)[k[d as int]] == c
                &&& is_strict_prefix(k, self.path(c.0 as int))
            },
            Retrieval::Divergence { ancestor_id: a, sibling_id: c, depth: d, common_len: l } => {
                &&& a.0 < self.size()
                &&& d == self.path(a.0 as int).len()
                &&& is_strict_prefix(self.path(a.0 as int), k)
                &&& self.routes_at(a.0 as int).contains_key(k[d as int])
                &&& self.routes_at(a.0 as int)[k[d as int]] == c
                &&& l >= 1
                &&& d + l < k.len()
                &&& d + l < self.path(c.0 as int).len()
                &&& k.take(d + l) == self.path(c.0 as int).take(d + l)
                &&& k[d + l] != self.path(c.0 as int)[d + l]
            },
        }
    }

    /// Where the full walk places the segment path `k`.
    pub open spec fn position(&self, k: Seq<S::V>) -> Retrieval {
        choose|r: Retrieval| self.retrieved(k, r)
    }

    /// The ancestor that a result other than `Exact` names.
    spec fn ancestor_of(r: Retrieval) -> int {
        match r {
            Retrieval::Exact(n) => n.0 as int,
            Retrieval::Prefix { ancestor_id, .. } => ancestor_id.0 as int,
            Retrieval::Split { ancestor_id, .. } => ancestor_id.0 as int,
            Retrieval::Divergence { ancestor_id, .. } => ancestor_id.0 as int,
        }
    }

    /// Node `a` has no route along `k` to a node that prefixes `k`.
    spec fn stuck(&self, a: int, k: Seq<S::V>) -> bool {
        let s = k[self.path(a).len() as int];
        !self.routes_at(a).contains_key(s) || !is_prefix(
            self.path(self.routes_at(a)[s].0 as int),
            k,
        )
    }

    proof fn lemma_stuck(&self, k: Seq<S::V>, r: Retrieval)
        requires
            self.wf(),
            self.retrieved(k, r),
            !(r is Exact),
        ensures
            self.stuck(Self::ancestor_of(r), k),
            !self.has_path(k),
    {
        let a = Self::ancestor_of(r);
        match r {
            Retrieval::Split { desc_id: c, .. } => {
                let pc = self.path(c.0 as int);
                if is_prefix(pc, k) {
                    assert(pc.len() <= k.len());
                }
            },
            Retrieval::Divergence { sibling_id: c, depth: d, common_len: l, .. } => {
                let pc = self.path(c.0 as int);
                if is_prefix(pc, k) {
                    assert(k.take(pc.len() as int)[d + l] == k[d + l]);
                }
            },
            _ => {},
        }
        self.lemma_no_node_past(a, k);
    }

    /// The full walk has one outcome only.
    proof fn lemma_retrieved_unique(&self, k: Seq<S::V>, r1: Retrieval, r2: Retrieval)
        requires
            self.wf(),
            self.retrieved(k, r1),
            self.retrieved(k, r2),
        ensures
            r1 == r2,
    {
        if r1 is Exact && r2 is Exact {
            let n1 = r1->Exact_0.0 as int;
            let n2 = r2->Exact_0.0 as int;
            if n1 != n2 {
                assert(self.path(n1) != self.path(n2));
            }
        } else if r1 is Exact {
            self.lemma_stuck(k, r2);
        } else if r2 is Exact {
            self.lemma_stuck(k, r1);
        } else {
            self.lemma_stuck(k, r1);
            self.lemma_stuck(k, r2);
            let a1 = Self::ancestor_of(r1);
            let a2 = Self::ancestor_of(r2);
            lemma_prefixes_of_one(self.path(a1), self.path(a2), k);
            lemma_prefixes_of_one(self.path(a2), self.path(a1), k);
            if self.path(a1).len() < self.path(a2).len() {
                assert(self.descends(a1, a2));
                let s = self.path(a2)[self.path(a1).len() as int];
                assert(s == k[self.path(a1).len() as int]);
                lemma_prefix_trans(self.path(self.routes_at(a1)[s].0 as int), self.path(a2), k);
            } else if self.path(a2).len() < self.path(a1).len() {
                assert(self.descends(a2, a1));
                let s = self.path(a1)[self.path(a2).len() as int];
                assert(s == k[self.path(a2).len() as int]);
                lemma_prefix_trans(self.path(self.routes_at(a2)[s].0 as int), self.path(a1), k);
            } else if a1 != a2 {
                assert(self.path(a1) != self.path(a2));
            }
            assert(a1 == a2);
            match (r1, r2) {
                (
                    Retrieval::Divergence { common_len: l1, depth: d, sibling_id: c, .. },
                    Retrieval::Divergence { common_len: l2, .. },
                ) => {
                    let pc = self.path(c.0 as int);
                    if l1 < l2 {
                        assert(k.take(d + l2)[d + l1] == pc.take(d + l2)[d + l1]);
                    } else if l2 < l1 {
                        assert(k.take(d + l1)[d + l2] == pc.take(d + l1)[d + l2]);
                    }
                },
                (Retrieval::Split { desc_id: c, depth: d, .. }, Retrieval::Divergence { common_len: l, .. }) => {
                    assert(self.path(c.0 as int).take(k.len() as int)[d + l] == self.path(c.0 as int)[d + l]);
                },
                (Retrieval::Divergence { common_len: l, depth: d, sibling_id: c, .. }, Retrieval::Split { .. }) => {
                    assert(self.path(c.0 as int).take(k.len() as int)[d + l] == self.path(c.0 as int)[d + l]);
                },
                _ => {},
            }
        }
    }

    /// Any outcome that the full walk could report of `k` is its position:
    /// the walk has one outcome only.
    pub proof fn lemma_position(&self, k: Seq<S::V>, r: Retrieval)
        requires
            self.wf(),
            self.retrieved(k, r),
        ensures
            self.position(k) == r,
    {
        self.lemma_retrieved_unique(k, r, self.position(k));
    }

    /// Node `a` prefixes `k`, which is longer; if no route of `a` leads
    /// along `k` to a node that prefixes it, no node lies at `k`.
    proof fn lemma_no_node_past(&self, a: int, k: Seq<S::V>)
        requires
            self.wf(),
            0 <= a < self.size(),
            is_strict_prefix(self.path(a), k),
            !self.routes_at(a).contains_key(k[self.path(a).len() as int]) || !is_prefix(
                self.path(self.routes_at(a)[k[self.path(a).len() as int]].0 as int),
                k,
            ),
        ensures
            !self.has_path(k),
    {
        if self.has_path(k) {
            let j = choose|j: int| 0 <= j < self.size() && self.path(j) == k;
            assert(self.descends(a, j));
        }
    }

    /// Relates a route of `a` along `k` to the child's edge.
    proof fn lemma_step(&self, a: int, k: Seq<S::V>)
        requires
            self.wf(),
            0 <= a < self.size(),
            is_strict_prefix(self.path(a), k),
            self.routes_at(a).contains_key(k[self.path(a).len() as int]),
        ensures
            ({
                let d = self.path(a).len() as int;
                let c = self.routes_at(a)[k[d]].0 as int;
                &&& 0 < c < self.size()
                &&& self.path(c) == self.path(a).push(k[d]) + self.edge_at(c)
                &&& is_prefix(self.path(c), k) == is_prefix(self.edge_at(c), k.skip(d + 1))
            }),
    {
        let d = self.path(a).len() as int;
        let c = self.routes_at(a)[k[d]].0 as int;
        assert(self.child_ok(a, k[d]));
        let e = self.edge_at(c);
        let p = self.path(c);
        if is_prefix(p, k) {
            assert(k.skip(d + 1).take(e.len() as int) =~= p.skip(d + 1));
            assert(p.skip(d + 1) =~= e);
        }
        if is_prefix(e, k.skip(d + 1)) {
            assert(k.take(p.len() as int) =~= p);
        }
    }
}


/// `a` and `b` both prefix `k`: the shorter prefixes the longer.
proof fn lemma_prefixes_of_one<T>(a: Seq<T>, b: Seq<T>, k: Seq<T>)
    requires
        is_prefix(a, k),
        is_prefix(b, k),
    ensures
        a.len() < b.len() ==> is_strict_prefix(a, b),
        a.len() == b.len() ==> a == b,
{
    if a.len() <= b.len() {
        assert(b.take(a.len() as int) =~= k.take(a.len() as int));
    }
    if a.len() == b.len() {
        assert(a =~= b);
    }
}

/// Prefixes compose.
proof fn lemma_prefix_trans<T>(a: Seq<T>, b: Seq<T>, c: Seq<T>)
    requires
        is_prefix(a, b),
        is_prefix(b, c),
    ensures
        is_prefix(a, c),
{
    assert(c.take(a.len() as int) =~= b.take(a.len() as int));
}

} // verus!
