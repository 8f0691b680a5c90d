use std::rc::Rc;

use radix_trie::key::str_splitter::StrSplitter;
use radix_trie::key::IntoEdge;
use radix_trie::node::NodeId;
use radix_trie::radix::vec::VecRadix;
use radix_trie::retrieval::Retrieval;
use radix_trie::trie::Trie;
use radix_trie::value::TrieValue;

#[derive(Debug, Clone, PartialEq)]
struct Val(Rc<str>);

impl<'v> TrieValue<'v, &'v Rc<str>> for Val {
    fn trie_key(&'v self) -> &'v Rc<str> {
        &self.0
    }
}

fn create_trie() -> Trie<String, Val, StrSplitter, VecRadix<String>> {
    Trie::new(StrSplitter::default())
}

#[test]
fn retrieve_exact() {
    let mut t = create_trie();
    let a = Val(Rc::from("/a/b"));
    let b = Val(Rc::from("/a/b/c"));
    let a_key = a.trie_key();
    let b_key = b.trie_key();
    t.insert(a_key, a.clone());
    t.insert(b_key, b.clone());
    let key_edge_a = t.encoder().segment(a_key);
    assert_eq!(t.retrieve(&key_edge_a, true), Retrieval::Exact(NodeId(1)));
    assert_eq!(t.retrieve(&key_edge_a, false), Retrieval::Exact(NodeId(1)));
    let key_edge_b = t.encoder().segment(b_key);
    assert_eq!(t.retrieve(&key_edge_b, true), Retrieval::Exact(NodeId(2)));
    assert_eq!(t.retrieve(&key_edge_b, false), Retrieval::Exact(NodeId(2)));
}

#[test]
fn retrieve_ancestor() {
    let mut t = create_trie();
    let a = Val(Rc::from("/a/b"));
    let key = a.trie_key();
    t.insert(key, a.clone());
    let nested_key: Rc<str> = Rc::from("/a/b/c");
    let edge = t.encoder().segment(&nested_key);
    assert_eq!(
        t.retrieve(&edge, false),
        Retrieval::Prefix {
            ancestor_id: NodeId(1),
            depth: 2
        }
    );
}

#[test]
fn retrieve_desc() {
    let mut t = create_trie();
    let a = Val(Rc::from("/a"));
    let c = Val(Rc::from("/a/b/c"));
    t.insert(a.trie_key(), a.clone());
    t.insert(c.trie_key(), c.clone());
    let nested_key: Rc<str> = Rc::from("/a/b");
    let edge = t.encoder().segment(&nested_key);
    assert_eq!(
        t.retrieve(&edge, false),
        Retrieval::Split {
            ancestor_id: NodeId(1),
            desc_id: NodeId(2),
            depth: 1
        }
    );
}

#[test]
fn retrieve_diverging() {
    let mut t = create_trie();
    let a = Val(Rc::from("/a/b/x"));
    t.insert(a.trie_key(), a.clone());
    let nested_key: Rc<str> = Rc::from("/a/b/y");
    let edge = t.encoder().segment(&nested_key);
    assert_eq!(
        t.retrieve(&edge, false),
        Retrieval::Divergence {
            ancestor_id: NodeId(0),
            sibling_id: NodeId(1),
            depth: 0,
            common_len: 2
        }
    );
}

#[test]
fn basic_insert() {
    let mut t = create_trie();
    let a = Val(Rc::from("/a"));
    let key = a.trie_key();
    t.insert(key, a.clone());
    assert_eq!(t.get(key), Some(&a));
}

#[test]
fn nested_insert() {
    let mut t = create_trie();
    let a = Val(Rc::from("/a/b"));
    let a_key = a.trie_key();
    let b = Val(Rc::from("/a/b/c"));
    let b_key = b.trie_key();
    t.insert(a_key, a.clone());
    t.insert(b_key, b.clone());
    assert_eq!(t.get(a_key), Some(&a));
    assert_eq!(t.get(b_key), Some(&b));
}

#[test]
fn diverging_insert() {
    let mut t = create_trie();
    let a = Val(Rc::from("/a"));
    let c = Val(Rc::from("/a/b/c"));
    let x = Val(Rc::from("/a/b/x"));
    let a_key = a.trie_key();
    let c_key = c.trie_key();
    let x_key = x.trie_key();
    t.insert(a_key, a.clone());
    t.insert(c_key, c.clone());
    t.insert(x_key, x.clone());
    assert_eq!(t.get(a_key), Some(&a));
    assert_eq!(t.get(c_key), Some(&c));
    assert_eq!(t.get(x_key), Some(&x));
}

#[test]
fn split_insert() {
    let mut t = create_trie();
    let a = Val(Rc::from("/a"));
    let c = Val(Rc::from("/a/b/c"));
    let b = Val(Rc::from("/a/b"));
    let a_key = a.trie_key();
    let c_key = c.trie_key();
    let b_key = b.trie_key();
    t.insert(a_key, a.clone());
    t.insert(c_key, c.clone());
    t.insert(b_key, b.clone());
    assert_eq!(t.get(a_key), Some(&a));
    assert_eq!(t.get(c_key), Some(&c));
    assert_eq!(t.get(b_key), Some(&b));
}
