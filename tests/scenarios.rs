use radix_trie::edge::Edge;
use radix_trie::key::char_splitter::CharSplitter;
use radix_trie::key::str_splitter::StrSplitter;
use radix_trie::key::IntoEdge;
use radix_trie::node::NodeId;
use radix_trie::radix::hashmap::HashMapRadix;
use radix_trie::radix::vec::VecRadix;
use radix_trie::radix::Radix;
use radix_trie::retrieval::Retrieval;
use radix_trie::trie::Trie;

type PathTrie = Trie<String, u32, StrSplitter, VecRadix<String>>;

fn path_trie() -> PathTrie {
    Trie::new(StrSplitter::default())
}

fn strings(parts: &[&str]) -> Vec<String> {
    parts.iter().map(|p| p.to_string()).collect()
}

fn edge_of(t: &PathTrie, id: NodeId) -> Vec<String> {
    t.get_node(id).edge.as_slice().to_vec()
}

fn exact_id(t: &PathTrie, key: &str) -> NodeId {
    let edge = t.encoder().segment(key);
    match t.retrieve(&edge, false) {
        Retrieval::Exact(id) => id,
        other => panic!("no node for {}: {:?}", key, other),
    }
}

#[test]
fn round_trip_one_key() {
    let mut t = path_trie();
    t.insert("/x/y/z", 7);
    assert_eq!(t.get("/x/y/z"), Some(&7));
}

#[test]
fn upsert_keeps_arena_size() {
    let mut t = path_trie();
    t.insert("/a/b", 1);
    let n = t.node_count();
    t.insert("/a/b", 2);
    assert_eq!(t.get("/a/b"), Some(&2));
    assert_eq!(t.node_count(), n);
}

#[test]
fn independent_keys_either_order() {
    let mut t1 = path_trie();
    t1.insert("/a/b/c", 1);
    t1.insert("/a/x", 2);
    let mut t2 = path_trie();
    t2.insert("/a/x", 2);
    t2.insert("/a/b/c", 1);
    for t in [&t1, &t2] {
        assert_eq!(t.get("/a/b/c"), Some(&1));
        assert_eq!(t.get("/a/x"), Some(&2));
    }
}

#[test]
fn miss_on_absent_and_branch_keys() {
    let mut t = path_trie();
    t.insert("/a/b/x", 1);
    t.insert("/a/b/y", 2);
    assert_eq!(t.get("/a"), None);
    assert_eq!(t.get("/a/b"), None);
    assert_eq!(t.get("/a/b/z"), None);
    assert_eq!(t.get("/a/b/x/q"), None);
    assert_eq!(t.get("/q"), None);
}

#[test]
fn empty_trie_has_root_only() {
    let t = path_trie();
    assert_eq!(t.node_count(), 1);
    assert_eq!(t.get("/a"), None);
}

#[test]
fn routes_and_edges_after_inserts() {
    let mut t = path_trie();
    t.insert("/a/b/c/d", 1);
    t.insert("/a/b/x", 2);
    t.insert("/a", 3);
    t.insert("/q", 4);
    assert_eq!(t.node_count(), 6);
    assert_eq!(t.get("/a/b/c/d"), Some(&1));
    assert_eq!(t.get("/a/b/x"), Some(&2));
    assert_eq!(t.get("/a"), Some(&3));
    assert_eq!(t.get("/q"), Some(&4));
    assert_eq!(t.get("/a/b"), None);
}

#[test]
fn scenario_ancestor_leaf() {
    let mut t = path_trie();
    t.insert("/a", 1);
    t.insert("/a/b", 2);
    assert_eq!(t.get("/a"), Some(&1));
    assert_eq!(t.get("/a/b"), Some(&2));
    assert_eq!(t.node_count(), 3);
    assert_eq!(t.get_node(NodeId(0)).route(&"a".to_string()), Some(NodeId(1)));
    assert_eq!(t.get_node(NodeId(1)).value, Some(1));
    assert_eq!(t.get_node(NodeId(1)).route(&"b".to_string()), Some(NodeId(2)));
    assert_eq!(t.get_node(NodeId(2)).value, Some(2));
    assert_eq!(edge_of(&t, NodeId(2)), Vec::<String>::new());
}

#[test]
fn scenario_split() {
    let mut t = path_trie();
    t.insert("/a", 1);
    t.insert("/a/b/c", 2);
    t.insert("/a/b", 3);
    assert_eq!(t.get("/a"), Some(&1));
    assert_eq!(t.get("/a/b/c"), Some(&2));
    assert_eq!(t.get("/a/b"), Some(&3));
    let b = exact_id(&t, "/a/b");
    let c = exact_id(&t, "/a/b/c");
    assert_eq!(t.get_node(b).route(&"c".to_string()), Some(c));
    assert_eq!(edge_of(&t, c), Vec::<String>::new());
    assert_eq!(t.node_count(), 4);
    assert_eq!((b, c), (NodeId(3), NodeId(2)));
    assert_eq!(t.get_node(NodeId(1)).route(&"b".to_string()), Some(NodeId(3)));
}

#[test]
fn split_inside_a_long_edge() {
    let mut t = path_trie();
    t.insert("/x/a/b/c", 1);
    t.insert("/x/a/b", 2);
    assert_eq!(t.get("/x/a/b/c"), Some(&1));
    assert_eq!(t.get("/x/a/b"), Some(&2));
    let b = exact_id(&t, "/x/a/b");
    let c = exact_id(&t, "/x/a/b/c");
    assert_eq!(edge_of(&t, b), strings(&["a", "b"]));
    assert_eq!(edge_of(&t, c), Vec::<String>::new());
    assert_eq!(t.get_node(b).route(&"c".to_string()), Some(c));
}

#[test]
fn scenario_divergence() {
    let mut t = path_trie();
    t.insert("/a/b/x", 1);
    t.insert("/a/b/y", 2);
    assert_eq!(t.get("/a/b/x"), Some(&1));
    assert_eq!(t.get("/a/b/y"), Some(&2));
    let x = exact_id(&t, "/a/b/x");
    let y = exact_id(&t, "/a/b/y");
    let branch = exact_id(&t, "/a/b");
    assert!(t.get_node(branch).value.is_none());
    assert_eq!(edge_of(&t, branch), strings(&["b"]));
    assert_eq!(t.get_node(branch).route(&"x".to_string()), Some(x));
    assert_eq!(t.get_node(branch).route(&"y".to_string()), Some(y));
    assert_eq!(t.node_count(), 4);
    assert_eq!((x, y, branch), (NodeId(1), NodeId(2), NodeId(3)));
    assert_eq!(t.get_node(NodeId(0)).route(&"a".to_string()), Some(branch));
    assert_eq!(edge_of(&t, x), Vec::<String>::new());
    assert_eq!(edge_of(&t, y), Vec::<String>::new());
}

#[test]
fn scenario_three_way() {
    let mut t = path_trie();
    t.insert("/a", 1);
    t.insert("/a/b/c", 2);
    t.insert("/a/b/x", 3);
    assert_eq!(t.get("/a"), Some(&1));
    assert_eq!(t.get("/a/b/c"), Some(&2));
    assert_eq!(t.get("/a/b/x"), Some(&3));
    assert_eq!(t.node_count(), 5);
    let branch = t.get_node(NodeId(1)).route(&"b".to_string()).unwrap();
    assert_eq!(branch, NodeId(4));
    assert_eq!(t.get_node(branch).value, None);
    assert_eq!(t.get_node(branch).route(&"c".to_string()), Some(NodeId(2)));
    assert_eq!(t.get_node(branch).route(&"x".to_string()), Some(NodeId(3)));
}

#[test]
fn empty_key_is_one_empty_segment() {
    let mut t = path_trie();
    assert_eq!(t.get("/"), None);
    t.insert("", 9);
    assert_eq!(t.get(""), Some(&9));
    assert_eq!(t.get("/"), Some(&9));
    assert_eq!(t.node_count(), 2);
    assert_eq!(t.encoder().segment("").as_slice().to_vec(), strings(&[""]));
}

#[test]
fn str_splitter_trims_and_splits() {
    let s = StrSplitter::default();
    assert_eq!(s.segment("/a/b/").as_slice().to_vec(), strings(&["a", "b"]));
    assert_eq!(s.segment("//a//").as_slice().to_vec(), strings(&["a"]));
    assert_eq!(s.segment("a/b/c").as_slice().to_vec(), strings(&["a", "b", "c"]));
    assert_eq!(s.segment("a//b").as_slice().to_vec(), strings(&["a", "", "b"]));
    let dots = StrSplitter::new("::");
    assert_eq!(dots.segment("::x::y").as_slice().to_vec(), strings(&["x", "y"]));
}

#[test]
fn char_splitter_with_hash_routes() {
    let mut t: Trie<char, u8, CharSplitter, HashMapRadix> = Trie::new(CharSplitter {});
    t.insert("team", 1);
    t.insert("tea", 2);
    t.insert("ten", 3);
    t.insert("to", 4);
    assert_eq!(t.get("team"), Some(&1));
    assert_eq!(t.get("tea"), Some(&2));
    assert_eq!(t.get("ten"), Some(&3));
    assert_eq!(t.get("to"), Some(&4));
    assert_eq!(t.get("te"), None);
    assert_eq!(t.get("t"), None);
    let e = CharSplitter {}.segment("héllo");
    assert_eq!(e.as_slice().to_vec(), vec!['h', 'é', 'l', 'l', 'o']);
}

#[test]
fn char_splitter_with_vec_routes() {
    let mut t: Trie<char, u8, CharSplitter, VecRadix<char>> = Trie::new(CharSplitter {});
    t.insert("ab", 1);
    t.insert("abc", 2);
    t.insert("b", 3);
    assert_eq!(t.get("ab"), Some(&1));
    assert_eq!(t.get("abc"), Some(&2));
    assert_eq!(t.get("b"), Some(&3));
    assert_eq!(t.get("a"), None);
}

#[test]
fn vec_radix_overwrites_route() {
    let mut r: VecRadix<String> = VecRadix::new();
    r.insert("a".to_string(), NodeId(1));
    r.insert("b".to_string(), NodeId(2));
    r.insert("a".to_string(), NodeId(3));
    assert_eq!(r.get(&"a".to_string()), Some(NodeId(3)));
    assert_eq!(r.get(&"b".to_string()), Some(NodeId(2)));
    assert_eq!(r.get(&"c".to_string()), None);
    assert_eq!(
        format!("{:?}", r),
        "VecRadix([(\"a\", NodeId(3)), (\"b\", NodeId(2))])"
    );
}

#[test]
fn edge_operations() {
    let mut e: Edge<char> = Edge::from_vec(vec!['a', 'b', 'c', 'd']);
    assert_eq!(e.len(), 4);
    assert_eq!(*e.first(), 'a');
    assert_eq!(e.common_prefix_len(&['a', 'b', 'x']), 2);
    assert_eq!(e.common_prefix_len(&['a', 'b']), 2);
    assert!(e.is_prefix_of(&['a', 'b', 'c', 'd', 'e']));
    assert!(!e.is_prefix_of(&['a', 'b', 'c']));
    let head = e.remove_prefix(1);
    assert_eq!(head.as_slice().to_vec(), vec!['a']);
    assert_eq!(e.as_slice().to_vec(), vec!['b', 'c', 'd']);
    assert_eq!(e.take_first(), 'b');
    let empty: Edge<char> = Edge::empty();
    assert_eq!(empty.len(), 0);
}
