use vstd::prelude::*;

verus! {

/// A value that carries its own key.
pub trait TrieValue<'v, E: 'v> {
    fn trie_key(&'v self) -> E;
}

} // verus!
