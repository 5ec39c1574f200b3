//! One cache entry together with its place in the recency chain.

use vstd::prelude::*;

verus! {

/// One live entry of the cache.
///
/// The recency chain is threaded through the entries by key, not by pointer:
/// `prev` names the key of the entry that is more recently used than this one
/// (toward the head), `next` the key of the entry that is less recently used
/// (toward the tail). Both are `None` at the chain's ends. The index that owns
/// the entries resolves these names on each traversal step, so the chain
/// needs no aliased mutable links.
#[derive(Debug)]
pub struct Node<K, V> {
    pub key: K,
    pub value: V,
    pub prev: Option<K>,
    pub next: Option<K>,
}

impl<K, V> Node<K, V> {
    /// A fresh entry, not yet linked into any chain.
    pub fn new(key: K, value: V) -> (node: Self)
        ensures
            node.key == key,
            node.value == value,
            node.prev is None,
            node.next is None,
    {
        Self { key, value, prev: None, next: None }
    }
}

} // verus!
