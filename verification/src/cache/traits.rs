//! The marker trait for cacheable values and the simple cache interface.

use vstd::prelude::*;
use crate::engine::traits::CacheKey;
use crate::model::{contains_key, find_key, promote, put_model, remove_model};

verus! {

/// What a value must offer to live in the simple cache variant.
pub trait Cacheable: Clone + core::fmt::Debug + PartialEq {

}

impl<T: Clone + core::fmt::Debug + PartialEq> Cacheable for T {

}

/// The surface of the simple cache variant, with its contract.
///
/// An implementation exposes a model — its entries as (key view, value)
/// pairs, most recently used first — an invariant its operations preserve,
/// and the number of slots it will fill; every operation then steps the model
/// by the matching transition of [`crate::model`]. Unlike
/// [`crate::engine::traits::Cache`], `put` cannot fail, so a zero capacity
/// degrades to one slot instead of being reported.
pub trait Cache<K: CacheKey, V: Cacheable>: Sized {
    /// The entries, most recently used first.
    spec fn model(&self) -> Seq<(<K as View>::V, V)>;

    /// The invariant every operation preserves.
    spec fn inv(&self) -> bool;

    /// The largest number of entries the cache will hold.
    spec fn slots(&self) -> int;

    /// Insert a key/value pair, evicting the least recently used entry when
    /// the cache is full.
    fn put(&mut self, key: K, value: V)
        requires
            old(self).inv(),
        ensures
            final(self).inv(),
            final(self).slots() == old(self).slots(),
            final(self).model() == put_model(old(self).model(), old(self).slots(), key@, value),
    ;

    /// Look a key up and, when it is present, mark it most recently used.
    fn get(&mut self, key: &K) -> (result: Option<&V>)
        requires
            old(self).inv(),
        ensures
            final(self).inv(),
            final(self).slots() == old(self).slots(),
            match result {
                Some(v) => {
                    &&& contains_key(old(self).model(), key@)
                    &&& *v == old(self).model()[find_key(old(self).model(), key@)].1
                    &&& final(self).model() == promote(old(self).model(), key@)
                },
                None => {
                    &&& !contains_key(old(self).model(), key@)
                    &&& final(self).model() == old(self).model()
                },
            },
    ;

    /// Take a key's entry out of the cache and return its value.
    fn remove(&mut self, key: &K) -> (result: Option<V>)
        requires
            old(self).inv(),
        ensures
            final(self).inv(),
            final(self).slots() == old(self).slots(),
            final(self).model() == remove_model(old(self).model(), key@),
            match result {
                Some(v) => contains_key(old(self).model(), key@) && v == old(self).model()[
                    find_key(old(self).model(), key@)
                ].1,
                None => !contains_key(old(self).model(), key@),
            },
    ;

    /// How many entries are live.
    fn len(&self) -> (n: usize)
        requires
            self.inv(),
        ensures
            n == self.model().len(),
    ;

    /// Whether no entry is live.
    fn is_empty(&self) -> (empty: bool)
        requires
            self.inv(),
        ensures
            empty == (self.model().len() == 0),
    ;
}

} // verus!
