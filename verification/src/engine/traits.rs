//! The key requirements and the interface shared by the cache
//! implementations.

use vstd::prelude::*;
use vstd::std_specs::iter::IteratorSpec;
use crate::engine::node::Node;
use crate::error::CacheError;
use vstd::hash_map::HashMapWithView;

verus! {

broadcast use vstd::string::axiom_spec_iter, vstd::string::next_postcondition;

/// What a cache asks of its key type.
///
/// A key must have a mathematical view (`View`), be hashable and
/// equality-comparable, and beyond that offer two operations the key-linked
/// recency chain needs: an owned copy (`dup`), since each live key is named by
/// the index, by its neighbours' links and by the chain ends at once, and a
/// comparison (`key_eq`) that decides equality of views.
pub trait CacheKey: View + Eq + core::hash::Hash + Sized {
    /// An owned copy of this key, equal to the original.
    fn dup(&self) -> (copy: Self)
        ensures
            copy == *self,
    ;

    /// Whether the two keys are the same key, that is, have equal views.
    fn key_eq(&self, other: &Self) -> (eq: bool)
        ensures
            eq == (self@ == other@),
    ;
}

impl CacheKey for u32 {
    fn dup(&self) -> (copy: Self)
        ensures
            copy == *self,
    {
        *self
    }

    fn key_eq(&self, other: &Self) -> (eq: bool)
        ensures
            eq == (self@ == other@),
    {
        *self == *other
    }
}

impl CacheKey for u64 {
    fn dup(&self) -> (copy: Self)
        ensures
            copy == *self,
    {
        *self
    }

    fn key_eq(&self, other: &Self) -> (eq: bool)
        ensures
            eq == (self@ == other@),
    {
        *self == *other
    }
}

impl CacheKey for usize {
    fn dup(&self) -> (copy: Self)
        ensures
            copy == *self,
    {
        *self
    }

    fn key_eq(&self, other: &Self) -> (eq: bool)
        ensures
            eq == (self@ == other@),
    {
        *self == *other
    }
}

impl CacheKey for i32 {
    fn dup(&self) -> (copy: Self)
        ensures
            copy == *self,
    {
        *self
    }

    fn key_eq(&self, other: &Self) -> (eq: bool)
        ensures
            eq == (self@ == other@),
    {
        *self == *other
    }
}

impl CacheKey for i64 {
    fn dup(&self) -> (copy: Self)
        ensures
            copy == *self,
    {
        *self
    }

    fn key_eq(&self, other: &Self) -> (eq: bool)
        ensures
            eq == (self@ == other@),
    {
        *self == *other
    }
}

impl CacheKey for String {
    fn dup(&self) -> (copy: Self)
        ensures
            copy == *self,
    {
        self.clone()
    }

    fn key_eq(&self, other: &Self) -> (eq: bool)
        ensures
            eq == (self@ == other@),
    {
        self.eq(other)
    }
}

impl<'a> CacheKey for &'a str {
    fn dup(&self) -> (copy: Self)
        ensures
            copy == *self,
    {
        *self
    }

    fn key_eq(&self, other: &Self) -> (eq: bool)
        ensures
            eq == (self@ == other@),
    {
        str_eq(*self, *other)
    }
}

/// Whether two string slices hold the same characters, decided character by
/// character.
pub fn str_eq(a: &str, b: &str) -> (eq: bool)
    ensures
        eq == (a@ == b@),
{
    let mut ai = a.chars();
    let mut bi = b.chars();
    let ghost mut n: int = 0;
    loop
        invariant
            0 <= n <= a@.len(),
            n <= b@.len(),
            ai.remaining() == a@.skip(n),
            bi.remaining() == b@.skip(n),
            a@.take(n) == b@.take(n),
        decreases a@.len() - n,
    {
        let ca = ai.next();
        let cb = bi.next();
        match (ca, cb) {
            (None, None) => {
                proof {
                    assert(n == a@.len() && n == b@.len());
                    assert forall|i: int| 0 <= i < a@.len() implies a@[i] == b@[i] by {
                        assert(a@.take(n)[i] == b@.take(n)[i]);
                    }
                    assert(a@ =~= b@);
                }
                return true;
            },
            (Some(x), Some(y)) => {
                if x != y {
                    proof {
                        assert(a@.skip(n)[0] == a@[n]);
                        assert(b@.skip(n)[0] == b@[n]);
                        assert(a@[n] != b@[n]);
                    }
                    return false;
                }
                proof {
                    assert(a@.skip(n)[0] == a@[n]);
                    assert(b@.skip(n)[0] == b@[n]);
                    assert(a@.skip(n).drop_first() =~= a@.skip(n + 1));
                    assert(b@.skip(n).drop_first() =~= b@.skip(n + 1));
                    assert forall|i: int| 0 <= i < n + 1 implies #[trigger] a@.take(n + 1)[i]
                        == b@.take(n + 1)[i] by {
                        if i < n {
                            assert(a@.take(n)[i] == b@.take(n)[i]);
                        }
                    }
                    assert(a@.take(n + 1) =~= b@.take(n + 1));
                    n = n + 1;
                }
            },
            _ => {
                proof {
                    assert(a@.len() != b@.len());
                }
                return false;
            },
        }
    }
}

/// The operations every cache offers, with their shared contract.
///
/// An implementation exposes a model — its entries as (key view, value)
/// pairs, most recently used first — an invariant its operations preserve,
/// and the number of slots it will fill; every operation then steps the model
/// by the matching transition of [`crate::model`]. When `put` is owed success
/// is the concrete type's affair: the engine fails only at zero capacity, the
/// durable wrapper also rejects what its text encoding cannot carry.
pub trait Cache<K: CacheKey, V>: Sized {
    /// The entries, most recently used first.
    spec fn model(&self) -> Seq<(<K as View>::V, V)>;

    /// The invariant every operation preserves.
    spec fn inv(&self) -> bool;

    /// The largest number of entries the cache will hold.
    spec fn slots(&self) -> int;

    /// Look a key up and, when it is present, mark it most recently used.
    fn get(&mut self, key: &K) -> (result: Option<&V>)
        requires
            old(self).inv(),
        ensures
            final(self).inv(),
            final(self).slots() == old(self).slots(),
            match result {
                Some(v) => {
                    &&& crate::model::contains_key(old(self).model(), key@)
                    &&& *v == old(self).model()[crate::model::find_key(
                        old(self).model(),
                        key@,
                    )].1
                    &&& final(self).model() == crate::model::promote(old(self).model(), key@)
                },
                None => {
                    &&& !crate::model::contains_key(old(self).model(), key@)
                    &&& final(self).model() == old(self).model()
                },
            },
    ;

    /// The index that owns the entries, for read-only inspection.
    fn get_all(&self) -> (all: &HashMapWithView<K, Node<K, V>>)
        requires
            self.inv(),
        ensures
            all@.len() == self.model().len(),
    ;

    /// Insert a key/value pair, evicting the least recently used entry when
    /// the cache is full; a failed insert leaves the cache as it was.
    fn put(&mut self, key: K, value: V) -> (result: Result<(), CacheError>)
        requires
            old(self).inv(),
        ensures
            final(self).inv(),
            final(self).slots() == old(self).slots(),
            match result {
                Ok(_) => final(self).model() == crate::model::put_model(
                    old(self).model(),
                    old(self).slots(),
                    key@,
                    value,
                ),
                Err(_) => final(self).model() == old(self).model(),
            },
            old(self).slots() == 0 ==> result is Err,
    ;

    /// Take a key's entry out of the cache and return its value.
    fn remove(&mut self, key: &K) -> (result: Option<V>)
        requires
            old(self).inv(),
        ensures
            final(self).inv(),
            final(self).slots() == old(self).slots(),
            final(self).model() == crate::model::remove_model(old(self).model(), key@),
            match result {
                Some(v) => crate::model::contains_key(old(self).model(), key@) && v == old(
                    self,
                ).model()[crate::model::find_key(old(self).model(), key@)].1,
                None => !crate::model::contains_key(old(self).model(), key@),
            },
    ;

    /// Drop every entry.
    fn clear(&mut self)
        requires
            old(self).inv(),
        ensures
            final(self).inv(),
            final(self).slots() == old(self).slots(),
            final(self).model() == Seq::<(<K as View>::V, V)>::empty(),
    ;

    /// How many entries are live.
    fn len(&self) -> (n: usize)
        requires
            self.inv(),
        ensures
            n == self.model().len(),
    ;

    /// Whether no entry is live.
    fn is_empty(&self) -> (empty: bool)
        requires
            self.inv(),
        ensures
            empty == (self.model().len() == 0),
    ;

    /// How many entries the cache can hold.
    fn capacity(&self) -> (c: usize)
        ensures
            c as int == self.slots(),
    ;
}

} // verus!
