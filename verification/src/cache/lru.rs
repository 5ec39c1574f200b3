//! A simpler cache variant that keeps the recency order in a vector.
//!
//! [`LRUCache`] implements the same least-recently-used contract as the
//! key-linked engine in [`crate::cache::memory`], but reorders by splicing a
//! vector, which costs O(n) per touch. It is a fallback for very small
//! capacities; note that its `put` cannot fail, so a zero capacity degrades
//! to a single slot instead of being reported, unlike the engine's.

use vstd::prelude::*;
use vstd::hash_map::HashMapWithView;
use vstd::std_specs::hash::obeys_key_model;
use crate::cache::traits::{Cache, Cacheable};
use crate::engine::traits::CacheKey;
use crate::model::{
    contains_key, distinct_keys, find_key, lemma_find_key, lemma_find_key_at, promote, put_model,
    remove_model,
};

verus! {

/// The views of a sequence of keys.
pub open spec fn key_views<K: View>(s: Seq<K>) -> Seq<<K as View>::V> {
    Seq::new(s.len(), |i: int| s[i]@)
}

/// A fixed-capacity least-recently-used cache ordered by a vector.
///
/// `order` holds the live keys least recently used first, so the vector's
/// last key is the most recently used and its first key is the next to be
/// evicted; `map` holds the values. The model (the `View` impl) is the same
/// as the engine's: (key view, value) pairs, most recently used first.
#[verifier::reject_recursive_types(K)]
#[verifier::reject_recursive_types(V)]
pub struct LRUCache<K: CacheKey, V: Cacheable> {
    capacity: usize,
    map: HashMapWithView<K, V>,
    order: Vec<K>,
}

impl<K: CacheKey, V: Cacheable> View for LRUCache<K, V> {
    type V = Seq<(<K as View>::V, V)>;

    closed spec fn view(&self) -> Self::V {
        let ord = self.order@;
        Seq::new(ord.len(), |i: int| (ord[ord.len() - 1 - i]@, self.map@[ord[ord.len() - 1 - i]@]))
    }
}

impl<K: CacheKey, V: Cacheable> LRUCache<K, V> {
    /// The capacity the cache was built with.
    pub closed spec fn spec_capacity(self) -> usize {
        self.capacity
    }

    /// How many entries the cache at most holds: a zero capacity degrades to
    /// one slot.
    pub open spec fn effective_capacity(self) -> int {
        if self.spec_capacity() == 0 {
            1
        } else {
            self.spec_capacity() as int
        }
    }

    /// The map holds exactly the ordered keys, which are distinct, and the
    /// order never exceeds the effective capacity.
    pub closed spec fn wf(self) -> bool {
        &&& key_views(self.order@).no_duplicates()
        &&& self.map@.dom() == key_views(self.order@).to_set()
        &&& self.order@.len() <= self.effective_capacity()
    }

    /// In a well-formed cache the model mirrors the order vector reversed.
    proof fn lemma_wf_facts(self)
        requires
            self.wf(),
        ensures
            self@.len() == self.order@.len(),
            distinct_keys(self@),
            forall|i: int|
                0 <= i < self.order@.len() ==> #[trigger] self@[i].0 == self.order@[self.order@.len()
                    - 1 - i]@,
            forall|p: int|
                0 <= p < self.order@.len() ==> find_key(self@, #[trigger] self.order@[p]@)
                    == self.order@.len() - 1 - p,
            forall|x: <K as View>::V| #[trigger]
                self.map@.dom().contains(x) <==> contains_key(self@, x),
    {
        let ord = self.order@;
        let kv = key_views(ord);
        assert(distinct_keys(self@)) by {
            assert forall|i: int, j: int| 0 <= i < j < self@.len() implies self@[i].0
                != self@[j].0 by {
                assert(kv[ord.len() - 1 - i] == self@[i].0);
                assert(kv[ord.len() - 1 - j] == self@[j].0);
            }
        }
        assert forall|p: int| 0 <= p < ord.len() implies find_key(self@, #[trigger] ord[p]@)
            == ord.len() - 1 - p by {
            assert(self@[ord.len() - 1 - p].0 == ord[p]@);
            lemma_find_key_at(self@, ord.len() - 1 - p);
        }
        assert forall|x: <K as View>::V| #[trigger]
            self.map@.dom().contains(x) <==> contains_key(self@, x) by {
            lemma_find_key(self@, x);
            if self.map@.dom().contains(x) {
                assert(kv.to_set().contains(x));
                assert(kv.contains(x));
                let j = choose|j: int| 0 <= j < kv.len() && kv[j] == x;
                assert(self@[ord.len() - 1 - j].0 == x);
                lemma_find_key_at(self@, ord.len() - 1 - j);
            }
            if contains_key(self@, x) {
                let i = find_key(self@, x);
                assert(self@[i].0 == x);
                assert(kv[ord.len() - 1 - i] == x);
                assert(kv.contains(x));
                assert(kv.to_set().contains(x));
            }
        }
    }

    /// A fresh, empty cache. The two premises are what [`HashMapWithView`]
    /// asks of a key type.
    pub fn new(capacity: usize) -> (cache: Self)
        requires
            obeys_key_model::<K>(),
            forall|k1: K, k2: K| k1@ == k2@ ==> k1 == k2,
        ensures
            cache.wf(),
            cache@ == Seq::<(<K as View>::V, V)>::empty(),
            cache.spec_capacity() == capacity,
    {
        let cache = Self {
            capacity,
            map: HashMapWithView::with_capacity(capacity),
            order: Vec::new(),
        };
        proof {
            assert(key_views(cache.order@) =~= Seq::<<K as View>::V>::empty());
            assert(cache.map@.dom() =~= key_views(cache.order@).to_set());
            assert(cache@ =~= Seq::<(<K as View>::V, V)>::empty());
        }
        cache
    }

    /// The position of `key` in the order vector, when it is there.
    fn position_of(order: &Vec<K>, key: &K) -> (pos: Option<usize>)
        ensures
            match pos {
                Some(p) => p < order@.len() && order@[p as int]@ == key@,
                None => forall|j: int| 0 <= j < order@.len() ==> order@[j]@ != key@,
            },
    {
        let mut idx: usize = 0;
        while idx < order.len()
            invariant
                idx <= order@.len(),
                forall|j: int| 0 <= j < idx ==> order@[j]@ != key@,
            decreases order@.len() - idx,
        {
            if order[idx].key_eq(key) {
                return Some(idx);
            }
            idx = idx + 1;
        }
        None
    }
}

impl<K: CacheKey, V: Cacheable> Cache<K, V> for LRUCache<K, V> {
    open spec fn model(&self) -> Seq<(<K as View>::V, V)> {
        self@
    }

    open spec fn inv(&self) -> bool {
        self.wf()
    }

    open spec fn slots(&self) -> int {
        self.effective_capacity()
    }

    fn put(&mut self, key: K, value: V) {
        proof {
            old(self).lemma_wf_facts();
            lemma_find_key(old(self)@, key@);
        }
        let ghost m0 = old(self)@;
        let ghost ord0 = self.order@;
        let ghost kview = key@;
        match Self::position_of(&self.order, &key) {
            Some(p) => {
                proof {
                    assert(key_views(ord0)[p as int] == kview);
                    assert(contains_key(m0, kview));
                    assert(find_key(m0, kview) == ord0.len() - 1 - p);
                }
                let moved = self.order.remove(p);
                self.order.push(moved);
                self.map.insert(key, value);
                proof {
                    let i = find_key(m0, kview);
                    let ord1 = self.order@;
                    ord0.remove_ensures(p as int);
                    assert(ord1.len() == ord0.len());
                    assert(ord1[ord1.len() - 1]@ == kview);
                    assert(forall|j: int|
                        0 <= j < ord1.len() - 1 ==> ord1[j] == (if j < p {
                            ord0[j]
                        } else {
                            ord0[j + 1]
                        }));
                    assert(key_views(ord1).no_duplicates()) by {
                        assert forall|a: int, b: int|
                            0 <= a < ord1.len() && 0 <= b < ord1.len() && a != b implies ord1[a]@
                            != ord1[b]@ by {
                            let oa = if a == ord1.len() - 1 {
                                p as int
                            } else if a < p {
                                a
                            } else {
                                a + 1
                            };
                            let ob = if b == ord1.len() - 1 {
                                p as int
                            } else if b < p {
                                b
                            } else {
                                b + 1
                            };
                            assert(ord1[a]@ == key_views(ord0)[oa]);
                            assert(ord1[b]@ == key_views(ord0)[ob]);
                        }
                    }
                    assert(self.map@.dom() == key_views(ord1).to_set()) by {
                        assert forall|x: <K as View>::V| key_views(ord1).contains(x) implies
                            key_views(ord0).contains(x) by {
                            let j = choose|j: int|
                                0 <= j < ord1.len() && key_views(ord1)[j] == x;
                            let oj = if j == ord1.len() - 1 {
                                p as int
                            } else if j < p {
                                j
                            } else {
                                j + 1
                            };
                            assert(key_views(ord0)[oj] == x);
                        }
                        assert forall|x: <K as View>::V| key_views(ord0).contains(x) implies
                            key_views(ord1).contains(x) by {
                            let j = choose|j: int|
                                0 <= j < ord0.len() && key_views(ord0)[j] == x;
                            if j == p {
                                assert(key_views(ord1)[ord1.len() - 1] == x);
                            } else if j < p {
                                assert(key_views(ord1)[j] == x);
                            } else {
                                assert(key_views(ord1)[j - 1] == x);
                            }
                        }
                        assert(self.map@.dom() =~= key_views(ord1).to_set());
                    }
                    assert(self@ =~= put_model(m0, old(self).effective_capacity(), kview, value))
                        by {
                        m0.remove_ensures(i);
                        m0.remove(i).insert_ensures(0, (kview, value));
                        assert forall|n: int| 0 <= n < self@.len() implies self@[n] == put_model(
                            m0,
                            old(self).effective_capacity(),
                            kview,
                            value,
                        )[n] by {
                            if n == 0 {
                                assert(self@[0].0 == ord1[ord1.len() - 1]@);
                            } else {
                                let jo = ord1.len() - 1 - n;
                                let oj = if jo < p {
                                    jo
                                } else {
                                    jo + 1
                                };
                                assert(ord1[jo] == ord0[oj]);
                                assert(self@[n].0 == ord0[oj]@);
                                assert(m0[ord0.len() - 1 - oj].0 == ord0[oj]@);
                                assert(self@[n].1 == self.map@[ord0[oj]@]);
                                assert(ord0[oj]@ != kview);
                                assert(self.map@[ord0[oj]@] == old(self).map@[ord0[oj]@]);
                                assert(put_model(
                                    m0,
                                    old(self).effective_capacity(),
                                    kview,
                                    value,
                                )[n] == m0.remove(i)[n - 1]);
                                assert(m0.remove(i)[n - 1] == (if n - 1 < i {
                                    m0[n - 1]
                                } else {
                                    m0[n]
                                }));
                                assert((if n - 1 < i {
                                    m0[n - 1]
                                } else {
                                    m0[n]
                                }) == m0[ord0.len() - 1 - oj]);
                            }
                        }
                    }
                }
            },
            None => {
                proof {
                    assert forall|j: int| 0 <= j < ord0.len() implies key_views(ord0)[j]
                        != kview by {
                        assert(ord0[j]@ != kview);
                    }
                    assert(!key_views(ord0).contains(kview));
                    assert(!contains_key(m0, kview)) by {
                        if contains_key(m0, kview) {
                            let i = find_key(m0, kview);
                            lemma_find_key(m0, kview);
                            assert(m0[i].0 == kview);
                            assert(key_views(ord0)[ord0.len() - 1 - i] == kview);
                        }
                    }
                }
                let cap = if self.capacity == 0 {
                    1
                } else {
                    self.capacity
                };
                let ghost evicted = self.order@.len() >= cap;
                if self.order.len() >= cap {
                    let evicted_key = self.order.remove(0);
                    self.map.remove(&evicted_key);
                    proof {
                        let ord1 = self.order@;
                        ord0.remove_ensures(0);
                        assert(forall|j: int| 0 <= j < ord1.len() ==> ord1[j] == ord0[j + 1]);
                        assert(key_views(ord1).no_duplicates()) by {
                            assert forall|a: int, b: int|
                                0 <= a < ord1.len() && 0 <= b < ord1.len() && a != b implies
                                ord1[a]@ != ord1[b]@ by {
                                assert(key_views(ord0)[a + 1] == ord1[a]@);
                                assert(key_views(ord0)[b + 1] == ord1[b]@);
                            }
                        }
                        assert(self.map@.dom() == key_views(ord1).to_set()) by {
                            assert forall|x: <K as View>::V| key_views(ord1).contains(x) implies
                                key_views(ord0).contains(x) && x != ord0[0]@ by {
                                let j = choose|j: int|
                                    0 <= j < ord1.len() && key_views(ord1)[j] == x;
                                assert(key_views(ord0)[j + 1] == x);
                                assert(key_views(ord0)[0] == ord0[0]@);
                            }
                            assert forall|x: <K as View>::V|
                                key_views(ord0).contains(x) && x != ord0[0]@ implies key_views(
                                ord1,
                            ).contains(x) by {
                                let j = choose|j: int|
                                    0 <= j < ord0.len() && key_views(ord0)[j] == x;
                                assert(j >= 1);
                                assert(key_views(ord1)[j - 1] == x);
                            }
                            assert(self.map@.dom() =~= key_views(ord1).to_set());
                        }
                    }
                }
                let ghost ord_mid = self.order@;
                let ghost m_mid = self@;
                proof {
                    assert(m_mid =~= (if evicted {
                        m0.drop_last()
                    } else {
                        m0
                    })) by {
                        if evicted {
                            assert forall|n: int| 0 <= n < m_mid.len() implies m_mid[n] == m0[n]
                            by {
                                assert(ord_mid[ord_mid.len() - 1 - n] == ord0[ord0.len() - 1 - n]);
                                assert(ord_mid[ord_mid.len() - 1 - n]@ != ord0[0]@);
                            }
                        }
                    }
                }
                self.order.push(key.dup());
                self.map.insert(key, value);
                proof {
                    let ord1 = self.order@;
                    assert(ord1.len() == ord_mid.len() + 1);
                    assert(ord1[ord1.len() - 1]@ == kview);
                    assert(forall|j: int| 0 <= j < ord_mid.len() ==> ord1[j] == ord_mid[j]);
                    assert(!key_views(ord_mid).contains(kview)) by {
                        if key_views(ord_mid).contains(kview) {
                            let j = choose|j: int|
                                0 <= j < ord_mid.len() && key_views(ord_mid)[j] == kview;
                            if evicted {
                                assert(ord_mid[j] == ord0[j + 1]);
                                assert(key_views(ord0)[j + 1] == kview);
                            } else {
                                assert(key_views(ord0)[j] == kview);
                            }
                        }
                    }
                    assert(key_views(ord1).no_duplicates()) by {
                        assert forall|a: int, b: int|
                            0 <= a < ord1.len() && 0 <= b < ord1.len() && a != b implies ord1[a]@
                            != ord1[b]@ by {
                            if a < ord1.len() - 1 && b < ord1.len() - 1 {
                                assert(key_views(ord_mid)[a] == ord1[a]@);
                                assert(key_views(ord_mid)[b] == ord1[b]@);
                            } else if a == ord1.len() - 1 {
                                assert(key_views(ord_mid)[b] == ord1[b]@);
                                assert(key_views(ord_mid).contains(ord1[b]@) == true);
                            } else {
                                assert(key_views(ord_mid)[a] == ord1[a]@);
                                assert(key_views(ord_mid).contains(ord1[a]@) == true);
                            }
                        }
                    }
                    assert(self.map@.dom() == key_views(ord1).to_set()) by {
                        assert forall|x: <K as View>::V| key_views(ord1).contains(x) implies (x
                            == kview || key_views(ord_mid).contains(x)) by {
                            let j = choose|j: int|
                                0 <= j < ord1.len() && key_views(ord1)[j] == x;
                            if j < ord1.len() - 1 {
                                assert(key_views(ord_mid)[j] == x);
                            }
                        }
                        assert forall|x: <K as View>::V| key_views(ord_mid).contains(x) implies
                            key_views(ord1).contains(x) by {
                            let j = choose|j: int|
                                0 <= j < ord_mid.len() && key_views(ord_mid)[j] == x;
                            assert(key_views(ord1)[j] == x);
                        }
                        assert(key_views(ord1).contains(kview)) by {
                            assert(key_views(ord1)[ord1.len() - 1] == kview);
                        }
                        assert(self.map@.dom() =~= key_views(ord1).to_set());
                    }
                    assert(self@ =~= m_mid.insert(0, (kview, value))) by {
                        m_mid.insert_ensures(0, (kview, value));
                        assert forall|n: int| 0 <= n < self@.len() implies self@[n]
                            == m_mid.insert(0, (kview, value))[n] by {
                            if n >= 1 {
                                assert(ord1[ord1.len() - 1 - n] == ord_mid[ord_mid.len() - 1 - (n
                                    - 1)]);
                                assert(ord1[ord1.len() - 1 - n]@ != kview) by {
                                    assert(key_views(ord_mid)[ord_mid.len() - n] == ord1[ord1.len()
                                        - 1 - n]@);
                                }
                            }
                        }
                    }
                    assert(self@ == put_model(m0, old(self).effective_capacity(), kview, value))
                        by {
                        let grown = m0.insert(0, (kview, value));
                        if evicted {
                            assert(grown.len() > old(self).effective_capacity());
                            assert(self@ =~= grown.drop_last()) by {
                                m0.insert_ensures(0, (kview, value));
                                m_mid.insert_ensures(0, (kview, value));
                                assert forall|n: int| 0 <= n < self@.len() implies self@[n]
                                    == grown.drop_last()[n] by {
                                    if n >= 1 {
                                        assert(m_mid[n - 1] == m0[n - 1]);
                                    }
                                }
                            }
                        } else {
                            assert(grown.len() <= old(self).effective_capacity());
                            assert(self@ =~= grown) by {
                                m0.insert_ensures(0, (kview, value));
                                m_mid.insert_ensures(0, (kview, value));
                            }
                        }
                    }
                }
            },
        }
    }

    fn get(&mut self, key: &K) -> (result: Option<&V>) {
        proof {
            old(self).lemma_wf_facts();
            lemma_find_key(old(self)@, key@);
        }
        let ghost m0 = old(self)@;
        let ghost ord0 = self.order@;
        match Self::position_of(&self.order, key) {
            Some(p) => {
                proof {
                    assert(key_views(ord0)[p as int] == key@);
                    assert(contains_key(m0, key@));
                    assert(find_key(m0, key@) == ord0.len() - 1 - p);
                }
                let moved = self.order.remove(p);
                self.order.push(moved);
                proof {
                    let i = find_key(m0, key@);
                    let ord1 = self.order@;
                    ord0.remove_ensures(p as int);
                    assert(ord1.len() == ord0.len());
                    assert(ord1[ord1.len() - 1]@ == key@);
                    assert(forall|j: int|
                        0 <= j < ord1.len() - 1 ==> ord1[j] == (if j < p {
                            ord0[j]
                        } else {
                            ord0[j + 1]
                        }));
                    assert(key_views(ord1).no_duplicates()) by {
                        assert forall|a: int, b: int|
                            0 <= a < ord1.len() && 0 <= b < ord1.len() && a != b implies ord1[a]@
                            != ord1[b]@ by {
                            let oa = if a == ord1.len() - 1 {
                                p as int
                            } else if a < p {
                                a
                            } else {
                                a + 1
                            };
                            let ob = if b == ord1.len() - 1 {
                                p as int
                            } else if b < p {
                                b
                            } else {
                                b + 1
                            };
                            assert(ord1[a]@ == key_views(ord0)[oa]);
                            assert(ord1[b]@ == key_views(ord0)[ob]);
                        }
                    }
                    assert(self.map@.dom() == key_views(ord1).to_set()) by {
                        assert forall|x: <K as View>::V| key_views(ord1).contains(x) implies
                            key_views(ord0).contains(x) by {
                            let j = choose|j: int|
                                0 <= j < ord1.len() && key_views(ord1)[j] == x;
                            let oj = if j == ord1.len() - 1 {
                                p as int
                            } else if j < p {
                                j
                            } else {
                                j + 1
                            };
                            assert(key_views(ord0)[oj] == x);
                        }
                        assert forall|x: <K as View>::V| key_views(ord0).contains(x) implies
                            key_views(ord1).contains(x) by {
                            let j = choose|j: int|
                                0 <= j < ord0.len() && key_views(ord0)[j] == x;
                            if j == p {
                                assert(key_views(ord1)[ord1.len() - 1] == x);
                            } else if j < p {
                                assert(key_views(ord1)[j] == x);
                            } else {
                                assert(key_views(ord1)[j - 1] == x);
                            }
                        }
                        assert(self.map@.dom() =~= key_views(ord1).to_set());
                    }
                    assert(self@ =~= promote(m0, key@)) by {
                        m0.remove_ensures(i);
                        m0.remove(i).insert_ensures(0, m0[i]);
                        assert(m0[i] == (key@, old(self).map@[key@]));
                        assert forall|n: int| 0 <= n < self@.len() implies self@[n] == promote(
                            m0,
                            key@,
                        )[n] by {
                            if n == 0 {
                                assert(self@[0].0 == ord1[ord1.len() - 1]@);
                            } else {
                                let jo = ord1.len() - 1 - n;
                                let oj = if jo < p {
                                    jo
                                } else {
                                    jo + 1
                                };
                                assert(ord1[jo] == ord0[oj]);
                                assert(promote(m0, key@)[n] == m0.remove(i)[n - 1]);
                                assert(m0.remove(i)[n - 1] == (if n - 1 < i {
                                    m0[n - 1]
                                } else {
                                    m0[n]
                                }));
                                assert((if n - 1 < i {
                                    m0[n - 1]
                                } else {
                                    m0[n]
                                }) == m0[ord0.len() - 1 - oj]);
                                assert(m0[ord0.len() - 1 - oj].0 == ord0[oj]@);
                            }
                        }
                    }
                    assert(self.map@.dom().contains(key@));
                }
                match self.map.get(key) {
                    Some(v) => {
                        proof {
                            let i = find_key(m0, key@);
                            assert(*v == m0[i].1);
                        }
                        Some(v)
                    },
                    None => {
                        proof {
                            assert(false);
                        }
                        None
                    },
                }
            },
            None => {
                proof {
                    assert forall|j: int| 0 <= j < ord0.len() implies key_views(ord0)[j]
                        != key@ by {
                        assert(ord0[j]@ != key@);
                    }
                    assert(!key_views(ord0).contains(key@));
                    assert(!contains_key(m0, key@)) by {
                        if contains_key(m0, key@) {
                            let i = find_key(m0, key@);
                            assert(m0[i].0 == key@);
                            assert(key_views(ord0)[ord0.len() - 1 - i] == key@);
                        }
                    }
                }
                None
            },
        }
    }

    fn remove(&mut self, key: &K) -> (result: Option<V>) {
        proof {
            old(self).lemma_wf_facts();
            lemma_find_key(old(self)@, key@);
        }
        let ghost m0 = old(self)@;
        let ghost ord0 = self.order@;
        match Self::position_of(&self.order, key) {
            Some(p) => {
                proof {
                    assert(key_views(ord0)[p as int] == key@);
                    assert(contains_key(m0, key@));
                    assert(find_key(m0, key@) == ord0.len() - 1 - p);
                }
                self.order.remove(p);
                let taken = self.map.remove(key);
                proof {
                    let i = find_key(m0, key@);
                    let ord1 = self.order@;
                    ord0.remove_ensures(p as int);
                    assert(key_views(ord1).no_duplicates()) by {
                        assert forall|a: int, b: int|
                            0 <= a < ord1.len() && 0 <= b < ord1.len() && a != b implies ord1[a]@
                            != ord1[b]@ by {
                            let oa = if a < p {
                                a
                            } else {
                                a + 1
                            };
                            let ob = if b < p {
                                b
                            } else {
                                b + 1
                            };
                            assert(ord1[a]@ == key_views(ord0)[oa]);
                            assert(ord1[b]@ == key_views(ord0)[ob]);
                        }
                    }
                    assert(self.map@.dom() == key_views(ord1).to_set()) by {
                        assert forall|x: <K as View>::V| key_views(ord1).contains(x) implies
                            key_views(ord0).contains(x) && x != key@ by {
                            let j = choose|j: int|
                                0 <= j < ord1.len() && key_views(ord1)[j] == x;
                            let oj = if j < p {
                                j
                            } else {
                                j + 1
                            };
                            assert(key_views(ord0)[oj] == x);
                            assert(key_views(ord0)[p as int] == key@);
                        }
                        assert forall|x: <K as View>::V|
                            key_views(ord0).contains(x) && x != key@ implies key_views(
                            ord1,
                        ).contains(x) by {
                            let j = choose|j: int|
                                0 <= j < ord0.len() && key_views(ord0)[j] == x;
                            if j < p {
                                assert(key_views(ord1)[j] == x);
                            } else {
                                assert(j > p);
                                assert(key_views(ord1)[j - 1] == x);
                            }
                        }
                        assert(self.map@.dom() =~= key_views(ord1).to_set());
                    }
                    assert(self@ =~= m0.remove(i)) by {
                        m0.remove_ensures(i);
                        assert forall|n: int| 0 <= n < self@.len() implies self@[n] == m0.remove(
                            i,
                        )[n] by {
                            let jo = ord1.len() - 1 - n;
                            let oj = if jo < p {
                                jo
                            } else {
                                jo + 1
                            };
                            assert(ord1[jo] == ord0[oj]);
                            assert(m0.remove(i)[n] == (if n < i {
                                m0[n]
                            } else {
                                m0[n + 1]
                            }));
                            assert((if n < i {
                                m0[n]
                            } else {
                                m0[n + 1]
                            }) == m0[ord0.len() - 1 - oj]);
                            assert(m0[ord0.len() - 1 - oj].0 == ord0[oj]@);
                            assert(ord0[oj]@ != key@);
                        }
                    }
                    assert(self@ == remove_model(m0, key@));
                    assert(taken == Some(m0[i].1));
                }
                taken
            },
            None => {
                proof {
                    assert forall|j: int| 0 <= j < ord0.len() implies key_views(ord0)[j]
                        != key@ by {
                        assert(ord0[j]@ != key@);
                    }
                    assert(!key_views(ord0).contains(key@));
                    assert(!contains_key(m0, key@)) by {
                        if contains_key(m0, key@) {
                            let i = find_key(m0, key@);
                            assert(m0[i].0 == key@);
                            assert(key_views(ord0)[ord0.len() - 1 - i] == key@);
                        }
                    }
                }
                None
            },
        }
    }

    fn len(&self) -> (n: usize) {
        proof {
            self.lemma_wf_facts();
        }
        self.order.len()
    }

    fn is_empty(&self) -> (empty: bool) {
        proof {
            self.lemma_wf_facts();
        }
        self.order.len() == 0
    }
}

} // verus!
