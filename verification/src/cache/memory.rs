//! The eviction engine: a fixed-capacity cache with least-recently-used
//! eviction, O(1) operations, and a key-indirected recency chain.

use vstd::prelude::*;
use vstd::hash_map::HashMapWithView;
use vstd::std_specs::hash::obeys_key_model;
use crate::engine::node::Node;
use crate::engine::traits::{Cache, CacheKey};
use crate::error::CacheError;
use crate::model::{
    contains_key, distinct_keys, find_key, lemma_find_key, lemma_find_key_at, promote, put_model,
    remove_model,
};

verus! {

broadcast use vstd::hash_map::axiom_hash_map_with_view_spec_len;

/// The view of an optional key: the key's view, when one is there.
pub open spec fn opt_view<K: View>(o: Option<K>) -> Option<<K as View>::V> {
    match o {
        Some(k) => Some(k@),
        None => None,
    }
}

/// The eviction engine.
///
/// The index (`storage`) is the single owner of the entries; the recency
/// order is threaded through them as a doubly linked chain of *keys*: each
/// entry names its more-recently-used neighbour in `prev` and its
/// less-recently-used neighbour in `next`, and `head`/`tail` name the chain's
/// ends. Every link is resolved through the index, so each operation costs
/// O(1) lookups and no entry is ever aliased.
///
/// The model (the `View` impl) is the sequence of (key view, value) pairs in
/// most-recently-used-first order; `order` carries that order in ghost form.
#[verifier::reject_recursive_types(K)]
#[verifier::reject_recursive_types(V)]
pub struct MemoryCache<K: CacheKey, V> {
    capacity: usize,
    storage: HashMapWithView<K, Node<K, V>>,
    head: Option<K>,
    tail: Option<K>,
    order: Ghost<Seq<<K as View>::V>>,
}

impl<K: CacheKey, V> View for MemoryCache<K, V> {
    type V = Seq<(<K as View>::V, V)>;

    closed spec fn view(&self) -> Self::V {
        Seq::new(
            self.order@.len(),
            |i: int| (self.order@[i], self.storage@[self.order@[i]].value),
        )
    }
}

impl<K: CacheKey, V> MemoryCache<K, V> {
    /// How many entries the cache can hold.
    pub closed spec fn spec_capacity(self) -> usize {
        self.capacity
    }

    /// The entries are exactly the chain's keys, each entry records its own
    /// key, the chain's links mirror the recency order, and `head`/`tail`
    /// name the order's ends.
    pub closed spec fn wf(self) -> bool {
        let ord = self.order@;
        &&& ord.no_duplicates()
        &&& self.storage@.dom() == ord.to_set()
        &&& ord.len() <= self.capacity
        &&& forall|i: int|
            0 <= i < ord.len() ==> {
                let node = self.storage@[#[trigger] ord[i]];
                &&& node.key@ == ord[i]
                &&& opt_view(node.prev) == (if i == 0 {
                    None::<<K as View>::V>
                } else {
                    Some(ord[i - 1])
                })
                &&& opt_view(node.next) == (if i == ord.len() - 1 {
                    None::<<K as View>::V>
                } else {
                    Some(ord[i + 1])
                })
            }
        &&& opt_view(self.head) == (if ord.len() == 0 {
            None::<<K as View>::V>
        } else {
            Some(ord[0])
        })
        &&& opt_view(self.tail) == (if ord.len() == 0 {
            None::<<K as View>::V>
        } else {
            Some(ord[ord.len() - 1])
        })
    }

    /// A well-formed cache has as many entries in its index as in its chain,
    /// never more than its capacity, its model's keys are distinct, and a key
    /// is in the model exactly when it is in the index.
    proof fn lemma_wf_facts(self)
        requires
            self.wf(),
        ensures
            self.storage@.len() == self.order@.len(),
            self@.len() == self.order@.len(),
            self@.len() <= self.spec_capacity(),
            distinct_keys(self@),
            forall|kv: <K as View>::V| #[trigger]
                self.storage@.dom().contains(kv) <==> contains_key(self@, kv),
            forall|i: int|
                0 <= i < self.order@.len() ==> find_key(self@, self.order@[i]) == i,
    {
        self.order@.unique_seq_to_set();
        assert(self.storage@.dom().len() == self.order@.to_set().len());
        assert(distinct_keys(self@)) by {
            assert forall|i: int, j: int| 0 <= i < j < self@.len() implies self@[i].0 != self@[j].0
            by {
                assert(self.order@[i] == self@[i].0);
                assert(self.order@[j] == self@[j].0);
            }
        }
        assert forall|i: int| 0 <= i < self.order@.len() implies find_key(self@, self.order@[i])
            == i by {
            lemma_find_key_at(self@, i);
        }
        assert forall|kv: <K as View>::V| #[trigger]
            self.storage@.dom().contains(kv) <==> contains_key(self@, kv) by {
            lemma_find_key(self@, kv);
            if self.storage@.dom().contains(kv) {
                assert(self.order@.to_set().contains(kv));
                assert(self.order@.contains(kv));
                let i = choose|i: int| 0 <= i < self.order@.len() && self.order@[i] == kv;
                lemma_find_key_at(self@, i);
            }
            if contains_key(self@, kv) {
                assert(self@[find_key(self@, kv)].0 == kv);
                assert(self.order@.contains(kv));
                assert(self.order@.to_set().contains(kv));
            }
        }
    }

    /// What well-formedness gives a caller: the model's keys are distinct and
    /// the model fits the capacity.
    pub(crate) proof fn lemma_model_facts(self)
        requires
            self.wf(),
        ensures
            distinct_keys(self@),
            self@.len() <= self.spec_capacity(),
    {
        self.lemma_wf_facts();
    }

    /// A fresh, empty engine.
    ///
    /// The two premises are what [`HashMapWithView`] asks of a key type: its
    /// hashing must obey the standard key model, and its view must determine
    /// it. A capacity of zero is accepted here, as construction cannot fail;
    /// `put` then reports the capacity error.
    pub fn new(capacity: usize) -> (cache: Self)
        requires
            obeys_key_model::<K>(),
            forall|k1: K, k2: K| k1@ == k2@ ==> k1 == k2,
        ensures
            cache.wf(),
            cache@ == Seq::<(<K as View>::V, V)>::empty(),
            cache.spec_capacity() == capacity,
    {
        let cache = Self {
            capacity,
            storage: HashMapWithView::with_capacity(capacity),
            head: None,
            tail: None,
            order: Ghost(Seq::empty()),
        };
        proof {
            assert(cache.storage@.dom() =~= cache.order@.to_set());
            assert(cache@ =~= Seq::<(<K as View>::V, V)>::empty());
        }
        cache
    }

    /// How many entries are live.
    pub fn len(&self) -> (n: usize)
        requires
            self.wf(),
        ensures
            n == self@.len(),
    {
        proof {
            self.lemma_wf_facts();
        }
        self.storage.len()
    }

    /// How many entries the cache can hold.
    pub fn capacity(&self) -> (c: usize)
        ensures
            c == self.spec_capacity(),
    {
        self.capacity
    }

    /// Whether no entry is live.
    pub fn is_empty(&self) -> (empty: bool)
        requires
            self.wf(),
        ensures
            empty == (self@.len() == 0),
    {
        self.len() == 0
    }

    /// A sequence with one occurrence of each element stays duplicate-free
    /// when one element is removed, and the removed element is gone.
    proof fn lemma_remove_distinct(s: Seq<<K as View>::V>, i: int)
        requires
            s.no_duplicates(),
            0 <= i < s.len(),
        ensures
            s.remove(i).no_duplicates(),
            forall|j: int| 0 <= j < s.remove(i).len() ==> s.remove(i)[j] != s[i],
    {
        s.remove_ensures(i);
        assert forall|a: int, b: int|
            0 <= a < s.remove(i).len() && 0 <= b < s.remove(i).len() && a != b implies s.remove(
            i,
        )[a] != s.remove(i)[b] by {
            assert(s.remove(i)[a] == (if a < i {
                s[a]
            } else {
                s[a + 1]
            }));
            assert(s.remove(i)[b] == (if b < i {
                s[b]
            } else {
                s[b + 1]
            }));
        }
        assert forall|j: int| 0 <= j < s.remove(i).len() implies s.remove(i)[j] != s[i] by {
            assert(s.remove(i)[j] == (if j < i {
                s[j]
            } else {
                s[j + 1]
            }));
        }
    }

    /// Unlink `key`'s entry from its chain position and relink it at the
    /// head, using only the entry's own neighbour links.
    fn move_to_front(&mut self, key: &K)
        requires
            old(self).wf(),
            contains_key(old(self)@, key@),
        ensures
            final(self).wf(),
            final(self)@ == promote(old(self)@, key@),
            final(self).spec_capacity() == old(self).spec_capacity(),
    {
        proof {
            old(self).lemma_wf_facts();
            lemma_find_key(old(self)@, key@);
        }
        let ghost ord0 = self.order@;
        let ghost m0 = old(self)@;
        let ghost i = find_key(m0, key@);
        proof {
            assert(ord0[i] == key@);
            assert(self.storage@.dom().contains(key@));
        }
        let at_head = match self.storage.get(key) {
            Some(node) => node.prev.is_none(),
            None => true,
        };
        if at_head {
            proof {
                assert(i == 0);
                ord0.remove_ensures(0);
                assert(promote(m0, key@) =~= m0);
            }
            return;
        }
        proof {
            assert(i >= 1);
        }
        let node = self.storage.remove(key).unwrap();
        let Node { key: nkey, value: nvalue, prev: nprev, next: nnext } = node;
        proof {
            assert(nkey@ == key@);
            assert(opt_view(nprev) == Some(ord0[i - 1]));
        }
        let pk = nprev.unwrap();
        match nnext {
            Some(nk) => {
                proof {
                    assert(nk@ == ord0[i + 1]);
                    assert(i < ord0.len() - 1);
                }
                let mut nn = self.storage.remove(&nk).unwrap();
                let mut pn = self.storage.remove(&pk).unwrap();
                pn.next = Some(nk);
                nn.prev = Some(pk.dup());
                let nnk = nn.key.dup();
                self.storage.insert(nnk, nn);
                self.storage.insert(pk, pn);
            },
            None => {
                proof {
                    assert(i == ord0.len() - 1);
                }
                let mut pn = self.storage.remove(&pk).unwrap();
                pn.next = None;
                self.tail = Some(pk.dup());
                self.storage.insert(pk, pn);
            },
        }
        let hk = self.head.as_ref().unwrap();
        let mut ohn = self.storage.remove(hk).unwrap();
        ohn.prev = Some(nkey.dup());
        let head_copy = ohn.key.dup();
        let ohk = ohn.key.dup();
        self.storage.insert(ohk, ohn);
        self.head = Some(nkey.dup());
        let new_node = Node { key: nkey.dup(), value: nvalue, prev: None, next: Some(head_copy) };
        self.storage.insert(nkey, new_node);
        self.order = Ghost(ord0.remove(i).insert(0, key@));
        proof {
            let ord1 = self.order@;
            ord0.remove_ensures(i);
            ord0.remove(i).insert_ensures(0, key@);
            Self::lemma_remove_distinct(ord0, i);
            assert(ord1.len() == ord0.len());
            assert(ord1[0] == key@);
            assert(forall|j: int| 1 <= j < ord1.len() ==> ord1[j] == ord0.remove(i)[j - 1]);
            assert(ord1.no_duplicates()) by {
                assert forall|a: int, b: int|
                    0 <= a < ord1.len() && 0 <= b < ord1.len() && a != b implies ord1[a]
                    != ord1[b] by {
                    if a >= 1 && b >= 1 {
                        assert(ord1[a] == ord0.remove(i)[a - 1]);
                        assert(ord1[b] == ord0.remove(i)[b - 1]);
                    }
                }
            }
            assert(self.storage@.dom() == ord1.to_set()) by {
                assert forall|x: <K as View>::V| ord1.contains(x) implies ord0.contains(x) by {
                    let j = choose|j: int| 0 <= j < ord1.len() && ord1[j] == x;
                    if j == 0 {
                        assert(ord0[i] == x);
                    } else if j - 1 < i {
                        assert(ord0[j - 1] == x);
                    } else {
                        assert(ord0[j] == x);
                    }
                }
                assert forall|x: <K as View>::V| ord0.contains(x) implies ord1.contains(x) by {
                    let j = choose|j: int| 0 <= j < ord0.len() && ord0[j] == x;
                    if j == i {
                        assert(ord1[0] == x);
                    } else if j < i {
                        assert(ord1[j + 1] == x);
                    } else {
                        assert(ord1[j] == x);
                    }
                }
                assert forall|x: <K as View>::V| #[trigger]
                    self.storage@.dom().contains(x) <==> ord0.contains(x) by {
                    assert(old(self).storage@.dom().contains(x) <==> ord0.to_set().contains(x));
                }
                assert(self.storage@.dom() =~= ord1.to_set());
            }
            assert forall|j: int| 0 <= j < ord1.len() implies {
                let node = self.storage@[#[trigger] ord1[j]];
                &&& node.key@ == ord1[j]
                &&& opt_view(node.prev) == (if j == 0 {
                    None::<<K as View>::V>
                } else {
                    Some(ord1[j - 1])
                })
                &&& opt_view(node.next) == (if j == ord1.len() - 1 {
                    None::<<K as View>::V>
                } else {
                    Some(ord1[j + 1])
                })
            } by {
                if j == 0 {
                    assert(self.storage@[ord1[0]] == new_node);
                    assert(ord1[1] == ord0.remove(i)[0]);
                    assert(ord0.remove(i)[0] == ord0[0]);
                } else {
                    let oj = if j - 1 < i {
                        j - 1
                    } else {
                        j
                    };
                    assert(ord1[j] == ord0[oj]);
                    assert(oj != i);
                    if j == 1 {
                        assert(oj == 0);
                        assert(self.storage@[ord1[j]] == self.storage@[ord0[0]]);
                    }
                    if j >= 2 {
                        assert(ord1[j - 1] == ord0[if j - 2 < i {
                            j - 2
                        } else {
                            j - 1
                        }]);
                    }
                    if j < ord1.len() - 1 {
                        assert(ord1[j + 1] == ord0[if j < i {
                            j
                        } else {
                            j + 1
                        }]);
                    }
                }
            }
            assert(self@ =~= promote(m0, key@)) by {
                assert(promote(m0, key@) == m0.remove(i).insert(0, m0[i]));
                m0.remove_ensures(i);
                m0.remove(i).insert_ensures(0, m0[i]);
                assert(m0[i] == (key@, nvalue));
                assert forall|j: int| 0 <= j < ord1.len() implies self@[j] == promote(m0, key@)[j]
                by {
                    if j == 0 {
                    } else {
                        let oj = if j - 1 < i {
                            j - 1
                        } else {
                            j
                        };
                        assert(ord1[j] == ord0[oj]);
                        assert(promote(m0, key@)[j] == m0.remove(i)[j - 1]);
                        assert(m0.remove(i)[j - 1] == m0[oj]);
                        assert(self@[j] == (ord1[j], self.storage@[ord1[j]].value));
                    }
                }
            }
        }
    }

    /// Look a key up; when it is present, promote it to most recently used
    /// and hand its value back. An absent key changes nothing.
    pub fn get(&mut self, key: &K) -> (result: Option<&V>)
        requires
            old(self).wf(),
        ensures
            final(self).wf(),
            final(self).spec_capacity() == old(self).spec_capacity(),
            match result {
                Some(v) => {
                    &&& contains_key(old(self)@, key@)
                    &&& *v == old(self)@[find_key(old(self)@, key@)].1
                    &&& final(self)@ == promote(old(self)@, key@)
                },
                None => {
                    &&& !contains_key(old(self)@, key@)
                    &&& final(self)@ == old(self)@
                },
            },
    {
        proof {
            old(self).lemma_wf_facts();
            lemma_find_key(old(self)@, key@);
        }
        if self.storage.contains_key(key) {
            self.move_to_front(key);
            proof {
                self.lemma_wf_facts();
                lemma_find_key(self@, key@);
                assert(self@[0] == promote(old(self)@, key@)[0]);
                assert(self.order@[0] == key@);
                assert(self.storage@.dom().contains(key@));
            }
            match self.storage.get(key) {
                Some(node) => {
                    proof {
                        let i = find_key(old(self)@, key@);
                        old(self)@.remove_ensures(i);
                        old(self)@.remove(i).insert_ensures(0, old(self)@[i]);
                        assert(promote(old(self)@, key@)[0] == old(self)@[i]);
                        assert(node.value == self@[0].1);
                    }
                    Some(&node.value)
                },
                None => {
                    proof {
                        assert(false);
                    }
                    None
                },
            }
        } else {
            None
        }
    }

    /// Insert a key/value pair and mark it most recently used.
    ///
    /// A present key keeps its entry and only has its value replaced; a fresh
    /// key gets a new entry at the head of the chain, and when that exceeds
    /// the capacity the tail entry — the least recently used — is evicted.
    /// The one failure is a capacity of zero, fixed at construction time.
    pub fn put(&mut self, key: K, value: V) -> (result: Result<(), CacheError>)
        requires
            old(self).wf(),
        ensures
            final(self).wf(),
            final(self).spec_capacity() == old(self).spec_capacity(),
            old(self).spec_capacity() == 0 ==> {
                &&& result matches Err(e) && e is CapacityError
                &&& final(self)@ == old(self)@
            },
            old(self).spec_capacity() > 0 ==> {
                &&& result is Ok
                &&& final(self)@ == put_model(
                    old(self)@,
                    old(self).spec_capacity() as int,
                    key@,
                    value,
                )
            },
    {
        proof {
            old(self).lemma_wf_facts();
            lemma_find_key(old(self)@, key@);
        }
        if self.capacity == 0 {
            return Err(CacheError::CapacityError("cache capacity cannot be 0".to_owned()));
        }
        let ghost ord0 = self.order@;
        let ghost m0 = old(self)@;
        let ghost i = find_key(m0, key@);
        let ghost kv = key@;
        if self.storage.contains_key(&key) {
            proof {
                assert(contains_key(m0, kv));
                assert(ord0[i] == kv);
            }
            let mut node = self.storage.remove(&key).unwrap();
            node.value = value;
            let kd = key.dup();
            self.storage.insert(key, node);
            proof {
                assert(self.storage@.dom() =~= ord0.to_set());
                assert(self.wf());
                assert(self@ =~= m0.update(i, (kv, node.value)));
            }
            let ghost m1 = self@;
            proof {
                self.lemma_wf_facts();
                assert(find_key(m1, kv) == i);
            }
            self.move_to_front(&kd);
            proof {
                m0.remove_ensures(i);
                m1.remove_ensures(i);
                assert(m1.remove(i) =~= m0.remove(i));
                assert(m1[i] == (kv, node.value));
                assert(self@ == put_model(m0, old(self).spec_capacity() as int, kv, node.value));
            }
            return Ok(());
        }
        proof {
            assert(!contains_key(m0, kv));
            assert(!ord0.to_set().contains(kv));
            assert(!ord0.contains(kv));
        }
        let new_next: Option<K> = match &self.head {
            Some(h) => Some(h.dup()),
            None => None,
        };
        if self.head.is_some() {
            let hk = self.head.as_ref().unwrap();
            let mut ohn = self.storage.remove(hk).unwrap();
            ohn.prev = Some(key.dup());
            let ohk = ohn.key.dup();
            self.storage.insert(ohk, ohn);
        } else {
            self.tail = Some(key.dup());
        }
        self.head = Some(key.dup());
        let node = Node { key: key.dup(), value, prev: None, next: new_next };
        let ghost stored_value = node.value;
        self.storage.insert(key, node);
        self.order = Ghost(ord0.insert(0, kv));
        proof {
            let ord1 = self.order@;
            ord0.insert_ensures(0, kv);
            assert(ord1.len() == ord0.len() + 1);
            assert(ord1[0] == kv);
            assert(forall|j: int| 1 <= j < ord1.len() ==> ord1[j] == ord0[j - 1]);
            assert(ord1.no_duplicates()) by {
                assert forall|a: int, b: int|
                    0 <= a < ord1.len() && 0 <= b < ord1.len() && a != b implies ord1[a]
                    != ord1[b] by {
                    if a >= 1 && b >= 1 {
                        assert(ord1[a] == ord0[a - 1]);
                        assert(ord1[b] == ord0[b - 1]);
                    }
                }
            }
            assert(self.storage@.dom() == ord1.to_set()) by {
                assert forall|x: <K as View>::V| ord1.contains(x) implies (x == kv || ord0.contains(
                    x,
                )) by {
                    let j = choose|j: int| 0 <= j < ord1.len() && ord1[j] == x;
                    if j >= 1 {
                        assert(ord0[j - 1] == x);
                    }
                }
                assert forall|x: <K as View>::V| ord0.contains(x) implies ord1.contains(x) by {
                    let j = choose|j: int| 0 <= j < ord0.len() && ord0[j] == x;
                    assert(ord1[j + 1] == x);
                }
                assert(ord1.contains(kv));
                assert(self.storage@.dom() =~= ord1.to_set());
            }
            assert forall|j: int| 0 <= j < ord1.len() implies {
                let node = self.storage@[#[trigger] ord1[j]];
                &&& node.key@ == ord1[j]
                &&& opt_view(node.prev) == (if j == 0 {
                    None::<<K as View>::V>
                } else {
                    Some(ord1[j - 1])
                })
                &&& opt_view(node.next) == (if j == ord1.len() - 1 {
                    None::<<K as View>::V>
                } else {
                    Some(ord1[j + 1])
                })
            } by {
                if j >= 1 {
                    assert(ord1[j] == ord0[j - 1]);
                    assert(ord1[j] != kv);
                    if j >= 2 {
                        assert(ord1[j - 1] == ord0[j - 2]);
                    }
                    if j < ord1.len() - 1 {
                        assert(ord1[j + 1] == ord0[j]);
                    }
                }
            }
            assert(self@ =~= m0.insert(0, (kv, stored_value))) by {
                m0.insert_ensures(0, (kv, stored_value));
                assert forall|j: int| 0 <= j < ord1.len() implies self@[j] == m0.insert(
                    0,
                    (kv, stored_value),
                )[j] by {
                    if j >= 1 {
                        assert(ord1[j] == ord0[j - 1]);
                        assert(m0.insert(0, (kv, stored_value))[j] == m0[j - 1]);
                    }
                }
            }
        }
        let ghost grown = m0.insert(0, (kv, stored_value));
        if self.storage.len() > self.capacity {
            proof {
                self.order@.unique_seq_to_set();
                assert(self.order@.len() >= 2);
            }
            let ghost ord1 = self.order@;
            let tkr = self.tail.as_ref().unwrap();
            let tn = self.storage.remove(tkr).unwrap();
            proof {
                assert(tn.key@ == ord1[ord1.len() - 1]);
                assert(opt_view(tn.prev) == Some(ord1[ord1.len() - 2]));
            }
            let ntk = tn.prev.unwrap();
            let mut ntn = self.storage.remove(&ntk).unwrap();
            ntn.next = None;
            let t2 = ntk.dup();
            self.storage.insert(ntk, ntn);
            self.tail = Some(t2);
            self.order = Ghost(ord1.drop_last());
            proof {
                let ord2 = self.order@;
                assert(ord2.len() == ord1.len() - 1);
                assert(forall|j: int| 0 <= j < ord2.len() ==> ord2[j] == ord1[j]);
                assert(ord2.no_duplicates()) by {
                    assert forall|a: int, b: int|
                        0 <= a < ord2.len() && 0 <= b < ord2.len() && a != b implies ord2[a]
                        != ord2[b] by {
                        assert(ord2[a] == ord1[a]);
                        assert(ord2[b] == ord1[b]);
                    }
                }
                assert(self.storage@.dom() == ord2.to_set()) by {
                    assert forall|x: <K as View>::V| ord2.contains(x) implies ord1.contains(x)
                        && x != ord1[ord1.len() - 1] by {
                        let j = choose|j: int| 0 <= j < ord2.len() && ord2[j] == x;
                        assert(ord1[j] == x);
                    }
                    assert forall|x: <K as View>::V|
                        ord1.contains(x) && x != ord1[ord1.len() - 1] implies ord2.contains(x) by {
                        let j = choose|j: int| 0 <= j < ord1.len() && ord1[j] == x;
                        assert(j < ord1.len() - 1);
                        assert(ord2[j] == x);
                    }
                    assert(self.storage@.dom() =~= ord2.to_set());
                }
                assert forall|j: int| 0 <= j < ord2.len() implies {
                    let node = self.storage@[#[trigger] ord2[j]];
                    &&& node.key@ == ord2[j]
                    &&& opt_view(node.prev) == (if j == 0 {
                        None::<<K as View>::V>
                    } else {
                        Some(ord2[j - 1])
                    })
                    &&& opt_view(node.next) == (if j == ord2.len() - 1 {
                        None::<<K as View>::V>
                    } else {
                        Some(ord2[j + 1])
                    })
                } by {
                    assert(ord2[j] == ord1[j]);
                    if j >= 1 {
                        assert(ord2[j - 1] == ord1[j - 1]);
                    }
                    if j < ord2.len() - 1 {
                        assert(ord2[j + 1] == ord1[j + 1]);
                    }
                }
                assert(self@ =~= grown.drop_last());
                assert(grown.len() > old(self).spec_capacity() as int);
            }
        } else {
            proof {
                self.order@.unique_seq_to_set();
                assert(grown.len() <= old(self).spec_capacity() as int);
            }
        }
        proof {
            assert(self@ == put_model(m0, old(self).spec_capacity() as int, kv, stored_value));
        }
        Ok(())
    }

    /// Splice a key's entry out of the chain and hand its value back. An
    /// absent key changes nothing.
    #[verifier::rlimit(50)]
    pub fn remove(&mut self, key: &K) -> (result: Option<V>)
        requires
            old(self).wf(),
        ensures
            final(self).wf(),
            final(self).spec_capacity() == old(self).spec_capacity(),
            final(self)@ == remove_model(old(self)@, key@),
            match result {
                Some(v) => contains_key(old(self)@, key@) && v == old(self)@[find_key(
                    old(self)@,
                    key@,
                )].1,
                None => !contains_key(old(self)@, key@),
            },
    {
        proof {
            old(self).lemma_wf_facts();
            lemma_find_key(old(self)@, key@);
        }
        let ghost ord0 = self.order@;
        let ghost m0 = old(self)@;
        let ghost i = find_key(m0, key@);
        match self.storage.remove(key) {
            None => {
                proof {
                    assert(!contains_key(m0, key@));
                }
                None
            },
            Some(node) => {
                let Node { key: nkey, value: nvalue, prev: nprev, next: nnext } = node;
                proof {
                    assert(contains_key(m0, key@));
                    assert(ord0[i] == key@);
                    assert(nvalue == m0[i].1);
                }
                match (nprev, nnext) {
                    (Some(pk), Some(nk)) => {
                        proof {
                            assert(pk@ == ord0[i - 1]);
                            assert(nk@ == ord0[i + 1]);
                        }
                        let mut nn = self.storage.remove(&nk).unwrap();
                        let mut pn = self.storage.remove(&pk).unwrap();
                        pn.next = Some(nk);
                        nn.prev = Some(pk.dup());
                        let nnk = nn.key.dup();
                        self.storage.insert(nnk, nn);
                        self.storage.insert(pk, pn);
                    },
                    (Some(pk), None) => {
                        proof {
                            assert(i == ord0.len() - 1);
                            assert(pk@ == ord0[i - 1]);
                        }
                        let mut pn = self.storage.remove(&pk).unwrap();
                        pn.next = None;
                        self.tail = Some(pk.dup());
                        self.storage.insert(pk, pn);
                    },
                    (None, Some(nk)) => {
                        proof {
                            assert(i == 0);
                            assert(nk@ == ord0[1]);
                        }
                        let mut nn = self.storage.remove(&nk).unwrap();
                        nn.prev = None;
                        let hd = nk.dup();
                        self.storage.insert(nk, nn);
                        self.head = Some(hd);
                    },
                    (None, None) => {
                        proof {
                            assert(i == 0 && ord0.len() == 1);
                        }
                        self.head = None;
                        self.tail = None;
                    },
                }
                self.order = Ghost(ord0.remove(i));
                proof {
                    let ord1 = self.order@;
                    ord0.remove_ensures(i);
                    Self::lemma_remove_distinct(ord0, i);
                    assert(self.storage@.dom() == ord1.to_set()) by {
                        assert forall|x: <K as View>::V| ord1.contains(x) implies ord0.contains(x)
                            && x != key@ by {
                            let j = choose|j: int| 0 <= j < ord1.len() && ord1[j] == x;
                            assert(ord1[j] == (if j < i {
                                ord0[j]
                            } else {
                                ord0[j + 1]
                            }));
                        }
                        assert forall|x: <K as View>::V| ord0.contains(x) && x != key@ implies
                            ord1.contains(x) by {
                            let j = choose|j: int| 0 <= j < ord0.len() && ord0[j] == x;
                            if j < i {
                                assert(ord1[j] == x);
                            } else {
                                assert(j > i);
                                assert(ord1[j - 1] == x);
                            }
                        }
                        assert(self.storage@.dom() =~= ord1.to_set());
                    }
                    assert forall|j: int| 0 <= j < ord1.len() implies {
                        let node = self.storage@[#[trigger] ord1[j]];
                        &&& node.key@ == ord1[j]
                        &&& opt_view(node.prev) == (if j == 0 {
                            None::<<K as View>::V>
                        } else {
                            Some(ord1[j - 1])
                        })
                        &&& opt_view(node.next) == (if j == ord1.len() - 1 {
                            None::<<K as View>::V>
                        } else {
                            Some(ord1[j + 1])
                        })
                    } by {
                        let oj = if j < i {
                            j
                        } else {
                            j + 1
                        };
                        assert(ord1[j] == ord0[oj]);
                        if j >= 1 {
                            assert(ord1[j - 1] == ord0[if j - 1 < i {
                                j - 1
                            } else {
                                j
                            }]);
                        }
                        if j < ord1.len() - 1 {
                            assert(ord1[j + 1] == ord0[if j + 1 < i {
                                j + 1
                            } else {
                                j + 2
                            }]);
                        }
                    }
                    assert(self@ =~= m0.remove(i)) by {
                        m0.remove_ensures(i);
                        assert forall|j: int| 0 <= j < ord1.len() implies self@[j] == m0.remove(
                            i,
                        )[j] by {
                            let oj = if j < i {
                                j
                            } else {
                                j + 1
                            };
                            assert(ord1[j] == ord0[oj]);
                            assert(m0.remove(i)[j] == m0[oj]);
                        }
                    }
                    assert(self@ == remove_model(m0, key@));
                }
                Some(nvalue)
            },
        }
    }

    /// The live entries in most-recently-used-first order, without touching
    /// the recency order. This is the read-only enumeration the persistence
    /// collaborator serializes.
    pub fn snapshot(&self) -> (pairs: Vec<(&K, &V)>)
        requires
            self.wf(),
        ensures
            pairs@.len() == self@.len(),
            forall|i: int|
                0 <= i < pairs@.len() ==> (#[trigger] pairs@[i]).0@ == self@[i].0 && *pairs@[i].1
                    == self@[i].1,
    {
        proof {
            self.lemma_wf_facts();
        }
        let ghost ord = self.order@;
        let mut pairs: Vec<(&K, &V)> = Vec::new();
        let mut cursor: Option<&K> = self.head.as_ref();
        loop
            invariant
                self.wf(),
                ord == self.order@,
                pairs@.len() <= ord.len(),
                match cursor {
                    Some(k) => pairs@.len() < ord.len() && k@ == ord[pairs@.len() as int],
                    None => pairs@.len() == ord.len(),
                },
                forall|i: int|
                    0 <= i < pairs@.len() ==> (#[trigger] pairs@[i]).0@ == self@[i].0
                        && *pairs@[i].1 == self@[i].1,
            ensures
                pairs@.len() == ord.len(),
            decreases ord.len() - pairs@.len(),
        {
            match cursor {
                None => {
                    break ;
                },
                Some(k) => {
                    proof {
                        let j = pairs@.len() as int;
                        assert(ord.contains(k@));
                        assert(ord.to_set().contains(k@));
                        assert(self.storage@.dom().contains(k@));
                    }
                    let node = match self.storage.get(k) {
                        Some(node) => node,
                        None => {
                            proof {
                                assert(false);
                            }
                            break ;
                        },
                    };
                    pairs.push((&node.key, &node.value));
                    cursor = node.next.as_ref();
                },
            }
        }
        pairs
    }

    /// The index that owns the entries, for read-only inspection.
    pub fn get_all(&self) -> (all: &HashMapWithView<K, Node<K, V>>)
        requires
            self.wf(),
        ensures
            all@.len() == self@.len(),
            forall|i: int|
                0 <= i < self@.len() ==> all@.contains_key(#[trigger] self@[i].0)
                    && all@[self@[i].0].value == self@[i].1,
    {
        proof {
            self.lemma_wf_facts();
            assert forall|i: int| 0 <= i < self@.len() implies self.storage@.contains_key(
                #[trigger] self@[i].0,
            ) && self.storage@[self@[i].0].value == self@[i].1 by {
                assert(self@[i].0 == self.order@[i]);
                assert(self.order@.contains(self.order@[i]));
                assert(self.order@.to_set().contains(self.order@[i]));
            }
        }
        &self.storage
    }

    /// Drop every entry and reset the chain.
    pub fn clear(&mut self)
        requires
            old(self).wf(),
        ensures
            final(self).wf(),
            final(self)@ == Seq::<(<K as View>::V, V)>::empty(),
            final(self).spec_capacity() == old(self).spec_capacity(),
    {
        self.storage.clear();
        self.head = None;
        self.tail = None;
        self.order = Ghost(Seq::empty());
        proof {
            assert(self.storage@.dom() =~= self.order@.to_set());
            assert(self@ =~= Seq::<(<K as View>::V, V)>::empty());
        }
    }
}


impl<K: CacheKey, V> Cache<K, V> for MemoryCache<K, V> {
    open spec fn model(&self) -> Seq<(<K as View>::V, V)> {
        self@
    }

    open spec fn inv(&self) -> bool {
        self.wf()
    }

    open spec fn slots(&self) -> int {
        self.spec_capacity() as int
    }

    fn get(&mut self, key: &K) -> (result: Option<&V>) {
        MemoryCache::get(self, key)
    }

    fn get_all(&self) -> (all: &HashMapWithView<K, Node<K, V>>) {
        MemoryCache::get_all(self)
    }

    fn put(&mut self, key: K, value: V) -> (result: Result<(), CacheError>) {
        MemoryCache::put(self, key, value)
    }

    fn remove(&mut self, key: &K) -> (result: Option<V>) {
        MemoryCache::remove(self, key)
    }

    fn clear(&mut self) {
        MemoryCache::clear(self)
    }

    fn len(&self) -> (n: usize) {
        MemoryCache::len(self)
    }

    fn is_empty(&self) -> (empty: bool) {
        MemoryCache::is_empty(self)
    }

    fn capacity(&self) -> (c: usize) {
        MemoryCache::capacity(self)
    }
}

} // verus!
