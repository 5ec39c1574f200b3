use lru_cache::cache::lru::LRUCache;
use lru_cache::cache::traits::Cache;

#[test]
fn test_lru_variant_basic_operations() {
    let mut cache: LRUCache<u64, String> = LRUCache::new(3);

    cache.put(1, "one".to_string());
    assert_eq!(cache.get(&1), Some(&"one".to_string()));
    assert_eq!(cache.len(), 1);

    cache.put(2, "two".to_string());
    cache.put(3, "three".to_string());
    cache.put(4, "four".to_string());

    assert_eq!(cache.get(&1), None);
    assert_eq!(cache.len(), 3);
}

#[test]
fn test_lru_variant_recency() {
    let mut cache: LRUCache<&str, &str> = LRUCache::new(3);

    cache.put("A", "value_a");
    cache.put("B", "value_b");
    cache.put("C", "value_c");

    // Touch A so that B becomes the least recently used.
    assert_eq!(cache.get(&"A"), Some(&"value_a"));
    cache.put("D", "value_d");

    assert_eq!(cache.get(&"B"), None);
    assert_eq!(cache.get(&"A"), Some(&"value_a"));
    assert_eq!(cache.get(&"C"), Some(&"value_c"));
    assert_eq!(cache.get(&"D"), Some(&"value_d"));
}

#[test]
fn test_lru_variant_update_existing() {
    let mut cache: LRUCache<u64, String> = LRUCache::new(2);

    cache.put(1, "one".to_string());
    cache.put(1, "updated".to_string());

    assert_eq!(cache.get(&1), Some(&"updated".to_string()));
    assert_eq!(cache.len(), 1);
}

#[test]
fn test_lru_variant_remove() {
    let mut cache: LRUCache<u64, String> = LRUCache::new(2);

    cache.put(1, "one".to_string());
    cache.put(2, "two".to_string());

    assert_eq!(cache.remove(&1), Some("one".to_string()));
    assert_eq!(cache.get(&1), None);
    assert_eq!(cache.len(), 1);
    assert!(!cache.is_empty());
}

#[test]
fn test_lru_variant_zero_capacity_degrades_to_one_slot() {
    // Unlike the engine, the simple variant cannot report a capacity error:
    // a zero capacity behaves as a single slot.
    let mut cache: LRUCache<u64, String> = LRUCache::new(0);

    cache.put(1, "one".to_string());
    assert_eq!(cache.len(), 1);
    cache.put(2, "two".to_string());
    assert_eq!(cache.len(), 1);
    assert_eq!(cache.get(&1), None);
    assert_eq!(cache.get(&2), Some(&"two".to_string()));
}

#[test]
fn test_put_sequence_len_within_capacity() {
    // Within capacity, the length is the number of distinct keys inserted,
    // repeats included.
    let mut cache: LRUCache<u64, u64> = LRUCache::new(5);
    cache.put(1, 10);
    cache.put(2, 20);
    cache.put(2, 21);
    cache.put(3, 30);
    cache.put(1, 11);
    assert_eq!(cache.len(), 3);

    let mut engine = lru_cache::cache::memory::MemoryCache::new(5);
    engine.put(1u64, 10u64).unwrap();
    engine.put(2, 20).unwrap();
    engine.put(2, 21).unwrap();
    engine.put(3, 30).unwrap();
    engine.put(1, 11).unwrap();
    assert_eq!(engine.len(), 3);
}

#[test]
fn test_single_eviction_order() {
    // Inserting one key more than the capacity evicts exactly the first key.
    let mut engine = lru_cache::cache::memory::MemoryCache::new(3);
    engine.put(1u64, "a").unwrap();
    engine.put(2, "b").unwrap();
    engine.put(3, "c").unwrap();
    engine.put(4, "d").unwrap();
    assert_eq!(engine.get(&1), None);
    assert_eq!(engine.get(&2), Some(&"b"));
    assert_eq!(engine.get(&3), Some(&"c"));
    assert_eq!(engine.get(&4), Some(&"d"));
}

#[test]
fn test_snapshot_order_and_get_all() {
    let mut engine = lru_cache::cache::memory::MemoryCache::new(3);
    engine.put("A", 1u64).unwrap();
    engine.put("B", 2u64).unwrap();
    // Touching A makes it most recently used again.
    assert_eq!(engine.get(&"A"), Some(&1u64));

    let snap = engine.snapshot();
    assert_eq!(snap.len(), 2);
    assert_eq!(*snap[0].0, "A");
    assert_eq!(*snap[0].1, 1u64);
    assert_eq!(*snap[1].0, "B");
    assert_eq!(*snap[1].1, 2u64);

    assert_eq!(engine.get_all().len(), 2);
    assert_eq!(engine.capacity(), 3);
}
