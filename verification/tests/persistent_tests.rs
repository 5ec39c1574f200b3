use lru_cache::cache::persistent::{parse_saved, PersistentCache};
use lru_cache::error::CacheError;

#[test]
fn test_parse_saved_records() {
    let records = parse_saved("a=1\nb=2\n").unwrap();
    assert_eq!(records, vec![("a".to_string(), "1".to_string()), ("b".to_string(),
        "2".to_string())]);

    // A final line without a terminating newline is still a record.
    let records = parse_saved("a=1\nb=2").unwrap();
    assert_eq!(records.len(), 2);
    assert_eq!(records[1], ("b".to_string(), "2".to_string()));

    // Only the first `=` delimits: the value may contain more.
    let records = parse_saved("k=a=b\n").unwrap();
    assert_eq!(records, vec![("k".to_string(), "a=b".to_string())]);

    // An empty key is allowed; an empty text holds no records.
    assert_eq!(parse_saved("=v\n").unwrap(), vec![(String::new(), "v".to_string())]);
    assert_eq!(parse_saved("").unwrap(), Vec::<(String, String)>::new());
}

#[test]
fn test_parse_saved_rejects_malformed_lines() {
    assert!(matches!(parse_saved("no_delimiter\n"), Err(CacheError::ParseError(_))));
    assert!(matches!(parse_saved("a=1\n\nb=2\n"), Err(CacheError::ParseError(_))));
    assert!(matches!(parse_saved("a=1\ntrailing"), Err(CacheError::ParseError(_))));
}

#[test]
fn test_open_without_contents_is_empty() {
    let mut cache = PersistentCache::open(3, "cache.txt".to_string(), None).unwrap();
    assert_eq!(cache.len(), 0);
    assert!(cache.is_empty());
    assert_eq!(cache.capacity(), 3);
    assert_eq!(cache.file_path(), "cache.txt");
    assert_eq!(cache.get(&"missing".to_string()), None);
}

#[test]
fn test_open_replays_saved_records() {
    let text = "key1=mathis\nkey2=emma\nkey3=antoine\n";
    let mut cache = PersistentCache::open(3, "cache.txt".to_string(), Some(text)).unwrap();

    assert_eq!(cache.len(), 3);
    assert_eq!(cache.get(&"key1".to_string()), Some(&"mathis".to_string()));
    assert_eq!(cache.get(&"key2".to_string()), Some(&"emma".to_string()));
    assert_eq!(cache.get(&"key3".to_string()), Some(&"antoine".to_string()));
}

#[test]
fn test_open_reports_parse_and_capacity_errors() {
    let bad = PersistentCache::open(3, "cache.txt".to_string(), Some("broken line\n"));
    assert!(matches!(bad, Err(CacheError::ParseError(_))));

    let no_room = PersistentCache::open(0, "cache.txt".to_string(), Some("k=v\n"));
    assert!(matches!(no_room, Err(CacheError::CapacityError(_))));

    // A zero capacity with nothing to replay still opens.
    let empty = PersistentCache::open(0, "cache.txt".to_string(), None).unwrap();
    assert_eq!(empty.len(), 0);
}

#[test]
fn test_serialized_writes_snapshot_most_recent_first() {
    let mut cache = PersistentCache::open(3, "cache.txt".to_string(), None).unwrap();
    cache.put("a".to_string(), "1".to_string()).unwrap();
    cache.put("b".to_string(), "2".to_string()).unwrap();
    assert_eq!(cache.serialized(), "b=2\na=1\n");

    // Touching `a` reorders the saved text.
    assert_eq!(cache.get(&"a".to_string()), Some(&"1".to_string()));
    assert_eq!(cache.serialized(), "a=1\nb=2\n");

    let snap = cache.snapshot();
    assert_eq!(snap, vec![("a".to_string(), "1".to_string()), ("b".to_string(),
        "2".to_string())]);
}

#[test]
fn test_put_rejects_unencodable_keys_and_values() {
    let mut cache = PersistentCache::open(3, "cache.txt".to_string(), None).unwrap();
    assert!(matches!(
        cache.put("a=b".to_string(), "v".to_string()),
        Err(CacheError::SerializationError(_))
    ));
    assert!(matches!(
        cache.put("a\nb".to_string(), "v".to_string()),
        Err(CacheError::SerializationError(_))
    ));
    assert!(matches!(
        cache.put("k".to_string(), "a\nb".to_string()),
        Err(CacheError::SerializationError(_))
    ));
    assert_eq!(cache.len(), 0);

    // The value may hold `=`.
    cache.put("k".to_string(), "a=b".to_string()).unwrap();
    assert_eq!(cache.get(&"k".to_string()), Some(&"a=b".to_string()));

    let mut tiny = PersistentCache::open(0, "cache.txt".to_string(), None).unwrap();
    assert!(matches!(
        tiny.put("k".to_string(), "v".to_string()),
        Err(CacheError::CapacityError(_))
    ));
}

#[test]
fn test_round_trip_preserves_contents_and_reverses_recency() {
    let mut cache = PersistentCache::open(2, "cache.txt".to_string(), None).unwrap();
    cache.put("k1".to_string(), "v1".to_string()).unwrap();
    cache.put("k2".to_string(), "v2".to_string()).unwrap();

    // Reopening from the saved text reproduces every lookup.
    let text = cache.serialized();
    assert_eq!(text, "k2=v2\nk1=v1\n");
    let mut reopened = PersistentCache::open(2, "cache.txt".to_string(), Some(text.as_str()))
        .unwrap();
    assert_eq!(reopened.len(), 2);
    assert_eq!(reopened.get(&"k1".to_string()), Some(&"v1".to_string()));
    assert_eq!(reopened.get(&"k2".to_string()), Some(&"v2".to_string()));
}

#[test]
fn test_remove_clear_and_resave() {
    let mut cache = PersistentCache::open(3, "cache.txt".to_string(), None).unwrap();
    cache.put("a".to_string(), "1".to_string()).unwrap();
    cache.put("b".to_string(), "2".to_string()).unwrap();

    assert_eq!(cache.remove(&"a".to_string()), Some("1".to_string()));
    assert_eq!(cache.remove(&"a".to_string()), None);
    assert_eq!(cache.serialized(), "b=2\n");

    cache.clear();
    assert_eq!(cache.len(), 0);
    assert_eq!(cache.serialized(), "");
    assert_eq!(cache.get(&"b".to_string()), None);
}

#[test]
fn test_error_messages() {
    let io = CacheError::IoError("disk gone".to_string());
    assert_eq!(io.message(), "disk gone");
    let ser = CacheError::SerializationError("bad key".to_string());
    assert_eq!(ser.message(), "bad key");
    let cap = CacheError::CapacityError("zero".to_string());
    assert_eq!(cap.message(), "zero");
    let parse = CacheError::ParseError("bad line".to_string());
    assert_eq!(parse.message(), "bad line");
}
