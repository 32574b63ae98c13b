use indexed_lru::IndexedLruCache;

#[test]
fn test_scope_for_multi_get() {
    let mut cache = IndexedLruCache::unbounded(2, 1, 10);
    assert_eq!(cache.put(1, "red".to_string()), None);
    assert_eq!(cache.put(2, "yellow".to_string()), None);
    let joined = cache.scope_for_multi_get(|scope, token| {
        let apple: &str = scope.get(&token, 1).unwrap().as_str();
        let banana: &str = scope.get(&token, 2).unwrap().as_str();
        [apple, banana].join(" ")
    });

    assert_eq!(joined, "red yellow");
}

#[test]
fn test_raw() {}
