use rustnish::cache::LruCache;

#[test]
fn memory_size() {
    let size = 10usize;
    let mut lru_cache = LruCache::<usize>::with_memory_size(size);
    let now: u64 = 0;

    for i in 0..10 {
        assert_eq!(lru_cache.len(now), i);
        let _ = lru_cache.insert(i.to_string(), i, 1, now + 1000 * 1000, now);
        assert_eq!(lru_cache.len(now), i + 1);
    }

    for i in 10..1000 {
        let _ = lru_cache.insert(i.to_string(), i, 1, now + 1000 * 1000, now);
        assert_eq!(lru_cache.len(now), size);
    }

    for _ in (0..1000).rev() {
        assert!(lru_cache.contains_key(&(1000 - 1).to_string(), now));
        assert!(lru_cache.get(&(1000 - 1).to_string(), now).is_some());
        assert_eq!(*lru_cache.get(&(1000 - 1).to_string(), now).unwrap(), 1000 - 1);
    }
}

#[test]
fn expiration_time() {
    let time_to_live: u64 = 100;
    let mut lru_cache = LruCache::<usize>::with_memory_size(100usize);
    let mut now: u64 = 0;

    for i in 0..10 {
        assert_eq!(lru_cache.len(now), i);
        let _ = lru_cache.insert(i.to_string(), i, 1, now + time_to_live, now);
        assert_eq!(lru_cache.len(now), i + 1);
    }

    now += 101;
    let _ = lru_cache.insert(11.to_string(), 11, 1, now + time_to_live, now);

    assert_eq!(lru_cache.len(now), 1);

    for i in 0..10 {
        assert!(!lru_cache.is_empty(now));
        assert_eq!(lru_cache.len(now), i + 1);
        let _ = lru_cache.insert(i.to_string(), i, 1, now + time_to_live, now);
        assert_eq!(lru_cache.len(now), i + 2);
    }

    now += 101;
    assert_eq!(0, lru_cache.len(now));
    assert!(lru_cache.is_empty(now));
}

#[test]
fn insert_then_get_returns_value() {
    let mut cache = LruCache::<u32>::with_memory_size(100);
    let prior = cache.insert("k".to_string(), 7, 10, 50, 0);
    assert!(prior.is_none());
    assert_eq!(Some(&7), cache.get("k", 0));
}

#[test]
fn insert_returns_prior_value() {
    let mut cache = LruCache::<u32>::with_memory_size(100);
    let _ = cache.insert("k".to_string(), 7, 10, 50, 0);
    let prior = cache.insert("k".to_string(), 8, 10, 50, 0);
    assert_eq!(Some(7), prior);
    assert_eq!(Some(&8), cache.get("k", 0));
}

#[test]
fn oversize_insert_is_refused() {
    let mut cache = LruCache::<u32>::with_memory_size(10);
    let _ = cache.insert("small".to_string(), 1, 5, 100, 0);
    let prior = cache.insert("big".to_string(), 2, 11, 100, 0);
    assert!(prior.is_none());
    assert!(!cache.contains_key("big", 0));
    assert!(cache.contains_key("small", 0));
}

#[test]
fn exact_budget_entry_fits() {
    let mut cache = LruCache::<u32>::with_memory_size(10);
    let _ = cache.insert("exact".to_string(), 1, 10, 100, 0);
    assert!(cache.contains_key("exact", 0));
}

#[test]
fn eviction_drops_least_recently_used() {
    let mut cache = LruCache::<u32>::with_memory_size(3);
    let _ = cache.insert("a".to_string(), 1, 1, 100, 0);
    let _ = cache.insert("b".to_string(), 2, 1, 100, 0);
    let _ = cache.insert("c".to_string(), 3, 1, 100, 0);
    let _ = cache.insert("d".to_string(), 4, 1, 100, 0);
    assert!(!cache.contains_key("a", 0));
    assert!(cache.contains_key("b", 0));
    assert!(cache.contains_key("c", 0));
    assert!(cache.contains_key("d", 0));
}

#[test]
fn get_promotes_entry_away_from_eviction() {
    let mut cache = LruCache::<u32>::with_memory_size(3);
    let _ = cache.insert("a".to_string(), 1, 1, 100, 0);
    let _ = cache.insert("b".to_string(), 2, 1, 100, 0);
    let _ = cache.insert("c".to_string(), 3, 1, 100, 0);
    assert_eq!(Some(&1), cache.get("a", 0));
    let _ = cache.insert("d".to_string(), 4, 1, 100, 0);
    assert!(cache.contains_key("a", 0));
    assert!(!cache.contains_key("b", 0));
}

#[test]
fn expired_entry_is_invisible() {
    let mut cache = LruCache::<u32>::with_memory_size(10);
    let _ = cache.insert("k".to_string(), 1, 1, 100, 0);
    assert!(cache.contains_key("k", 99));
    assert!(!cache.contains_key("k", 100));
    assert!(cache.peek("k", 100).is_none());
    assert!(cache.get("k", 100).is_none());
    assert!(!cache.contains_key("k", 101));
}

#[test]
fn peek_does_not_promote() {
    let mut cache = LruCache::<u32>::with_memory_size(2);
    let _ = cache.insert("a".to_string(), 1, 1, 100, 0);
    let _ = cache.insert("b".to_string(), 2, 1, 100, 0);
    assert_eq!(Some(&1), cache.peek("a", 0));
    let _ = cache.insert("c".to_string(), 3, 1, 100, 0);
    assert!(!cache.contains_key("a", 0));
}

#[test]
fn remove_returns_value_and_frees_space() {
    let mut cache = LruCache::<u32>::with_memory_size(2);
    let _ = cache.insert("a".to_string(), 1, 1, 100, 0);
    let _ = cache.insert("b".to_string(), 2, 1, 100, 0);
    assert_eq!(Some(1), cache.remove("a"));
    assert_eq!(None, cache.remove("a"));
    let _ = cache.insert("c".to_string(), 3, 1, 100, 0);
    assert!(cache.contains_key("b", 0));
    assert!(cache.contains_key("c", 0));
}

#[test]
fn clear_empties_the_store() {
    let mut cache = LruCache::<u32>::with_memory_size(10);
    let _ = cache.insert("a".to_string(), 1, 1, 100, 0);
    let _ = cache.insert("b".to_string(), 2, 1, 100, 0);
    cache.clear();
    assert!(cache.is_empty(0));
    assert!(!cache.contains_key("a", 0));
}

#[test]
fn iter_lists_live_entries_in_recency_order() {
    let mut cache = LruCache::<u32>::with_memory_size(10);
    let _ = cache.insert("a".to_string(), 1, 1, 100, 0);
    let _ = cache.insert("b".to_string(), 2, 1, 300, 0);
    let _ = cache.insert("c".to_string(), 3, 1, 300, 0);
    let _ = cache.get("b", 0);
    let items = cache.iter(200);
    assert_eq!(vec![("c".to_string(), 3), ("b".to_string(), 2)], items);
}

#[test]
fn peek_iter_does_not_sweep() {
    let mut cache = LruCache::<u32>::with_memory_size(10);
    let _ = cache.insert("a".to_string(), 1, 1, 100, 0);
    let _ = cache.insert("b".to_string(), 2, 1, 300, 0);
    let items = cache.peek_iter(200);
    assert_eq!(vec![("b".to_string(), 2)], items);
    assert_eq!(Some(&1), cache.peek("a", 50));
}
