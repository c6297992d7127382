use reader_core::pool::{DocumentPool, POOL_CAPACITY};

#[test]
fn pool_never_exceeds_capacity_and_evicts_lru() {
    let mut pool: DocumentPool<u32> = DocumentPool::new();
    assert_eq!(pool.len(), 0);
    assert!(pool.insert("a".to_string(), 1).is_none());
    assert!(pool.insert("b".to_string(), 2).is_none());
    assert!(pool.insert("c".to_string(), 3).is_none());
    assert!(pool.insert("d".to_string(), 4).is_none());
    assert_eq!(pool.len(), POOL_CAPACITY);
    // A fifth distinct identifier evicts the least recently used: "a".
    let evicted = pool.insert("e".to_string(), 5).unwrap();
    assert_eq!(evicted.0, "a".to_string());
    assert_eq!(evicted.1, 1);
    assert_eq!(pool.len(), POOL_CAPACITY);
}

#[test]
fn pool_touch_refreshes_recency() {
    let mut pool: DocumentPool<u32> = DocumentPool::new();
    pool.insert("a".to_string(), 1);
    pool.insert("b".to_string(), 2);
    pool.insert("c".to_string(), 3);
    pool.insert("d".to_string(), 4);
    // Refresh "a": the next eviction must take "b" instead.
    assert!(pool.touch("a"));
    assert!(!pool.touch("zzz"));
    let evicted = pool.insert("e".to_string(), 5).unwrap();
    assert_eq!(evicted.0, "b".to_string());
    assert_eq!(*pool.front(), 5);
    assert_eq!(pool.front_path(), "e");
}

#[test]
fn pool_insert_existing_replaces_and_promotes() {
    let mut pool: DocumentPool<u32> = DocumentPool::new();
    pool.insert("a".to_string(), 1);
    pool.insert("b".to_string(), 2);
    let replaced = pool.insert("a".to_string(), 10).unwrap();
    assert_eq!(replaced.0, "a".to_string());
    assert_eq!(replaced.1, 1);
    assert_eq!(pool.len(), 2);
    assert_eq!(*pool.front(), 10);
    assert_eq!(pool.front_path(), "a");
}
