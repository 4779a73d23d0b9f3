use leveldb::cache::{Cache, CacheKey};

fn make_key(a: u8, b: u8, c: u8) -> CacheKey {
    [a, b, c, 0, 0, 0, 0, 0, 0, 0, 0, 0, 0, 0, 0, 0]
}

#[test]
fn test_blockcache_cache_add_rm() {
    let mut cache = Cache::new(128);

    let h_123 = make_key(1, 2, 3);
    let h_521 = make_key(1, 2, 4);
    let h_372 = make_key(3, 4, 5);
    let h_332 = make_key(6, 3, 1);
    let h_899 = make_key(8, 2, 1);

    cache.insert(&h_123, 123);
    cache.insert(&h_332, 332);
    cache.insert(&h_521, 521);
    cache.insert(&h_372, 372);
    cache.insert(&h_899, 899);

    assert_eq!(cache.count(), 5);

    assert_eq!(cache.get(&h_123), Some(&123));
    assert_eq!(cache.get(&h_372), Some(&372));

    assert_eq!(cache.remove(&h_521), Some(521));
    assert_eq!(cache.get(&h_521), None);
    assert_eq!(cache.remove(&h_521), None);

    assert_eq!(cache.count(), 4);
    assert_eq!(cache.cap(), 128);
    assert_eq!(cache.new_cache_id(), 1 as u64);
}

#[test]
fn eviction_order() {
    let (a, b, c) = (make_key(1, 0, 0), make_key(2, 0, 0), make_key(3, 0, 0));
    let mut cache = Cache::new(2);
    cache.insert(&a, 1);
    cache.insert(&b, 2);
    cache.insert(&c, 3);
    assert_eq!(cache.count(), 2);
    assert_eq!(cache.get(&a), None);
    assert_eq!(cache.get(&b), Some(&2));
    assert_eq!(cache.get(&c), Some(&3));
}

#[test]
fn promotion_on_get() {
    let (a, b, c) = (make_key(1, 0, 0), make_key(2, 0, 0), make_key(3, 0, 0));
    let mut cache = Cache::new(2);
    cache.insert(&a, 1);
    cache.insert(&b, 2);
    assert_eq!(cache.get(&a), Some(&1));
    cache.insert(&c, 3);
    assert_eq!(cache.get(&b), None);
    assert_eq!(cache.get(&a), Some(&1));
    assert_eq!(cache.get(&c), Some(&3));
}

#[test]
fn remove_is_idempotent() {
    let (a, k) = (make_key(1, 0, 0), make_key(9, 9, 9));
    let mut cache = Cache::new(4);
    cache.insert(&a, 10);
    assert_eq!(cache.remove(&k), None);
    assert_eq!(cache.count(), 1);
    assert_eq!(cache.remove(&a), Some(10));
    assert_eq!(cache.remove(&a), None);
    assert_eq!(cache.count(), 0);
}

#[test]
fn insert_existing_key_replaces_value() {
    let (a, b) = (make_key(1, 0, 0), make_key(2, 0, 0));
    let mut cache = Cache::new(2);
    cache.insert(&a, 1);
    cache.insert(&b, 2);
    cache.insert(&a, 11);
    assert_eq!(cache.count(), 2);
    assert_eq!(cache.get(&a), Some(&11));
    assert_eq!(cache.get(&b), Some(&2));
    // `a` was refreshed by the overwrite, so `b` is evicted next after the get of `a`.
    cache.insert(&a, 12);
    cache.insert(&make_key(3, 0, 0), 3);
    assert_eq!(cache.get(&b), None);
    assert_eq!(cache.get(&a), Some(&12));
}

#[test]
fn count_never_exceeds_cap() {
    let mut cache = Cache::new(3);
    for i in 0..50u8 {
        cache.insert(&make_key(i, i / 3, 7), i as u32);
        assert!(cache.count() <= cache.cap());
    }
    assert_eq!(cache.count(), 3);
    assert_eq!(cache.get(&make_key(49, 16, 7)), Some(&49));
    assert_eq!(cache.get(&make_key(46, 15, 7)), None);
}

#[test]
fn keys_differing_in_last_byte_are_distinct() {
    let mut a = [0u8; 16];
    let mut b = [0u8; 16];
    a[15] = 1;
    b[15] = 2;
    let mut cache = Cache::new(8);
    cache.insert(&a, 'a');
    cache.insert(&b, 'b');
    assert_eq!(cache.get(&a), Some(&'a'));
    assert_eq!(cache.get(&b), Some(&'b'));
    assert_eq!(cache.get(&[0u8; 16]), None);
}

#[test]
fn cache_ids_increase_from_one() {
    let mut cache: Cache<u8> = Cache::new(1);
    assert_eq!(cache.new_cache_id(), 1);
    assert_eq!(cache.new_cache_id(), 2);
    assert_eq!(cache.new_cache_id(), 3);
}
