use fifo_cache::{FifoCache, TimeSpan};

const MS: u64 = 1_000_000;

#[test]
fn fresh_inserts_never_exceed_capacity() {
    let mut cache = FifoCache::new(3, TimeSpan::from_secs(60));
    for i in 0..20u32 {
        cache.insert_at(i, i * 10, 0);
        assert!(cache.len() <= 3);
    }
}

#[test]
fn many_fresh_inserts_keep_the_newest() {
    let mut cache = FifoCache::new(3, TimeSpan::from_secs(60));
    for i in 0..10u32 {
        cache.insert_at(i, i * 10, 0);
    }
    assert_eq!(cache.len(), 3);
    for i in 0..7u32 {
        assert_eq!(cache.get_at(&i, 0), None);
    }
    assert_eq!(cache.get_at(&7, 0), Some(&70));
    assert_eq!(cache.get_at(&8, 0), Some(&80));
    assert_eq!(cache.get_at(&9, 0), Some(&90));
}

#[test]
fn update_keeps_eviction_turn() {
    let mut cache = FifoCache::new(2, TimeSpan::from_secs(60));
    cache.insert_at("a", 1, 0);
    cache.insert_at("b", 2, 0);
    cache.insert_at("a", 10, 0); // "a" is still the oldest
    cache.insert_at("c", 3, 0);
    assert_eq!(cache.get_at(&"a", 0), None);
    assert_eq!(cache.get_at(&"b", 0), Some(&2));
    assert_eq!(cache.get_at(&"c", 0), Some(&3));
}

#[test]
fn ttl_boundary_is_exclusive() {
    let mut cache = FifoCache::new(4, TimeSpan::from_nanos(100));
    cache.insert_at("k", 7, 1000);
    assert_eq!(cache.get_at(&"k", 1000), Some(&7));
    assert_eq!(cache.get_at(&"k", 1099), Some(&7));
    assert_eq!(cache.get_at(&"k", 1100), None);
    assert_eq!(cache.get_at(&"k", 5000), None);
    // Reading does not remove the expired entry.
    assert_eq!(cache.len(), 1);
}

#[test]
fn update_refreshes_expiration() {
    let mut cache = FifoCache::new(4, TimeSpan::from_millis(100));
    cache.insert_at("k", 1, 0);
    cache.insert_at("k", 2, 80 * MS);
    assert_eq!(cache.get_at(&"k", 150 * MS), Some(&2));
    assert_eq!(cache.get_at(&"k", 180 * MS), None);
}

#[test]
fn sweep_keeps_live_entries_in_order() {
    let mut cache = FifoCache::new(3, TimeSpan::from_millis(100));
    cache.insert_at("old", 1, 0);
    cache.insert_at("mid", 2, 50 * MS);
    cache.insert_at("new", 3, 60 * MS);
    cache.cleanup_expired_at(120 * MS);
    assert_eq!(cache.len(), 2);
    assert_eq!(cache.get_at(&"old", 0), None);
    cache.insert_at("x", 4, 120 * MS);
    cache.insert_at("y", 5, 120 * MS);
    // "mid" was the oldest survivor, so it goes first.
    assert_eq!(cache.get_at(&"mid", 120 * MS), None);
    assert_eq!(cache.get_at(&"new", 120 * MS), Some(&3));
    assert_eq!(cache.len(), 3);
}

#[test]
fn round_trip_with_real_clock() {
    let mut cache = FifoCache::new(5, TimeSpan::from_secs(60));
    cache.insert(42u64, "answer");
    assert_eq!(cache.get(&42), Some(&"answer"));
}

#[test]
fn zero_capacity_evicts_every_fresh_key() {
    let mut cache = FifoCache::new(0, TimeSpan::from_secs(60));
    cache.insert_at("a", 1, 0);
    assert_eq!(cache.get_at(&"a", 0), None);
    assert_eq!(cache.len(), 0);
    assert!(cache.is_empty());
}

#[test]
fn without_ttl_never_expires() {
    let mut cache = FifoCache::without_ttl(2);
    cache.insert_at("a", 1, 0);
    assert_eq!(cache.get_at(&"a", u64::MAX), Some(&1));
    cache.cleanup_expired_at(u64::MAX);
    assert_eq!(cache.len(), 1);
    assert_eq!(cache.default_ttl(), None);
}

#[test]
fn remove_returns_stale_value() {
    let mut cache = FifoCache::new(2, TimeSpan::from_millis(10));
    cache.insert_at("a", 1, 0);
    assert_eq!(cache.get_at(&"a", 20 * MS), None);
    assert_eq!(cache.remove(&"a"), Some(1));
    assert_eq!(cache.remove(&"a"), None);
    assert!(cache.is_empty());
}

#[test]
fn remove_keeps_order_of_others() {
    let mut cache = FifoCache::new(3, TimeSpan::from_secs(60));
    cache.insert_at("a", 1, 0);
    cache.insert_at("b", 2, 0);
    cache.insert_at("c", 3, 0);
    assert_eq!(cache.remove(&"b"), Some(2));
    cache.insert_at("d", 4, 0);
    cache.insert_at("e", 5, 0);
    assert_eq!(cache.get_at(&"a", 0), None);
    assert_eq!(cache.get_at(&"c", 0), Some(&3));
    assert_eq!(cache.get_at(&"d", 0), Some(&4));
    assert_eq!(cache.get_at(&"e", 0), Some(&5));
}

#[test]
fn new_ttl_applies_to_later_writes_only() {
    let mut cache = FifoCache::new(4, TimeSpan::from_millis(100));
    cache.insert_at("a", 1, 0);
    cache.set_default_ttl(TimeSpan::from_millis(500));
    assert_eq!(cache.default_ttl(), Some(TimeSpan::from_millis(500)));
    cache.insert_at("b", 2, 0);
    assert_eq!(cache.get_at(&"a", 200 * MS), None);
    assert_eq!(cache.get_at(&"b", 200 * MS), Some(&2));
}

#[test]
fn clear_keeps_settings() {
    let mut cache = FifoCache::new(4, TimeSpan::from_secs(1));
    cache.insert_at("a", 1, 0);
    cache.insert_at("b", 2, 0);
    cache.clear();
    assert!(cache.is_empty());
    assert_eq!(cache.get_at(&"a", 0), None);
    assert_eq!(cache.max_size(), 4);
    assert_eq!(cache.default_ttl(), Some(TimeSpan::from_secs(1)));
}

#[test]
fn time_span_units() {
    assert_eq!(TimeSpan::from_secs(60).as_nanos(), 60_000_000_000);
    assert_eq!(TimeSpan::from_millis(100).as_nanos(), 100_000_000);
    assert_eq!(TimeSpan::from_nanos(5).as_nanos(), 5);
    assert_eq!(TimeSpan::from_secs(u64::MAX).as_nanos(), u64::MAX);
    assert_eq!(TimeSpan::from_millis(u64::MAX).as_nanos(), u64::MAX);
}

#[test]
fn prune_to_zero_empties() {
    let mut cache = FifoCache::new(3, TimeSpan::from_secs(60));
    cache.insert_at("a", 1, 0);
    cache.insert_at("b", 2, 0);
    cache.set_max_size(0, true);
    assert!(cache.is_empty());
    assert_eq!(cache.max_size(), 0);
}
