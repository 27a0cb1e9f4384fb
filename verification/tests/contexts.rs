use std::sync::Arc;

use steel_provider::contexts::{ContextCache, CONTEXT_IDLE_TIMEOUT, SWEEP_INTERVAL};

const SECOND: u128 = 1_000_000_000;

#[test]
fn timeouts_are_minutes() {
    assert_eq!(CONTEXT_IDLE_TIMEOUT, 5 * 60 * SECOND);
    assert_eq!(SWEEP_INTERVAL, 60 * SECOND);
}

#[test]
fn context_is_created_on_first_use_and_reused() {
    let mut cache: ContextCache<&str> = ContextCache::new();
    assert!(cache.lookup(42, 0).is_none());
    let shared = cache.publish(42, Arc::new("world"), 0);
    assert_eq!(*shared, "world");
    let found = cache.lookup(42, SECOND).unwrap();
    assert!(Arc::ptr_eq(&found, &shared));
    assert!(cache.lookup(43, SECOND).is_none());
}

#[test]
fn loser_of_a_race_is_discarded() {
    let mut cache: ContextCache<&str> = ContextCache::new();
    assert!(cache.lookup(42, 0).is_none());
    assert!(cache.lookup(42, 1).is_none());
    let first = cache.publish(42, Arc::new("first"), 2);
    let second = cache.publish(42, Arc::new("second"), 3);
    assert_eq!(*second, "first");
    assert!(Arc::ptr_eq(&first, &second));
}

#[test]
fn a_lost_race_counts_as_use() {
    let mut cache: ContextCache<&str> = ContextCache::new();
    cache.publish(42, Arc::new("first"), 0);
    cache.publish(42, Arc::new("second"), 100 * SECOND);
    cache.sweep(CONTEXT_IDLE_TIMEOUT);
    cache.sweep(CONTEXT_IDLE_TIMEOUT + 100 * SECOND - 1);
    let found = cache.lookup(42, CONTEXT_IDLE_TIMEOUT);
    assert_eq!(*found.unwrap(), "first");

    let mut cache: ContextCache<&str> = ContextCache::new();
    cache.publish(42, Arc::new("first"), 0);
    cache.publish(42, Arc::new("second"), 100 * SECOND);
    cache.sweep(CONTEXT_IDLE_TIMEOUT + 100 * SECOND);
    assert!(cache.lookup(42, CONTEXT_IDLE_TIMEOUT).is_none());
}

#[test]
fn a_context_outlives_other_uses() {
    let mut cache: ContextCache<u64> = ContextCache::new();
    let first = cache.publish(42, Arc::new(0), 0);
    for k in 1..200 {
        cache.publish(k % 50, Arc::new(k), u128::from(k) * SECOND);
        cache.lookup(k % 7, u128::from(k) * SECOND);
        cache.sweep(u128::from(k) * SECOND);
    }
    let found = cache.lookup(42, 200 * SECOND).unwrap();
    assert!(Arc::ptr_eq(&first, &found));
}

#[test]
fn sweep_evicts_at_the_timeout() {
    let mut cache: ContextCache<&str> = ContextCache::new();
    cache.publish(1, Arc::new("one"), 0);
    cache.publish(2, Arc::new("two"), 10);
    cache.sweep(CONTEXT_IDLE_TIMEOUT - 1);
    cache.sweep(CONTEXT_IDLE_TIMEOUT + 9);
    assert_eq!(*cache.lookup(2, CONTEXT_IDLE_TIMEOUT + 9).unwrap(), "two");
    assert!(cache.lookup(1, CONTEXT_IDLE_TIMEOUT + 9).is_none());
}

#[test]
fn use_postpones_eviction() {
    let mut cache: ContextCache<&str> = ContextCache::new();
    cache.publish(1, Arc::new("one"), 0);
    cache.lookup(1, 200 * SECOND);
    cache.sweep(499 * SECOND);
    assert_eq!(*cache.lookup(1, 499 * SECOND).unwrap(), "one");
}

#[test]
fn a_use_in_the_future_is_fresh() {
    let mut cache: ContextCache<&str> = ContextCache::new();
    cache.publish(1, Arc::new("one"), 500 * SECOND);
    cache.sweep(0);
    assert!(cache.lookup(1, 0).is_some());
}

#[test]
fn other_seeds_are_left_alone() {
    let mut cache: ContextCache<&str> = ContextCache::new();
    for seed in 0..100 {
        cache.publish(seed, Arc::new("old"), 0);
    }
    for seed in 0..50 {
        cache.lookup(2 * seed, 100 * SECOND);
    }
    cache.sweep(300 * SECOND);
    for seed in 0..100 {
        assert_eq!(cache.lookup(seed, 300 * SECOND).is_some(), seed % 2 == 0);
    }
}
