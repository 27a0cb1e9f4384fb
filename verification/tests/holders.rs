use std::sync::Arc;

use steel_provider::holders::{Evicted, HolderCache, EVICTION_TARGET, EVICTION_THRESHOLD};
use steel_provider::neighborhood::neighborhood_fits;

fn name(x: i32, z: i32) -> (i32, i32) {
    (x, z)
}

#[test]
fn empty_cache_needs_no_eviction() {
    let cache: HolderCache<u64, u64> = HolderCache::new();
    assert!(!cache.needs_eviction());
}

#[test]
fn neighborhood_is_seven_by_seven_in_order() {
    let mut cache: HolderCache<(i32, i32), u64> = HolderCache::new();
    let neighborhood = cache.acquire_neighborhood(10, -20, name);
    assert_eq!(neighborhood.len(), 49);
    assert_eq!(neighborhood[0].0, (7, -23));
    assert_eq!(neighborhood[1].0, (7, -22));
    assert_eq!(neighborhood[7].0, (8, -23));
    assert_eq!(neighborhood[24].0, (10, -20));
    assert_eq!(neighborhood[48].0, (13, -17));
    for (pos, holder) in &neighborhood {
        assert_eq!(**holder, *pos);
    }
}

#[test]
fn second_call_finds_the_same_holders() {
    let mut cache: HolderCache<(i32, i32), u64> = HolderCache::new();
    let first = cache.acquire_neighborhood(0, 0, name);
    let second = cache.acquire_neighborhood(0, 0, |_, _| panic!("no holder is missing"));
    assert_eq!(first.len(), second.len());
    for i in 0..first.len() {
        assert_eq!(first[i].0, second[i].0);
        assert!(Arc::ptr_eq(&first[i].1, &second[i].1));
    }
}

#[test]
fn overlapping_neighborhoods_share_holders() {
    let mut cache: HolderCache<u32, u64> = HolderCache::new();
    let first = cache.acquire_neighborhood(0, 0, |_, _| 1);
    let second = cache.acquire_neighborhood(1, 0, |_, _| 2);
    // The neighborhood of (1, 0) has one new column, x = 4, which comes last.
    for i in 0..42 {
        assert_eq!(*second[i].1, 1);
        assert!(Arc::ptr_eq(&second[i].1, &first[i + 7].1));
    }
    for i in 42..49 {
        assert_eq!(second[i].0 .0, 4);
        assert_eq!(*second[i].1, 2);
    }
}

#[test]
fn generation_mutex_is_made_once_per_position() {
    let mut cache: HolderCache<u32, u64> = HolderCache::new();
    cache.acquire_neighborhood(0, 0, |_, _| 1);
    let first = cache.generation_mutex((0, 0), || 5);
    let again = cache.generation_mutex((0, 0), || 6);
    let other = cache.generation_mutex((0, 1), || 7);
    assert_eq!(*first, 5);
    assert!(Arc::ptr_eq(&first, &again));
    assert_eq!(*other, 7);
}

/// Acquires neighborhoods that do not overlap: each brings 49 holders.
fn fill(cache: &mut HolderCache<i32, u64>, calls: i32) {
    for k in 0..calls {
        cache.acquire_neighborhood(7 * k, 0, |_, _| k);
        cache.generation_mutex((7 * k, 0), || k as u64);
    }
}

#[test]
fn eviction_starts_above_the_threshold() {
    assert_eq!(EVICTION_THRESHOLD, 10_000);
    let mut cache: HolderCache<i32, u64> = HolderCache::new();
    fill(&mut cache, 204);
    assert!(!cache.needs_eviction());
    cache.acquire_neighborhood(7 * 204, 0, |_, _| 204);
    assert!(cache.needs_eviction());
}

#[test]
fn eviction_keeps_the_newest_half() {
    assert_eq!(EVICTION_TARGET, 5_000);
    let mut cache: HolderCache<i32, u64> = HolderCache::new();
    fill(&mut cache, 205);
    assert!(cache.needs_eviction());
    let gone = match cache.evict() {
        Evicted::Oldest(gone) => gone,
        Evicted::Everything => panic!("the order lists every holder"),
    };
    assert!(!cache.needs_eviction());
    assert_eq!(gone.len(), 5_045);
    assert_eq!(gone[0], (-3, -3));
    assert_eq!(gone[1], (-3, -2));
    assert_eq!(gone[5_044], (7 * 102 + 3, 1));

    // 205 * 49 = 10045 holders: the first 5045 leave, which are 102 whole
    // neighborhoods and 47 holders of the next one.
    let evicted = cache.acquire_neighborhood(7 * 101, 0, |_, _| -1);
    assert!(evicted.iter().all(|(_, holder)| **holder == -1));
    let split = cache.acquire_neighborhood(7 * 102, 0, |_, _| -1);
    assert!(split[..47].iter().all(|(_, holder)| **holder == -1));
    assert!(split[47..].iter().all(|(_, holder)| **holder == 102));
    let kept = cache.acquire_neighborhood(7 * 103, 0, |_, _| -1);
    assert!(kept.iter().all(|(_, holder)| **holder == 103));

    // The mutexes left with their holders.
    assert_eq!(*cache.generation_mutex((7 * 101, 0), || 1000), 1000);
    assert_eq!(*cache.generation_mutex((7 * 102, 0), || 1000), 1000);
    assert_eq!(*cache.generation_mutex((7 * 103, 0), || 1000), 103);
}

#[test]
fn eviction_of_a_small_cache_changes_nothing() {
    let mut cache: HolderCache<i32, u64> = HolderCache::new();
    fill(&mut cache, 3);
    assert_eq!(cache.evict(), Evicted::Oldest(Vec::new()));
    let kept = cache.acquire_neighborhood(0, 0, |_, _| -1);
    assert!(kept.iter().all(|(_, holder)| **holder == 0));
    assert_eq!(*cache.generation_mutex((0, 0), || 1000), 0);
}

#[test]
fn cache_stays_bounded() {
    let mut cache: HolderCache<i32, u64> = HolderCache::new();
    for k in 0..1_000 {
        if cache.needs_eviction() {
            cache.evict();
            assert!(!cache.needs_eviction());
        }
        cache.acquire_neighborhood(7 * k, 0, |_, _| k);
    }
}

#[test]
fn neighborhoods_at_the_edge_do_not_fit() {
    assert!(neighborhood_fits(0, 0));
    assert!(neighborhood_fits(i32::MIN + 3, i32::MAX - 3));
    assert!(!neighborhood_fits(i32::MIN + 2, 0));
    assert!(!neighborhood_fits(i32::MAX - 2, 0));
    assert!(!neighborhood_fits(0, i32::MIN));
    assert!(!neighborhood_fits(0, i32::MAX));
    let mut cache: HolderCache<(i32, i32), u64> = HolderCache::new();
    let neighborhood = cache.acquire_neighborhood(i32::MIN + 3, i32::MAX - 3, name);
    assert_eq!(neighborhood[0].0, (i32::MIN, i32::MAX - 6));
    assert_eq!(neighborhood[48].0, (i32::MIN + 6, i32::MAX));
}
