use indexed_lru::IndexedLruCache;
use std::sync::atomic::{AtomicUsize, Ordering};

static ZERO_CAP_DROPS: AtomicUsize = AtomicUsize::new(0);

struct ZeroCapValue;

impl Drop for ZeroCapValue {
    fn drop(&mut self) {
        ZERO_CAP_DROPS.fetch_add(1, Ordering::SeqCst);
    }
}

#[test]
fn zero_capacity_put_is_a_no_op() {
    let mut cache = IndexedLruCache::new(0, 2, 1, 10);
    let r = cache.put(7, ZeroCapValue);
    assert!(r.is_none());
    assert_eq!(ZERO_CAP_DROPS.load(Ordering::SeqCst), 1);
    assert_eq!(cache.len(), 0);
    assert_eq!(cache.ghost_len(), 0);
    assert!(!cache.contains(7, false));
    assert!(cache.check_clear());
}

#[test]
fn resurrected_key_reports_ghost() {
    let mut cache = IndexedLruCache::new(4, 2, 1, 10);
    cache.put(7, "v1".to_string());
    let popped = cache.pop_lru_by_epoch(u64::MAX);
    assert_eq!(popped, Some((None, "v1".to_string())));
    assert_eq!(cache.len(), 0);
    assert_eq!(cache.ghost_len(), 1);
    let (old, sample) = cache.put_sample(7, "v2".to_string(), true, true);
    assert!(old.is_none());
    assert_eq!(sample, Some((1, true)));
    assert_eq!(cache.len(), 1);
    assert_eq!(cache.ghost_len(), 0);
    assert_eq!(cache.peek_mut(7).map(|v| v.clone()), Some("v2".to_string()));
}

#[test]
fn ghost_distance_counts_real_region_and_newer_ghosts() {
    let mut cache = IndexedLruCache::new(2, 3, 1, 3);
    for k in 1..=5u64 {
        cache.put(k, k * 10);
    }
    assert_eq!(cache.len(), 2);
    assert_eq!(cache.ghost_len(), 3);
    let (old, sample) = cache.put_sample(1, 100, true, true);
    assert!(old.is_none());
    assert_eq!(sample, Some((5, true)));
}

#[test]
fn peek_mut_changes_value_but_not_order() {
    let mut cache = IndexedLruCache::new(3, 2, 1, 10);
    cache.put(1, 10u32);
    cache.put(2, 20u32);
    cache.put(3, 30u32);
    let g = cache.global_index();
    let b = cache.bucket_count();
    *cache.peek_mut(1).unwrap() = 11;
    assert_eq!(cache.global_index(), g);
    assert_eq!(cache.bucket_count(), b);
    assert_eq!(cache.pop_lru(), Some(1));
    assert_eq!(cache.pop_lru(), Some(2));
    assert_eq!(cache.pop_lru(), Some(3));
    assert_eq!(cache.pop_lru(), None);
}

#[test]
fn get_mut_moves_key_to_most_recent_end() {
    let mut cache = IndexedLruCache::new(3, 2, 1, 10);
    cache.put(1, 10u32);
    cache.put(2, 20u32);
    cache.put(3, 30u32);
    *cache.get_mut(1, false).unwrap() = 12;
    assert_eq!(cache.pop_lru(), Some(2));
    assert_eq!(cache.pop_lru(), Some(3));
    assert_eq!(cache.peek_mut(1).map(|v| *v), Some(12));
    assert_eq!(cache.pop_lru(), Some(1));
}

#[test]
fn distance_counts_newer_entries_and_itself() {
    let mut cache = IndexedLruCache::new(100, 10, 1, 10);
    for k in 1..=5u64 {
        cache.put(k, k);
    }
    let (v, d) = cache.get_mut_sample(1, false, true);
    assert_eq!(v.map(|x| *x), Some(1));
    assert_eq!(d, Some(5));
    let (v, d) = cache.get_mut_sample(1, false, true);
    assert_eq!(v.map(|x| *x), Some(1));
    assert_eq!(d, Some(1));
}

#[test]
fn distance_is_exact_up_to_bucket_width() {
    let mut cache = IndexedLruCache::new(100, 10, 2, 10);
    for k in 1..=5u64 {
        cache.put(k, k);
    }
    // buckets: keys 1, 2 in the first, 3, 4 in the second, 5 in the open one
    let (_, d) = cache.get_mut_sample(2, false, true);
    assert_eq!(d, Some(5));
    let (_, d) = cache.get_mut_sample(3, false, false);
    assert_eq!(d, Some(0));
}

#[test]
fn put_on_real_key_returns_old_value_and_sample() {
    let mut cache = IndexedLruCache::new(10, 2, 1, 10);
    cache.put(1, "a".to_string());
    cache.put(2, "b".to_string());
    let (old, sample) = cache.put_sample(1, "a2".to_string(), true, true);
    assert_eq!(old, Some("a".to_string()));
    assert_eq!(sample, Some((2, false)));
    let (old, sample) = cache.put_sample(5, "e".to_string(), true, true);
    assert!(old.is_none());
    assert!(sample.is_none());
    assert_eq!(cache.len(), 3);
}

#[test]
fn adjust_counters_drops_buckets_older_than_the_tail() {
    let mut cache = IndexedLruCache::new(10, 10, 1, 10);
    for k in 1..=5u64 {
        cache.put(k, k);
    }
    assert!(cache.get_mut(1, false).is_some());
    assert!(cache.get_mut(2, false).is_some());
    assert_eq!(cache.bucket_count(), 6);
    cache.adjust_counters();
    assert_eq!(cache.bucket_count(), 4);
    assert_eq!(cache.ghost_bucket_count(), 0);
    assert_eq!(cache.global_index(), 6);
}

#[test]
fn resize_ghost_drops_least_recent_ghosts() {
    let mut cache = IndexedLruCache::new(2, 3, 1, 10);
    for k in 1..=5u64 {
        cache.put(k, k);
    }
    assert_eq!(cache.ghost_len(), 3);
    cache.resize_ghost(1);
    assert_eq!(cache.ghost_cap(), 1);
    assert_eq!(cache.len(), 2);
    assert_eq!(cache.ghost_len(), 1);
    let (_, sample) = cache.put_sample(3, 3, false, false);
    assert_eq!(sample, Some((0, true)));
    assert_eq!(cache.ghost_len(), 1);
    let (_, sample) = cache.put_sample(1, 1, false, false);
    assert!(sample.is_none());
}

#[test]
fn check_clear_is_false_on_a_filled_cache() {
    let mut cache = IndexedLruCache::new(4, 2, 1, 10);
    cache.put(1, 1u8);
    assert!(!cache.check_clear());
    cache.clear();
    assert!(cache.check_clear());
    assert_eq!(cache.len(), 0);
    assert_eq!(cache.ghost_len(), 0);
}

#[test]
fn lengths_stay_within_capacities() {
    let mut cache = IndexedLruCache::new(3, 2, 1, 10);
    for k in 0..50u64 {
        cache.put(k % 9, k);
        assert!(cache.len() <= cache.cap());
        assert!(cache.ghost_len() <= cache.ghost_cap());
    }
    assert_eq!(cache.len(), 3);
    assert_eq!(cache.ghost_len(), 2);
}

#[test]
fn epochs_and_flags() {
    let mut cache: IndexedLruCache<u8> = IndexedLruCache::unbounded(2, 1, 10);
    assert_eq!(cache.cap(), usize::MAX);
    assert_eq!(cache.current_epoch(), 0);
    cache.update_epoch(3);
    assert_eq!(cache.current_epoch(), 3);
    assert!(cache.is_real_empty());
    cache.set_accurate_tail(false);
    cache.put(1, 1);
    cache.pop_lru_once();
    let (_, sample) = cache.put_sample(1, 2, true, false);
    assert_eq!(sample, Some((0, true)));
}

#[test]
fn pop_lru_by_epoch_keeps_entries_of_the_epoch() {
    let mut cache = IndexedLruCache::new(4, 2, 1, 10);
    cache.update_epoch(5);
    cache.put(1, 1u8);
    assert!(cache.pop_lru_by_epoch(5).is_none());
    assert_eq!(cache.pop_lru_by_epoch(6), Some((None, 1)));
    assert!(cache.pop_lru_once().is_none());
}

#[test]
fn ghost_buckets_take_the_rounded_up_share() {
    // four ghost slots over two buckets: two stamps per ghost bucket
    let mut cache = IndexedLruCache::new(1, 4, 1, 2);
    for k in 1..=6u64 {
        cache.put(k, k);
    }
    assert_eq!(cache.len(), 1);
    assert_eq!(cache.ghost_len(), 4);
    assert_eq!(cache.ghost_global_index(), 2);
}

#[test]
fn evict_by_epoch_keeps_entries_of_later_epochs() {
    let mut cache = IndexedLruCache::new(10, 10, 1, 10);
    cache.put(1, 1u8);
    cache.put(2, 2u8);
    cache.update_epoch(1);
    cache.put(3, 3u8);
    cache.put(1, 11u8);
    cache.evict_by_epoch(1);
    assert_eq!(cache.len(), 2);
    assert_eq!(cache.ghost_len(), 1);
    assert!(cache.peek_mut(2).is_none());
    assert_eq!(cache.peek_mut(1).map(|v| *v), Some(11));
    assert_eq!(cache.peek_mut(3).map(|v| *v), Some(3));
}

#[test]
fn is_ghost_tells_the_regions_apart() {
    let mut cache = IndexedLruCache::new(1, 2, 1, 10);
    cache.put(1, 1u8);
    cache.put(2, 2u8);
    assert!(cache.is_ghost(1));
    assert!(!cache.is_ghost(2));
    assert!(!cache.is_ghost(3));
    assert!(cache.contains(2, true));
    assert!(!cache.contains(3, true));
}

#[test]
fn adjust_counters_keeps_the_floor_of_an_empty_region() {
    let mut cache = IndexedLruCache::new(10, 10, 1, 10);
    for k in 1..=4u64 {
        cache.put(k, k);
    }
    assert!(cache.get_mut(1, false).is_some());
    cache.adjust_counters();
    assert_eq!(cache.earliest_index(), 1);
    assert_eq!(cache.ghost_earliest_index(), 0);
    while cache.pop_lru_once().is_some() {}
    assert_eq!(cache.len(), 0);
    cache.adjust_counters();
    assert_eq!(cache.earliest_index(), 1);
    assert_eq!(cache.ghost_earliest_index(), 0);
}

#[test]
fn getters_report_counters_and_intervals() {
    let mut cache = IndexedLruCache::new(10, 4, 2, 2);
    assert_eq!(cache.update_interval(), 2);
    assert_eq!(cache.ghost_update_interval(), 2);
    for k in 1..=3u64 {
        cache.put(k, k);
    }
    assert_eq!(cache.global_index(), 1);
    assert_eq!(cache.current_index_count(), 1);
    assert_eq!(cache.counters(), vec![(0, 2)]);
    assert!(cache.ghost_counters().is_empty());
    assert_eq!(cache.ghost_current_index_count(), 0);
}
