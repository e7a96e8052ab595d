use rocks::bytes::{fnv1a_hash, hash_key};
use rocks::cache::{auto_shard_bits, shard_index};
use rocks::{CacheBuilder, Error, Priority};

#[test]
fn cache_lru() {
    let mut lru_cache = CacheBuilder::new_lru(1024)
        .high_pri_pool_ratio(30)
        .build()
        .unwrap();
    assert_eq!(lru_cache.name(), "LRUCache");
    assert_eq!(lru_cache.get_capacity(), 1024);
    lru_cache.set_capacity(512);
    assert_eq!(lru_cache.get_capacity(), 512);
    assert!(lru_cache.get_usage() == 0);
}

#[test]
fn clock_cache_name() {
    let cache = CacheBuilder::new_clock(1024).build().unwrap();
    assert_eq!(cache.name(), "ClockCache");
}

#[test]
fn lru_touch_protects_from_eviction() {
    let mut cache = CacheBuilder::new_lru(2).num_shard_bits(0).build().unwrap();
    assert!(cache.insert(b"A", 1, 1, Priority::Low).unwrap().is_empty());
    assert!(cache.insert(b"B", 2, 1, Priority::Low).unwrap().is_empty());
    assert_eq!(cache.get(b"A"), Some(1));
    let released = cache.insert(b"C", 3, 1, Priority::Low).unwrap();
    assert_eq!(released, vec![(b"B".to_vec(), 2)]);
    assert_eq!(cache.get(b"B"), None);
    assert_eq!(cache.get(b"A"), Some(1));
    assert_eq!(cache.get(b"C"), Some(3));
    assert_eq!(cache.get_usage(), 2);
}

#[test]
fn clock_evicts_one_untouched_entry() {
    let mut cache = CacheBuilder::new_clock(2).num_shard_bits(0).build().unwrap();
    cache.insert(b"A", 1, 1, Priority::Low).unwrap();
    cache.insert(b"B", 2, 1, Priority::Low).unwrap();
    let released = cache.insert(b"C", 3, 1, Priority::Low).unwrap();
    assert_eq!(released.len(), 1);
    let gone = released[0].0.clone();
    assert!(gone == b"A".to_vec() || gone == b"B".to_vec());
    let kept: &[u8] = if gone == b"A".to_vec() { b"B" } else { b"A" };
    assert!(cache.get(kept).is_some());
    assert_eq!(cache.get(&gone), None);
    assert_eq!(cache.get(b"C"), Some(3));
}

#[test]
fn clock_second_chance() {
    let mut cache = CacheBuilder::new_clock(2).num_shard_bits(0).build().unwrap();
    cache.insert(b"A", 1, 1, Priority::Low).unwrap();
    cache.insert(b"B", 2, 1, Priority::Low).unwrap();
    assert_eq!(cache.get(b"A"), Some(1));
    let released = cache.insert(b"C", 3, 1, Priority::Low).unwrap();
    assert_eq!(released, vec![(b"B".to_vec(), 2)]);
    assert_eq!(cache.get(b"A"), Some(1));
}

#[test]
fn high_priority_pool_is_evicted_last() {
    let mut cache = CacheBuilder::new_lru(4)
        .num_shard_bits(0)
        .high_pri_pool_ratio(50)
        .build()
        .unwrap();
    cache.insert(b"H1", 10, 1, Priority::High).unwrap();
    cache.insert(b"L1", 11, 1, Priority::Low).unwrap();
    cache.insert(b"L2", 12, 1, Priority::Low).unwrap();
    cache.insert(b"L3", 13, 1, Priority::Low).unwrap();
    let released = cache.insert(b"L4", 14, 1, Priority::Low).unwrap();
    assert_eq!(released, vec![(b"L1".to_vec(), 11)]);
    assert_eq!(cache.get(b"H1"), Some(10));
}

#[test]
fn strict_limit_refuses_oversized_charge() {
    let mut cache = CacheBuilder::new_lru(100)
        .num_shard_bits(2)
        .strict_capacity_limit(true)
        .build()
        .unwrap();
    cache.insert(b"k", 1, 10, Priority::Low).unwrap();
    let before = cache.get_usage();
    assert_eq!(cache.insert(b"big", 2, 101, Priority::Low), Err(Error::CapacityExceeded));
    assert_eq!(cache.get_usage(), before);
    assert_eq!(cache.get(b"big"), None);
    assert_eq!(cache.get(b"k"), Some(1));
}

#[test]
fn strict_usage_never_exceeds_capacity() {
    let mut cache = CacheBuilder::new_lru(64)
        .num_shard_bits(2)
        .strict_capacity_limit(true)
        .build()
        .unwrap();
    for i in 0..200u64 {
        let key = format!("key{}", i);
        let _ = cache.insert(key.as_bytes(), i, (i % 7) as usize + 1, Priority::Low);
        assert!(cache.get_usage() <= cache.get_capacity());
    }
}

#[test]
fn non_strict_admits_oversized_charge() {
    let mut cache = CacheBuilder::new_lru(4).num_shard_bits(0).build().unwrap();
    cache.insert(b"a", 1, 1, Priority::Low).unwrap();
    let released = cache.insert(b"huge", 2, 10, Priority::Low).unwrap();
    assert_eq!(released, vec![(b"a".to_vec(), 1)]);
    assert_eq!(cache.get_usage(), 10);
    assert_eq!(cache.get(b"huge"), Some(2));
}

#[test]
fn replacing_a_key_releases_the_old_value() {
    let mut cache = CacheBuilder::new_lru(10).num_shard_bits(0).build().unwrap();
    cache.insert(b"k", 1, 3, Priority::Low).unwrap();
    let released = cache.insert(b"k", 2, 5, Priority::Low).unwrap();
    assert_eq!(released, vec![(b"k".to_vec(), 1)]);
    assert_eq!(cache.get(b"k"), Some(2));
    assert_eq!(cache.get_usage(), 5);
}

#[test]
fn erase_returns_value() {
    let mut cache = CacheBuilder::new_lru(10).num_shard_bits(1).build().unwrap();
    cache.insert(b"k", 7, 3, Priority::Low).unwrap();
    assert_eq!(cache.erase(b"k"), Some(7));
    assert_eq!(cache.erase(b"k"), None);
    assert_eq!(cache.get_usage(), 0);
}

#[test]
fn shrinking_capacity_evicts_down_to_it() {
    let mut cache = CacheBuilder::new_lru(100).num_shard_bits(2).build().unwrap();
    for i in 0..40u64 {
        let key = format!("k{}", i);
        cache.insert(key.as_bytes(), i, 2, Priority::Low).unwrap();
    }
    assert!(cache.get_usage() > 10);
    let released = cache.set_capacity(10);
    assert!(!released.is_empty());
    assert_eq!(cache.get_capacity(), 10);
    assert!(cache.get_usage() <= cache.get_capacity());
}

#[test]
fn configuration_errors() {
    assert_eq!(
        CacheBuilder::new_clock(1024).high_pri_pool_ratio(30).build().err(),
        Some(Error::ConfigurationError)
    );
    assert_eq!(
        CacheBuilder::new_lru(1024).high_pri_pool_ratio(101).build().err(),
        Some(Error::ConfigurationError)
    );
    assert_eq!(
        CacheBuilder::new_lru(1024).num_shard_bits(20).build().err(),
        Some(Error::ConfigurationError)
    );
    assert!(CacheBuilder::new_lru(1024).num_shard_bits(19).build().is_ok());
}

#[test]
fn automatic_shard_bits() {
    assert_eq!(auto_shard_bits(1024), 0);
    assert_eq!(auto_shard_bits(1024 * 1024), 1);
    assert_eq!(auto_shard_bits(4 * 1024 * 1024), 3);
    assert_eq!(auto_shard_bits(64 * 1024 * 1024), 6);
    assert_eq!(auto_shard_bits(usize::MAX), 6);
}

#[test]
fn shard_index_takes_top_bits() {
    assert_eq!(shard_index(0xFFFF_FFFF, 0), 0);
    assert_eq!(shard_index(0xFFFF_FFFF, 2), 3);
    assert_eq!(shard_index(0x4000_0000, 2), 1);
    assert_eq!(shard_index(0x8000_0000, 1), 1);
}

#[test]
fn fnv_hash_values() {
    assert_eq!(fnv1a_hash(b""), 0x811c_9dc5);
    assert_eq!(fnv1a_hash(b"a"), 0xe40c_292c);
    assert_eq!(fnv1a_hash(b"foobar"), 0xbf9c_f968);
    assert_eq!(hash_key(b""), 0xab3e_7c0b);
    assert_eq!(hash_key(b"a"), 0x1a80_b1b3);
    assert_eq!(hash_key(b"foobar"), 0x0c0d_a6dc);
}

#[test]
fn shards_are_evenly_used() {
    let bits: u32 = 3;
    let n = 1usize << bits;
    let mut counts = vec![0usize; n];
    let total = 8192;
    for i in 0..total {
        let key = format!("key-{}", i);
        counts[shard_index(hash_key(key.as_bytes()), bits)] += 1;
    }
    let expected = total / n;
    for c in counts {
        assert!(c > expected * 8 / 10 && c < expected * 12 / 10, "count {}", c);
    }
}

#[test]
fn lru_evicts_earliest_untouched() {
    let mut cache = CacheBuilder::new_lru(3).num_shard_bits(0).build().unwrap();
    cache.insert(b"k1", 1, 1, Priority::Low).unwrap();
    cache.insert(b"k2", 2, 1, Priority::Low).unwrap();
    cache.insert(b"k3", 3, 1, Priority::Low).unwrap();
    let released = cache.insert(b"k4", 4, 1, Priority::Low).unwrap();
    assert_eq!(released, vec![(b"k1".to_vec(), 1)]);
    assert_eq!(cache.get(b"k2"), Some(2));
    assert_eq!(cache.get(b"k3"), Some(3));
    assert_eq!(cache.get(b"k4"), Some(4));
}

#[test]
fn shrinking_empty_cache_keeps_zero_usage() {
    let mut cache = CacheBuilder::new_clock(1024).num_shard_bits(2).build().unwrap();
    assert!(cache.set_capacity(512).is_empty());
    assert_eq!(cache.get_capacity(), 512);
    assert_eq!(cache.get_usage(), 0);
}

#[test]
fn clear_releases_everything_once() {
    let mut cache = CacheBuilder::new_lru(100).num_shard_bits(2).build().unwrap();
    for i in 0..10u64 {
        let key = format!("k{}", i);
        cache.insert(key.as_bytes(), i, 3, Priority::Low).unwrap();
    }
    let mut released = cache.clear();
    released.sort();
    assert_eq!(released.len(), 10);
    released.dedup();
    assert_eq!(released.len(), 10);
    assert_eq!(cache.get_usage(), 0);
    assert_eq!(cache.get(b"k3"), None);
}

#[test]
fn clock_replacement_counts_as_use() {
    let mut cache = CacheBuilder::new_clock(2).num_shard_bits(0).build().unwrap();
    cache.insert(b"A", 1, 1, Priority::Low).unwrap();
    cache.insert(b"B", 2, 1, Priority::Low).unwrap();
    let released = cache.insert(b"A", 3, 1, Priority::Low).unwrap();
    assert_eq!(released, vec![(b"A".to_vec(), 1)]);
    let released = cache.insert(b"C", 4, 1, Priority::Low).unwrap();
    assert_eq!(released, vec![(b"B".to_vec(), 2)]);
    assert_eq!(cache.get(b"A"), Some(3));
}
