use bytes::Bytes;
use redistill::eviction::{
    evict_if_needed, evict_lru, evict_oldest, evict_random, expire_random_keys,
    expire_random_keys_at, has_room, sweep_drawn,
};
use redistill::limits::{EvictionPolicy, MemoryLimits};
use redistill::snapshot::import_snapshot;
use redistill::store::ShardedStore;

fn b(text: &str) -> Bytes {
    Bytes::copy_from_slice(text.as_bytes())
}

fn store_with(policy: EvictionPolicy, max_memory: u64, samples: usize) -> ShardedStore {
    ShardedStore::with_limits(
        1,
        MemoryLimits { max_memory, eviction_policy: policy, eviction_sample_size: samples },
    )
}

// Stores byte strings of one byte with the memory counter in step.
fn fill(store: &mut ShardedStore, keys: usize) {
    for i in 0..keys {
        let key = format!("{:04}", i);
        let record = format!("*4\r\n$1\r\nt\r\n$0\r\n\r\n$4\r\n{}\r\n$1\r\nx\r\n", key);
        assert_eq!(import_snapshot(store, record.as_bytes(), 0), Some(1));
    }
}

#[test]
fn there_is_room_without_a_limit() {
    let mut store = ShardedStore::new(4);
    store.set(b("k"), b("v"), None, 0);
    assert!(evict_if_needed(&mut store, usize::MAX));
    assert_eq!(store.len(), 1);
    assert!(has_room(&store, usize::MAX));
}

#[test]
fn there_is_room_up_to_the_limit() {
    let mut store = store_with(EvictionPolicy::NoEviction, 100, 5);
    assert!(evict_if_needed(&mut store, 100));
    assert!(!evict_if_needed(&mut store, 101));
}

#[test]
fn nothing_is_evicted_where_that_is_the_policy() {
    let mut store = store_with(EvictionPolicy::NoEviction, 690, 5);
    fill(&mut store, 10);
    assert_eq!(store.memory_used(), 690);
    assert!(!evict_if_needed(&mut store, 1));
    assert_eq!(store.len(), 10);
    assert_eq!(store.evicted_keys(), 0);
}

#[test]
fn as_many_keys_are_evicted_as_are_needed() {
    for policy in [EvictionPolicy::AllKeysLru, EvictionPolicy::AllKeysRandom] {
        let mut store = store_with(policy, 690, 5);
        fill(&mut store, 10);
        assert!(evict_if_needed(&mut store, 70));
        assert_eq!(store.len(), 8);
        assert_eq!(store.evicted_keys(), 2);
        assert_eq!(store.memory_used(), 8 * 69);
    }
}

#[test]
fn at_most_a_hundred_keys_are_evicted_at_once() {
    let mut store = store_with(EvictionPolicy::AllKeysRandom, 200 * 69, 5);
    fill(&mut store, 200);
    assert!(!evict_if_needed(&mut store, 200 * 69));
    assert_eq!(store.len(), 100);
}

#[test]
fn too_large_a_need_is_refused_after_everything_went() {
    let mut store = store_with(EvictionPolicy::AllKeysLru, 690, 5);
    fill(&mut store, 10);
    assert!(!evict_if_needed(&mut store, 691));
    assert_eq!(store.len(), 0);
    assert_eq!(store.memory_used(), 0);
}

#[test]
fn one_eviction_frees_one_key() {
    let mut store = store_with(EvictionPolicy::AllKeysLru, 690, 3);
    fill(&mut store, 5);
    assert_eq!(evict_lru(&mut store), 69);
    assert_eq!(evict_random(&mut store), 69);
    assert_eq!(store.len(), 3);
    assert_eq!(store.evicted_keys(), 2);
}

#[test]
fn nothing_is_evicted_from_an_empty_store() {
    let mut store = store_with(EvictionPolicy::AllKeysLru, 690, 3);
    assert_eq!(evict_lru(&mut store), 0);
    assert_eq!(evict_random(&mut store), 0);
    assert_eq!(store.evicted_keys(), 0);
}

#[test]
fn nothing_is_evicted_without_samples() {
    let mut store = store_with(EvictionPolicy::AllKeysLru, 690, 0);
    fill(&mut store, 10);
    assert_eq!(evict_lru(&mut store), 0);
    assert!(!evict_if_needed(&mut store, 1));
    assert_eq!(store.len(), 10);
}

#[test]
fn the_least_recently_used_key_goes_first() {
    let mut store = store_with(EvictionPolicy::AllKeysLru, 1 << 20, 300);
    for (key, accessed) in [("a", 30), ("b", 10), ("c", 20)] {
        store.set_accessed(b(key), b("v"), None, 100, Some(accessed));
    }
    assert_eq!(evict_lru(&mut store), 66);
    assert_eq!(store.get_accessed(b"b", 100, None), None);
    assert_eq!(store.get_accessed(b"c", 100, Some(40)), Some(b("v")));
    assert_eq!(evict_lru(&mut store), 66);
    assert_eq!(store.get_accessed(b"a", 100, None), None);
    assert_eq!(store.get_accessed(b"c", 100, None), Some(b("v")));
}

#[test]
fn the_oldest_sample_is_evicted() {
    let mut store = ShardedStore::new(4);
    fill(&mut store, 5);
    let samples = vec![(b("0000"), 7), (b("0003"), 5), (b("0001"), 6)];
    assert_eq!(evict_oldest(&mut store, &samples), 69);
    assert_eq!(store.len(), 4);
    assert_eq!(store.count_existing(&[b("0003")], 0), 0);
    assert_eq!(store.evicted_keys(), 1);
    assert_eq!(evict_oldest(&mut store, &vec![(b("0004"), u32::MAX)]), 69);
    assert_eq!(store.count_existing(&[b("0004")], 0), 0);
    assert_eq!(store.evicted_keys(), 2);
}

#[test]
fn the_first_of_equally_old_samples_is_evicted() {
    let mut store = ShardedStore::new(4);
    fill(&mut store, 3);
    let samples = vec![(b("0000"), 9), (b("0002"), 4), (b("0001"), 4)];
    assert_eq!(evict_oldest(&mut store, &samples), 69);
    assert_eq!(store.count_existing(&[b("0002")], 0), 0);
    assert_eq!(store.count_existing(&[b("0000"), b("0001")], 0), 2);
}

#[test]
fn no_sample_and_no_such_key_evict_nothing() {
    let mut store = ShardedStore::new(4);
    fill(&mut store, 3);
    assert_eq!(evict_oldest(&mut store, &Vec::new()), 0);
    assert_eq!(evict_oldest(&mut store, &vec![(b("gone"), 1), (b("0001"), 2)]), 0);
    assert_eq!(store.len(), 3);
    assert_eq!(store.evicted_keys(), 0);
}

#[test]
fn reading_and_setting_fields_counts_as_access() {
    let mut store = store_with(EvictionPolicy::AllKeysLru, 1 << 20, 300);
    for (key, accessed) in [("a", 10), ("b", 20), ("c", 30), ("d", 40)] {
        let fields = vec![(b("f"), b("v"))];
        assert_eq!(store.hset_accessed(b(key), &fields, 100, Some(accessed)), Ok(1));
    }
    assert_eq!(store.hget_accessed(b"a", b"f", 100, Some(50)), Ok(Some(b("v"))));
    assert_eq!(store.hgetall_accessed(b"b", 100, Some(60)), Ok(vec![b("f"), b("v")]));
    assert_eq!(store.hset_accessed(b("c"), &vec![(b("f"), b("w"))], 100, Some(70)), Ok(0));
    for key in ["d", "a", "b"] {
        assert!(evict_lru(&mut store) > 0);
        assert_eq!(store.count_existing(&[b(key)], 100), 0);
    }
    assert_eq!(store.hget_accessed(b"c", b"f", 100, None), Ok(Some(b("w"))));
    assert_eq!(store.len(), 1);
}

#[test]
fn new_entries_count_as_accessed_at_the_start() {
    let mut store = store_with(EvictionPolicy::AllKeysLru, 1 << 20, 300);
    store.set_accessed(b("a"), b("v"), None, 100, Some(1));
    store.set_accessed(b("b"), b("v"), None, 100, None);
    assert_eq!(evict_lru(&mut store), 66);
    assert_eq!(store.count_existing(&[b("b")], 100), 0);
    assert_eq!(store.hset_accessed(b("h"), &[(b("f"), b("v"))], 100, None), Ok(1));
    assert!(evict_lru(&mut store) > 0);
    assert_eq!(store.count_existing(&[b("h")], 100), 0);
    assert_eq!(store.count_existing(&[b("a")], 100), 1);
}

#[test]
fn a_drawn_key_is_swept_once_it_has_expired() {
    let mut store = ShardedStore::new(4);
    store.set(b("old"), b("v"), Some(1), 100);
    store.set(b("live"), b("v"), None, 100);
    assert!(!sweep_drawn(&mut store, b"old", 100));
    assert_eq!(store.len(), 2);
    assert!(sweep_drawn(&mut store, b"old", 101));
    assert_eq!(store.len(), 1);
    assert!(!sweep_drawn(&mut store, b"old", 101));
    assert!(!sweep_drawn(&mut store, b"live", u64::MAX));
    assert_eq!(store.get(b"live", 101), Some(b("v")));
    assert_eq!(store.evicted_keys(), 0);
}

#[test]
fn expired_keys_are_swept() {
    let mut store = ShardedStore::new(1);
    for i in 0..10 {
        store.set(b(&format!("old:{}", i)), b("v"), Some(1), 100);
    }
    assert_eq!(expire_random_keys_at(&mut store, 20, 100), 0);
    assert_eq!(store.len(), 10);
    assert_eq!(expire_random_keys_at(&mut store, 4, 101), 4);
    assert_eq!(store.len(), 6);
    assert_eq!(expire_random_keys_at(&mut store, 20, 101), 6);
    assert!(store.is_empty());
}

#[test]
fn live_keys_are_not_swept() {
    let mut store = ShardedStore::new(1);
    store.set(b("live"), b("v"), None, 100);
    store.set(b("old"), b("v"), Some(1), 100);
    let removed = expire_random_keys(&mut store, 500);
    assert_eq!(removed, 1);
    assert_eq!(store.get(b"live", 100), Some(b("v")));
    assert_eq!(store.len(), 1);
}

#[test]
fn policies_have_names() {
    for policy in [
        EvictionPolicy::NoEviction,
        EvictionPolicy::AllKeysLru,
        EvictionPolicy::AllKeysRandom,
    ] {
        assert_eq!(EvictionPolicy::from_name(policy.as_str().as_bytes()), Some(policy));
    }
    assert_eq!(EvictionPolicy::AllKeysLru.as_str(), "allkeys-lru");
    assert_eq!(EvictionPolicy::from_name(b"AllKeys-Random"), Some(EvictionPolicy::AllKeysRandom));
    assert_eq!(EvictionPolicy::from_name(b"volatile-lru"), None);
}
