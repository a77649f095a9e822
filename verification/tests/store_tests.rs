use bytes::Bytes;
use redistill::clock::{get_timestamp, get_uptime_seconds, uptime_at};
use redistill::entry::{Entry, EntryValue};
use redistill::limits::{EvictionPolicy, MemoryLimits};
use redistill::size::{calculate_entry_size, entry_size};
use redistill::store::{access_time, records_access, ShardedStore, WRONG_TYPE};

fn b(text: &str) -> Bytes {
    Bytes::copy_from_slice(text.as_bytes())
}

fn limited(max_memory: u64) -> ShardedStore {
    ShardedStore::with_limits(
        4,
        MemoryLimits {
            max_memory,
            eviction_policy: EvictionPolicy::AllKeysRandom,
            eviction_sample_size: 5,
        },
    )
}

fn pairs(list: &[(&str, &str)]) -> Vec<(Bytes, Bytes)> {
    list.iter().map(|(f, v)| (b(f), b(v))).collect()
}

#[test]
fn what_is_set_is_read() {
    let mut store = ShardedStore::new(16);
    assert_eq!(store.set(b("k"), b("v"), None, 100), None);
    assert_eq!(store.get(b"k", 100), Some(b("v")));
    assert_eq!(store.get(b"other", 100), None);
    assert_eq!(store.len(), 1);
}

#[test]
fn setting_again_returns_the_old_size() {
    let mut store = ShardedStore::new(16);
    store.set(b("key"), b("first"), None, 100);
    assert_eq!(store.set(b("key"), b("2nd"), None, 100), Some(3 + 5 + 64));
    assert_eq!(store.get(b"key", 100), Some(b("2nd")));
    assert_eq!(store.len(), 1);
}

#[test]
fn keys_expire_at_their_deadline() {
    let mut store = ShardedStore::new(16);
    store.set(b("k"), b("v"), Some(10), 100);
    assert_eq!(store.get(b"k", 109), Some(b("v")));
    assert_eq!(store.len(), 1);
    assert_eq!(store.get(b"k", 110), None);
    assert_eq!(store.len(), 0);
}

#[test]
fn very_large_times_to_live_do_not_wrap() {
    let mut store = ShardedStore::new(16);
    store.set(b("k"), b("v"), Some(u64::MAX), 100);
    assert_eq!(store.get(b"k", u64::MAX - 1), Some(b("v")));
    assert_eq!(store.get(b"k", u64::MAX), None);
}

#[test]
fn existing_size_is_told_for_live_keys_only() {
    let mut store = ShardedStore::new(16);
    store.set(b("k"), b("value"), Some(10), 100);
    assert_eq!(store.get_existing_size(b"k", 109), Some(1 + 5 + 64));
    assert_eq!(store.get_existing_size(b"k", 110), None);
    assert_eq!(store.get_existing_size(b"none", 100), None);
}

#[test]
fn deleting_counts_live_keys_once() {
    let mut store = ShardedStore::new(16);
    store.set(b("a"), b("1"), None, 100);
    store.set(b("old"), b("2"), Some(1), 100);
    let keys = vec![b("a"), b("a"), b("old"), b("none")];
    assert_eq!(store.delete(&keys, 200), 1);
    assert_eq!(store.get(b"a", 200), None);
    assert!(store.is_empty());
}

#[test]
fn existing_keys_are_counted_each_time() {
    let mut store = ShardedStore::new(16);
    store.set(b("a"), b("1"), None, 100);
    store.set(b("old"), b("2"), Some(1), 100);
    let keys = vec![b("a"), b("a"), b("old"), b("none")];
    assert_eq!(store.count_existing(&keys, 200), 2);
    assert_eq!(store.len(), 2);
}

#[test]
fn keys_lists_live_keys() {
    let mut store = ShardedStore::new(16);
    for i in 0..50 {
        store.set(b(&format!("key:{}", i)), b("v"), None, 100);
    }
    store.set(b("old"), b("v"), Some(5), 100);
    let mut keys = store.keys(105);
    keys.sort();
    let mut expected: Vec<Bytes> = (0..50).map(|i| b(&format!("key:{}", i))).collect();
    expected.sort();
    assert_eq!(keys, expected);
    assert_eq!(store.len(), 51);
}

#[test]
fn clearing_removes_everything() {
    let mut store = ShardedStore::new(16);
    for i in 0..20 {
        store.set(b(&format!("key:{}", i)), b("v"), None, 100);
    }
    assert!(!store.is_empty());
    store.clear();
    assert!(store.is_empty());
    assert_eq!(store.len(), 0);
}

#[test]
fn keys_are_placed_in_their_shards() {
    let store = ShardedStore::new(7);
    let places: Vec<usize> =
        (0..100).map(|i| store.hash(format!("key:{}", i).as_bytes())).collect();
    assert!(places.iter().all(|place| *place < 7));
    assert!(places.iter().any(|place| *place != places[0]));
    assert_eq!(store.hash(b"same"), store.hash(b"same"));
    assert_eq!(store.shard_count(), 7);
}

#[test]
fn hash_fields_are_set_and_read() {
    let mut store = ShardedStore::new(16);
    let profile = pairs(&[
        ("name", "John Doe"),
        ("email", "john@example.com"),
        ("age", "30"),
        ("city", "New York"),
    ]);
    assert_eq!(store.hset(b("user:1001"), &profile, 100), Ok(4));
    assert_eq!(store.hget(b"user:1001", b"name", 100), Ok(Some(b("John Doe"))));
    let update = pairs(&[("age", "31"), ("city", "San Francisco")]);
    assert_eq!(store.hset(b("user:1001"), &update, 100), Ok(0));
    assert_eq!(store.hget(b"user:1001", b"age", 100), Ok(Some(b("31"))));
    assert_eq!(store.hget(b"user:1001", b"name", 100), Ok(Some(b("John Doe"))));
    assert_eq!(store.hget(b"user:1001", b"none", 100), Ok(None));
    assert_eq!(store.hget(b"none", b"name", 100), Ok(None));
}

#[test]
fn a_field_given_twice_counts_once_and_keeps_the_last_value() {
    let mut store = ShardedStore::new(16);
    let fields = pairs(&[("f", "1"), ("f", "2"), ("g", "3")]);
    assert_eq!(store.hset(b("h"), &fields, 100), Ok(2));
    assert_eq!(store.hget(b"h", b"f", 100), Ok(Some(b("2"))));
}

#[test]
fn all_fields_are_listed() {
    let mut store = ShardedStore::new(16);
    store.hset(b("h"), &pairs(&[("a", "1"), ("b", "2")]), 100).unwrap();
    let flat = store.hgetall(b"h", 100).unwrap();
    let mut found: Vec<(Bytes, Bytes)> =
        flat.chunks(2).map(|pair| (pair[0].clone(), pair[1].clone())).collect();
    found.sort();
    assert_eq!(found, pairs(&[("a", "1"), ("b", "2")]));
    assert_eq!(store.hgetall(b"none", 100), Ok(vec![]));
}

#[test]
fn hashes_and_byte_strings_do_not_mix() {
    let mut store = ShardedStore::new(16);
    store.set(b("s"), b("v"), None, 100);
    assert_eq!(store.hset(b("s"), &pairs(&[("f", "1")]), 100), Err(WRONG_TYPE));
    assert_eq!(store.hget(b"s", b"f", 100), Err(WRONG_TYPE));
    assert_eq!(store.hgetall(b"s", 100), Err(WRONG_TYPE));
    store.hset(b("h"), &pairs(&[("f", "1")]), 100).unwrap();
    assert_eq!(store.get(b"h", 100), None);
    assert_eq!(store.get(b"s", 100), Some(b("v")));
    assert_eq!(
        WRONG_TYPE,
        "WRONGTYPE Operation against a key holding the wrong kind of value"
    );
}

#[test]
fn an_expired_byte_string_gives_way_to_a_hash() {
    let mut store = ShardedStore::new(16);
    store.set(b("k"), b("v"), Some(1), 100);
    assert_eq!(store.hset(b("k"), &pairs(&[("f", "1")]), 101), Ok(1));
    assert_eq!(store.hget(b"k", b"f", u64::MAX), Ok(Some(b("1"))));
}

#[test]
fn memory_follows_hashes_under_a_limit() {
    let mut store = limited(1 << 20);
    store.hset(b("h"), &pairs(&[("ab", "cde")]), 100).unwrap();
    assert_eq!(store.memory_used(), 1 + 64 + 128 + 5);
    store.hset(b("h"), &pairs(&[("x", "y")]), 100).unwrap();
    assert_eq!(store.memory_used(), 1 + 64 + 128 + 7);
    store.delete(&[b("h")], 100);
    assert_eq!(store.memory_used(), 0);
}

#[test]
fn memory_is_released_when_expired_keys_are_looked_at() {
    let mut store = limited(1 << 20);
    store.hset(b("h"), &pairs(&[("f", "v")]), 100).unwrap();
    let bytes = redistill::snapshot::export_snapshot(&store, 100).0;
    let mut other = limited(1 << 20);
    let text = String::from_utf8(bytes).unwrap().replace("$0\r\n\r\n", "$3\r\n105\r\n");
    assert_eq!(redistill::snapshot::import_snapshot(&mut other, text.as_bytes(), 100), Some(1));
    assert_eq!(other.memory_used(), 1 + 64 + 128 + 2);
    assert_eq!(other.hget(b"h", b"f", 104), Ok(Some(b("v"))));
    assert_eq!(other.hget(b"h", b"f", 105), Ok(None));
    assert_eq!(other.memory_used(), 0);
}

#[test]
fn sizes_add_up() {
    assert_eq!(entry_size(3, 5), 72);
    assert_eq!(entry_size(0, 0), 64);
    assert_eq!(entry_size(usize::MAX, 1), usize::MAX);
    assert_eq!(calculate_entry_size(3, &EntryValue::String(b("hello"))), 72);
}

#[test]
fn copies_of_entries_hold_the_same() {
    let entry =
        Entry { value: EntryValue::String(b("v")), expiry: Some(7), last_accessed: 3 };
    let copy = entry.clone();
    assert!(matches!(copy.value, EntryValue::String(ref text) if text == "v"));
    assert_eq!(copy.expiry, Some(7));
    assert_eq!(copy.last_accessed, 3);
    assert!(entry.is_expired(7));
    assert!(!entry.is_expired(6));
}

#[test]
fn flushing_takes_live_memory_off_the_counter() {
    let mut store = limited(1 << 20);
    store.hset(b("h"), &pairs(&[("f", "v")]), 100).unwrap();
    store.flush_at(100);
    assert_eq!(store.memory_used(), 0);
    assert!(store.is_empty());
}

#[test]
fn flushing_now_empties_the_store() {
    let mut store = ShardedStore::new(4);
    store.set(b("k"), b("v"), None, 100);
    store.flush();
    assert!(store.is_empty());
}

#[test]
fn the_clock_runs() {
    let now = get_timestamp();
    assert!(now > 1_600_000_000);
    assert!(get_uptime_seconds(now) < 60);
    assert_eq!(uptime_at(1_005, 1_000), 5);
    assert_eq!(uptime_at(1_000, 1_005), u32::MAX - 4);
}

#[test]
fn a_store_without_shards_is_empty() {
    let store = ShardedStore::new(0);
    assert_eq!(store.len(), 0);
    assert!(store.is_empty());
    assert_eq!(store.keys(0), Vec::<Bytes>::new());
    assert_eq!(store.scan(0, 10, None, 0), (0, vec![]));
}

#[test]
fn one_access_in_ten_is_recorded() {
    assert!(records_access(0));
    assert!(!records_access(1));
    assert!(!records_access(9));
    assert!(records_access(10));
    assert_eq!((0..1000).filter(|roll| records_access(*roll)).count(), 100);
}

#[test]
fn looking_at_an_expired_key_changes_nothing_else() {
    let mut store = ShardedStore::new(4);
    store.set(b("old"), b("v"), Some(1), 100);
    store.set(b("live"), b("v"), Some(50), 100);
    assert_eq!(store.get(b"old", 101), None);
    assert_eq!(store.get(b"live", 101), Some(b("v")));
    assert_eq!(store.keys(101), vec![b("live")]);
}

#[test]
fn a_recorded_access_has_a_time() {
    let now = get_timestamp();
    assert!(matches!(access_time(20, now - 500), Some(time) if (500..560).contains(&time)));
    assert_eq!(access_time(21, now - 500), None);
    assert_eq!(access_time(u32::MAX, 0), None);
}
