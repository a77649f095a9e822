use bytes::Bytes;
use redistill::entry::{Entry, EntryValue};
use redistill::order::{comes_before, sort_by_key};
use redistill::scan::{encode_cursor, scan_list};
use redistill::store::ShardedStore;

fn b(text: &str) -> Bytes {
    Bytes::copy_from_slice(text.as_bytes())
}

fn filled(shards: usize, keys: usize) -> ShardedStore {
    let mut store = ShardedStore::new(shards);
    for i in 0..keys {
        store.set(b(&format!("key:{}", i)), b("v"), None, 100);
    }
    store
}

fn walk(store: &ShardedStore, count: usize, pattern: Option<&[u8]>, now: u64) -> Vec<Bytes> {
    let mut all = Vec::new();
    let mut cursor = 0;
    loop {
        let (next, keys) = store.scan(cursor, count, pattern, now);
        all.extend(keys);
        if next == 0 {
            return all;
        }
        cursor = next;
    }
}

fn listed(keys: &[&str], expiry: Option<u64>) -> Vec<(Bytes, Entry)> {
    keys.iter()
        .map(|key| {
            (b(key), Entry { value: EntryValue::String(b("v")), expiry, last_accessed: 0 })
        })
        .collect()
}

#[test]
fn a_walk_gives_every_key_once() {
    let store = filled(8, 500);
    for count in [1, 10, 37, 100, 5000] {
        let mut keys = walk(&store, count, None, 100);
        keys.sort();
        let mut expected: Vec<Bytes> = (0..500).map(|i| b(&format!("key:{}", i))).collect();
        expected.sort();
        assert_eq!(keys, expected);
    }
}

#[test]
fn keys_come_in_the_order_of_their_bytes() {
    for (a, b) in [("", "a"), ("a", "b"), ("a", "aa"), ("Z", "a"), ("key:10", "key:9")] {
        assert!(comes_before(a.as_bytes(), b.as_bytes()));
        assert!(!comes_before(b.as_bytes(), a.as_bytes()));
    }
    assert!(!comes_before(b"", b""));
    assert!(!comes_before(b"same", b"same"));
    assert!(comes_before(&[0x7f], &[0x80]));
}

#[test]
fn lists_are_sorted_by_key() {
    let keys = |list: Vec<(Bytes, Entry)>| -> Vec<Bytes> {
        sort_by_key(list).into_iter().map(|(key, _)| key).collect()
    };
    assert_eq!(keys(listed(&[], None)), Vec::<Bytes>::new());
    assert_eq!(keys(listed(&["one"], None)), vec![b("one")]);
    assert_eq!(
        keys(listed(&["d", "a", "c", "", "b", "ab", "e"], None)),
        vec![b(""), b("a"), b("ab"), b("b"), b("c"), b("d"), b("e")],
    );
    assert_eq!(keys(listed(&["b", "a", "b"], None)), vec![b("a"), b("b"), b("b")]);
}

#[test]
fn a_shard_is_walked_in_the_order_of_its_keys() {
    let mut store = ShardedStore::new(1);
    for i in 0..25 {
        store.set(b(&format!("{:02}", (i * 7) % 25)), b("v"), None, 100);
    }
    let expected: Vec<Bytes> = (0..25).map(|i| b(&format!("{:02}", i))).collect();
    assert_eq!(store.scan(0, 10, None, 100), (10, expected[..10].to_vec()));
    assert_eq!(store.scan(10, 10, None, 100), (20, expected[10..20].to_vec()));
    assert_eq!(store.scan(20, 10, None, 100), (0, expected[20..].to_vec()));
}

#[test]
fn the_same_question_has_one_answer() {
    let store = filled(8, 400);
    let mut cursor = 0;
    let mut calls = 0;
    loop {
        let page = store.scan(cursor, 17, Some(b"key:*"), 100);
        assert_eq!(store.scan(cursor, 17, Some(b"key:*"), 100), page);
        calls += 1;
        assert!(calls <= 41);
        if page.0 == 0 {
            break;
        }
        cursor = page.0;
    }
}

#[test]
fn a_walk_gives_matching_keys_only() {
    let mut store = filled(8, 300);
    for i in 0..25 {
        store.set(b(&format!("session:{}", i)), b("v"), None, 100);
    }
    let mut keys = walk(&store, 10, Some(b"session:*"), 100);
    keys.sort();
    let mut expected: Vec<Bytes> = (0..25).map(|i| b(&format!("session:{}", i))).collect();
    expected.sort();
    assert_eq!(keys, expected);
}

#[test]
fn a_walk_leaves_out_expired_keys() {
    let mut store = filled(4, 30);
    store.set(b("old"), b("v"), Some(1), 100);
    assert_eq!(walk(&store, 10, Some(b"old"), 100), vec![b("old")]);
    assert_eq!(walk(&store, 10, Some(b"old"), 101), Vec::<Bytes>::new());
}

#[test]
fn a_page_holds_between_ten_and_a_thousand_keys() {
    let store = filled(1, 1500);
    assert_eq!(store.scan(0, 0, None, 100).1.len(), 10);
    assert_eq!(store.scan(0, 9, None, 100).1.len(), 10);
    assert_eq!(store.scan(0, 11, None, 100).1.len(), 11);
    assert_eq!(store.scan(0, usize::MAX, None, 100).1.len(), 1000);
    assert_eq!(store.scan(0, 10, None, 100).0, 10);
    assert_eq!(store.scan(10, 1000, None, 100).0, 1010);
    assert_eq!(store.scan(1010, 1000, None, 100).0, 0);
}

#[test]
fn a_page_looks_at_three_times_as_many_entries() {
    let store = filled(1, 100);
    let (next, keys) = store.scan(0, 10, Some(b"nothing"), 100);
    assert_eq!(next, 30);
    assert!(keys.is_empty());
}

#[test]
fn a_cursor_out_of_range_ends_the_walk() {
    let store = filled(4, 50);
    assert_eq!(store.scan(4_000_000_000, 10, None, 100), (0, vec![]));
    assert_eq!(store.scan(u64::MAX, 10, None, 100), (0, vec![]));
}

#[test]
fn a_position_past_the_shard_goes_on_with_the_next() {
    let store = filled(2, 40);
    let (_, keys) = store.scan(999_999_999, 1000, None, 100);
    let second = (0..40).filter(|i| store.hash(format!("key:{}", i).as_bytes()) == 1).count();
    assert_eq!(keys.len(), second);
}

#[test]
fn cursors_name_shard_and_position() {
    assert_eq!(encode_cursor(0, 0), 0);
    assert_eq!(encode_cursor(2048, 1), 2_048_000_000_001);
}

#[test]
fn a_list_is_searched_from_a_position() {
    let list = listed(&["a", "b", "c", "d"], None);
    let mut found = Vec::new();
    assert_eq!(scan_list(&list, 1, 2, None, 0, &mut found, 0), (Some(3), 2));
    assert_eq!(found, vec![b("b"), b("c")]);
    let mut found = Vec::new();
    assert_eq!(scan_list(&list, 1, 10, Some(b"?"), 0, &mut found, 5), (None, 8));
    assert_eq!(found, vec![b("b"), b("c"), b("d")]);
    let mut found = Vec::new();
    assert_eq!(scan_list(&list, 9, 10, None, 0, &mut found, 0), (None, 0));
    assert!(found.is_empty());
}

#[test]
fn a_list_search_stops_after_enough_entries() {
    let list = listed(&["a", "b", "c", "d"], Some(10));
    let mut found = Vec::new();
    assert_eq!(scan_list(&list, 0, 1, None, 10, &mut found, 0), (Some(3), 3));
    assert!(found.is_empty());
    assert_eq!(scan_list(&list, 0, 1, None, 10, &mut found, 3), (Some(0), 3));
    assert_eq!(scan_list(&list, 0, 1, None, 9, &mut found, 0), (Some(1), 1));
    assert_eq!(found, vec![b("a")]);
}

#[test]
fn the_same_question_has_the_same_answer() {
    let store = filled(4, 200);
    assert_eq!(store.scan(0, 20, None, 100), store.scan(0, 20, None, 100));
    let cursor = store.scan(0, 20, None, 100).0;
    assert_eq!(store.scan(cursor, 20, None, 100), store.scan(cursor, 20, None, 100));
}
