use bytes::Bytes;
use redistill::snapshot::{export_snapshot, import_snapshot, parse_snapshot};
use redistill::store::ShardedStore;

fn b(text: &str) -> Bytes {
    Bytes::copy_from_slice(text.as_bytes())
}

#[test]
fn a_snapshot_is_read_back() {
    let mut store = ShardedStore::new(8);
    for i in 0..40 {
        store.set(b(&format!("key:{}", i)), b(&format!("value:{}", i)), None, 100);
    }
    store.set(b("soon"), b("v"), Some(50), 100);
    store.set(b("old"), b("v"), Some(1), 100);
    store.hset(b("h"), &[(b("f"), b("1")), (b("g"), b("2"))], 100).unwrap();
    let (bytes, count) = export_snapshot(&store, 110);
    assert_eq!(count, 42);
    let mut copy = ShardedStore::new(3);
    assert_eq!(import_snapshot(&mut copy, &bytes, 110), Some(42));
    assert_eq!(copy.len(), 42);
    for i in 0..40 {
        assert_eq!(
            copy.get(format!("key:{}", i).as_bytes(), 110),
            Some(b(&format!("value:{}", i)))
        );
    }
    assert_eq!(copy.get(b"soon", 149), Some(b("v")));
    assert_eq!(copy.get(b"soon", 150), None);
    assert_eq!(copy.hget(b"h", b"g", 110), Ok(Some(b("2"))));
    assert_eq!(copy.get(b"old", 100), None);
}

#[test]
fn an_empty_snapshot_holds_nothing() {
    let store = ShardedStore::new(8);
    assert_eq!(export_snapshot(&store, 0), (vec![], 0));
    let mut copy = ShardedStore::new(8);
    assert_eq!(import_snapshot(&mut copy, b"", 0), Some(0));
}

#[test]
fn records_that_have_expired_since_are_left_out() {
    let mut store = ShardedStore::new(8);
    store.set(b("k"), b("v"), Some(10), 100);
    let (bytes, count) = export_snapshot(&store, 105);
    assert_eq!(count, 1);
    assert_eq!(bytes, b"*4\r\n$1\r\nt\r\n$3\r\n110\r\n$1\r\nk\r\n$1\r\nv\r\n".to_vec());
    let mut copy = ShardedStore::new(8);
    assert_eq!(import_snapshot(&mut copy, &bytes, 110), Some(0));
    assert!(copy.is_empty());
}

#[test]
fn what_is_no_snapshot_is_refused() {
    let mut store = ShardedStore::new(8);
    store.set(b("k"), b("v"), None, 100);
    for bytes in [
        b"garbage" as &[u8],
        b"*4\r\n$1\r\nt\r\n$0\r\n\r\n$1\r\nk\r\n$1\r\n",
        b"*3\r\n$1\r\nt\r\n$0\r\n\r\n$1\r\nk\r\n",
        b"*4\r\n$1\r\nx\r\n$0\r\n\r\n$1\r\nk\r\n$1\r\nv\r\n",
        b"*4\r\n$1\r\nt\r\n$1\r\n-\r\n$1\r\nk\r\n$1\r\nv\r\n",
        b"*4\r\n$1\r\nh\r\n$0\r\n\r\n$1\r\nk\r\n$1\r\nf\r\n",
        b"*2\r\n$1\r\nt\r\n$0\r\n\r\n",
        b"*4\r\n$2\r\ntt\r\n$0\r\n\r\n$1\r\nk\r\n$1\r\nv\r\n",
    ] {
        assert_eq!(import_snapshot(&mut store, bytes, 100), None);
        assert!(parse_snapshot(bytes).is_none());
    }
    assert_eq!(store.get(b"k", 100), Some(b("v")));
    assert_eq!(store.len(), 1);
}
