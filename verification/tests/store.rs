use dht_core::keyhash::hash_key;
use dht_core::id::KEY_LEN;
use dht_core::store::KvStore;

#[test]
fn put_then_get_returns_the_value() {
    let mut s = KvStore::new();
    s.put_local(b"alpha".to_vec(), b"one".to_vec());
    assert_eq!(s.get_local(&b"alpha".to_vec()), Some(b"one".to_vec()));
    assert_eq!(s.get_local(&b"beta".to_vec()), None);
}

#[test]
fn upsert_is_last_writer_wins() {
    let mut s = KvStore::new();
    s.put_local(b"k".to_vec(), b"first".to_vec());
    s.put_local(b"k".to_vec(), b"second".to_vec());
    assert_eq!(s.get_local(&b"k".to_vec()), Some(b"second".to_vec()));
    assert_eq!(s.len(), 1);
}

#[test]
fn empty_key_and_value_are_plain_entries() {
    let mut s = KvStore::new();
    s.put_local(Vec::new(), Vec::new());
    assert_eq!(s.get_local(&Vec::new()), Some(Vec::new()));
}

#[test]
fn key_hash_is_deterministic_and_full_length() {
    let a1 = hash_key(&b"some key".to_vec());
    let a2 = hash_key(&b"some key".to_vec());
    let b = hash_key(&b"another key".to_vec());
    assert_eq!(a1.bytes.len(), KEY_LEN);
    assert!(a1.equals(&a2));
    assert!(!a1.equals(&b));
    // the empty key maps somewhere too
    assert_eq!(hash_key(&Vec::new()).bytes.len(), KEY_LEN);
}
