use kademlia::key::Key;
use kademlia::store::{StoreError, ValueStore, MAX_VALUE_LEN};

fn key_of(b: u8) -> Key {
    Key::from_bytes([b; 20])
}

#[test]
fn stored_value_is_found() {
    let mut s = ValueStore::new(100);
    assert_eq!(s.store(key_of(1), b"v".to_vec(), 10), Ok(()));
    assert_eq!(s.get(key_of(1), 10), Some(b"v".to_vec()));
    assert_eq!(s.get(key_of(2), 10), None);
}

#[test]
fn store_overwrites() {
    let mut s = ValueStore::new(100);
    s.store(key_of(1), b"a".to_vec(), 0).unwrap();
    s.store(key_of(1), b"b".to_vec(), 0).unwrap();
    assert_eq!(s.get(key_of(1), 1), Some(b"b".to_vec()));
}

#[test]
fn oversized_value_is_rejected() {
    let mut s = ValueStore::new(100);
    let big = vec![7u8; MAX_VALUE_LEN + 1];
    assert_eq!(s.store(key_of(1), big, 0), Err(StoreError::ValueTooLarge));
    assert_eq!(s.get(key_of(1), 0), None);
    let fits = vec![7u8; MAX_VALUE_LEN];
    assert_eq!(s.store(key_of(1), fits.clone(), 0), Ok(()));
    assert_eq!(s.get(key_of(1), 0), Some(fits));
}

#[test]
fn value_expires_after_ttl() {
    let mut s = ValueStore::new(60);
    s.store(key_of(3), b"v".to_vec(), 1000).unwrap();
    assert_eq!(s.get(key_of(3), 1059), Some(b"v".to_vec()));
    assert_eq!(s.get(key_of(3), 1060), None);
    assert_eq!(s.get(key_of(3), 5000), None);
}

#[test]
fn refresh_restarts_lifetime() {
    let mut s = ValueStore::new(60);
    s.store(key_of(3), b"v".to_vec(), 1000).unwrap();
    s.store(key_of(3), b"v".to_vec(), 1050).unwrap();
    assert_eq!(s.get(key_of(3), 1100), Some(b"v".to_vec()));
    assert_eq!(s.get(key_of(3), 1110), None);
}

#[test]
fn value_stored_later_than_now_is_live() {
    let mut s = ValueStore::new(10);
    s.store(key_of(4), b"w".to_vec(), 500).unwrap();
    assert_eq!(s.get(key_of(4), 100), Some(b"w".to_vec()));
}
