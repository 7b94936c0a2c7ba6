use std::hash::Hash;
use std::hash::Hasher;
use std::sync::Arc;

use recipes::memcached::db::Item;
use recipes::memcached::Error;
use recipes::MemcachedDb;

#[test]
fn test_item_eq() {
    let key = [1u8, 2u8, 1u8, 2u8];
    let item1 = Item::new(&key[..2], 0, 0, 0, &key[..]);
    let item2 = Item::new(&key[2..], 0, 0, 0, &key[..]);

    assert_eq!(item1, item2);
}

#[test]
fn item_new_stores_key_then_value() {
    let item = Item::new(b"key", 7, -3, 42, b"value");
    assert_eq!(item.key_len, 3);
    assert_eq!(item.flags, 7);
    assert_eq!(item.rel_exptime, -3);
    assert_eq!(item.cas, 42);
    assert_eq!(&item.data[..], b"keyvalue");
    assert_eq!(item.key_bytes(), b"key");
}

#[test]
fn items_with_different_keys_differ() {
    let a = Item::new(b"ab", 0, 0, 0, b"x");
    let b = Item::new(b"abc", 0, 0, 0, b"x");
    let c = Item::new(b"ac", 0, 0, 0, b"x");
    assert_ne!(a, b);
    assert_ne!(a, c);
}

#[test]
fn items_with_same_key_and_other_values_are_equal() {
    let a = Item::new(b"k", 1, 2, 3, b"one");
    let b = Item::new(b"k", 4, 5, 6, b"two");
    assert_eq!(a, b);
}

#[test]
fn item_clone_copies_everything() {
    let a = Item::new(b"k", 1, 2, 3, b"one");
    let b = a.clone();
    assert_eq!(b.key_len, 1);
    assert_eq!(b.flags, 1);
    assert_eq!(b.rel_exptime, 2);
    assert_eq!(b.cas, 3);
    assert_eq!(&b.data[..], b"kone");
}

#[test]
fn key_matches_compares_the_key_only() {
    let a = Item::new(b"key", 0, 0, 0, b"value");
    assert!(a.key_matches(b"key"));
    assert!(!a.key_matches(b"keyvalue"));
    assert!(!a.key_matches(b"ke"));
    assert!(!a.key_matches(b"kez"));
}

#[test]
fn set_then_get_returns_the_item() {
    let mut db = MemcachedDb::new(16);
    let item = Arc::new(Item::new(b"hello", 1, 0, 0, b"world"));
    assert!(!db.set(&item));
    let probe = Arc::new(Item::new(b"hello", 0, 0, 0, b""));
    let got = db.get(&probe).unwrap();
    assert_eq!(got.flags, 1);
    assert_eq!(&got.data[..], b"helloworld");
}

#[test]
fn second_set_reports_existing_and_replaces() {
    let mut db = MemcachedDb::new(4);
    let first = Arc::new(Item::new(b"k", 1, 0, 0, b"a"));
    let second = Arc::new(Item::new(b"k", 2, 0, 0, b"b"));
    assert!(!db.set(&first));
    assert!(db.set(&second));
    let got = db.get(&first).unwrap();
    assert_eq!(got.flags, 2);
    assert_eq!(&got.data[..], b"kb");
}

#[test]
fn get_of_missing_key_is_none() {
    let mut db = MemcachedDb::new(8);
    let a = Arc::new(Item::new(b"a", 0, 0, 0, b"1"));
    let b = Arc::new(Item::new(b"b", 0, 0, 0, b"2"));
    db.set(&a);
    assert!(db.get(&b).is_none());
}

#[test]
fn delete_removes_the_key() {
    let mut db = MemcachedDb::new(8);
    let a = Arc::new(Item::new(b"a", 0, 0, 0, b"1"));
    assert!(!db.delete(&a));
    db.set(&a);
    assert!(db.delete(&a));
    assert!(db.get(&a).is_none());
    assert!(!db.delete(&a));
}

#[test]
fn many_keys_in_one_bucket() {
    let mut db = MemcachedDb::new(1);
    let mut items = Vec::new();
    for i in 0..50u8 {
        let item = Arc::new(Item::new(&[i, i], i as u32, 0, 0, &[i]));
        assert!(!db.set(&item));
        items.push(item);
    }
    for (i, item) in items.iter().enumerate() {
        assert_eq!(db.get(item).unwrap().flags, i as u32);
    }
    for item in items.iter().step_by(2) {
        assert!(db.delete(item));
    }
    for (i, item) in items.iter().enumerate() {
        assert_eq!(db.get(item).is_some(), i % 2 == 1);
    }
}

#[test]
fn many_keys_over_many_buckets() {
    let mut db = MemcachedDb::new(1024);
    for i in 0..2000u32 {
        let key = i.to_be_bytes();
        let item = Arc::new(Item::new(&key, i, 0, 0, b"v"));
        assert!(!db.set(&item));
    }
    for i in 0..2000u32 {
        let key = i.to_be_bytes();
        let probe = Arc::new(Item::new(&key, 0, 0, 0, b""));
        assert_eq!(db.get(&probe).unwrap().flags, i);
    }
}

#[test]
fn error_messages() {
    assert_eq!(Error::ProtocolError.message(), "ProtocolError");
    let io = std::io::Error::new(std::io::ErrorKind::Other, "boom");
    let e: Error = io.into();
    assert_eq!(e.message(), "IOError: boom");
}

fn hash_of(item: &Item) -> u64 {
    let mut s = std::collections::hash_map::DefaultHasher::new();
    Hash::hash(item, &mut s);
    s.finish()
}

#[test]
fn equal_items_hash_alike() {
    let a = Item::new(b"key", 1, 0, 0, b"one");
    let b = Item::new(b"key", 2, 0, 0, b"two");
    assert_eq!(hash_of(&a), hash_of(&b));
    let mut s = std::collections::hash_map::DefaultHasher::new();
    Hash::hash(&b"key"[..], &mut s);
    assert_eq!(hash_of(&a), s.finish());
}

#[test]
fn overlong_key_len_takes_all_bytes() {
    let mut item = Item::new(b"ab", 0, 0, 0, b"c");
    item.key_len = 10;
    assert_eq!(item.key_bytes(), b"abc");
    // hashing such an item does not panic
    let _ = hash_of(&item);
    assert_ne!(item, Item::new(b"abc", 0, 0, 0, b""));
}
