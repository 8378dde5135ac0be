use smsgate::bridge::reply_router::ReplyRouter;
use smsgate::persist::mem::MemStore;
use smsgate::persist::{keys, Store};

#[test]
fn lookup_after_put_returns_phone() {
    let mut store = MemStore::new();
    let mut r = ReplyRouter::new();
    r.put(1234, "+8613800138000", &mut store);
    assert_eq!(r.lookup(1234), Some("+8613800138000"));
    assert_eq!(r.lookup(1235), None);
}

#[test]
fn stale_slot_does_not_answer() {
    let mut store = MemStore::new();
    let mut r = ReplyRouter::new();
    r.put(5, "+111", &mut store);
    r.put(205, "+222", &mut store);
    assert_eq!(r.lookup(5), None);
    assert_eq!(r.lookup(205), Some("+222"));
}

#[test]
fn zero_id_is_never_found() {
    let mut store = MemStore::new();
    let mut r = ReplyRouter::new();
    r.put(0, "+111", &mut store);
    assert_eq!(r.lookup(0), None);
}

#[test]
fn negative_ids_use_their_magnitude() {
    let mut store = MemStore::new();
    let mut r = ReplyRouter::new();
    r.put(-7, "+777", &mut store);
    assert_eq!(r.lookup(-7), Some("+777"));
    assert_eq!(r.lookup(7), None);
}

#[test]
fn long_numbers_are_cut_to_22_bytes() {
    let mut store = MemStore::new();
    let mut r = ReplyRouter::new();
    r.put(9, "+1234567890123456789012345", &mut store);
    assert_eq!(r.lookup(9), Some("+123456789012345678901"));
}

#[test]
fn table_persists_and_reloads() {
    let mut store = MemStore::new();
    let mut r = ReplyRouter::new();
    r.put(42, "+4242", &mut store);
    r.put(199, "+199", &mut store);
    let saved = store.load(keys::REPLY_MAP).unwrap();
    assert_eq!(saved.len(), 6400);
    assert_eq!(&saved[42 * 32..42 * 32 + 8], &42i64.to_le_bytes());
    let mut fresh = ReplyRouter::new();
    fresh.load(&store);
    assert_eq!(fresh.lookup(42), Some("+4242"));
    assert_eq!(fresh.lookup(199), Some("+199"));
}

#[test]
fn short_stored_table_is_ignored() {
    let mut store = MemStore::new();
    store.save(keys::REPLY_MAP, &[1, 2, 3]).unwrap();
    let mut r = ReplyRouter::new();
    r.put(3, "+3", &mut MemStore::new());
    r.load(&store);
    assert_eq!(r.lookup(3), Some("+3"));
}
