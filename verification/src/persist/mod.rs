//! Key-value persistence abstraction.

pub mod keys;
pub mod mem;

use crate::strutil::{new_string, push_str};
use vstd::prelude::*;

verus! {

/// Errors from the persistence layer.
#[derive(Debug)]
pub enum StoreError {
    Serde(String),
    Nvs(String),
}

impl StoreError {
    /// The text shown for the error.
    pub fn message(&self) -> (r: String)
        ensures
            r@ == (match self {
                StoreError::Serde(e) => "serialisation error: "@ + e@,
                StoreError::Nvs(e) => "NVS error: "@ + e@,
            }),
    {
        let mut out = new_string();
        match self {
            StoreError::Serde(e) => {
                push_str(&mut out, "serialisation error: ");
                push_str(&mut out, e.as_str());
            },
            StoreError::Nvs(e) => {
                push_str(&mut out, "NVS error: ");
                push_str(&mut out, e.as_str());
            },
        }
        out
    }
}

/// Key-value persistence (NVS on device; in memory in tests): what is saved under a key
/// is what a later load of that key returns.
pub trait Store {
    /// The stored values by key: the model the contracts speak of, kept by every store
    /// for which `obeys_model` holds.
    closed spec fn stored(&self) -> Map<Seq<char>, Seq<u8>> {
        Map::empty()
    }

    /// Whether the store keeps the model `stored` (true of the store in memory). A store
    /// that leaves it at its default, false, is promised nothing about its contents.
    closed spec fn obeys_model(&self) -> bool {
        false
    }

    /// Whether every save succeeds (true of the store in memory). A store that leaves it
    /// at its default, false, is promised nothing about its saves.
    closed spec fn never_fails(&self) -> bool {
        false
    }

    /// Load raw bytes for `key`. Returns None if the key is absent.
    fn load(&self, key: &str) -> (r: Option<Vec<u8>>)
        ensures
            self.obeys_model() ==> match r {
                Some(v) => self.stored().contains_key(key@) && v@ == self.stored()[key@],
                None => !self.stored().contains_key(key@),
            },
    ;

    /// Save raw bytes for `key`.
    fn save(&mut self, key: &str, data: &[u8]) -> (r: Result<(), StoreError>)
        ensures
            final(self).never_fails() == old(self).never_fails(),
            final(self).obeys_model() == old(self).obeys_model(),
            old(self).never_fails() ==> r is Ok,
            old(self).obeys_model() && r is Ok ==> final(self).stored() == old(self).stored().insert(key@, data@),
    ;
}

/// Little-endian value of the first eight bytes.
pub open spec fn le64_value(b: Seq<u8>) -> u64 {
    (b[0] as u64) | ((b[1] as u64) << 8u64) | ((b[2] as u64) << 16u64) | ((b[3] as u64) << 24u64) | ((
    b[4] as u64) << 32u64) | ((b[5] as u64) << 40u64) | ((b[6] as u64) << 48u64) | ((b[7] as u64)
        << 56u64)
}

/// The `i64` stored little-endian in the first eight bytes (two's complement).
pub open spec fn le64_i64(b: Seq<u8>) -> i64 {
    le64_value(b) as i64
}

/// Little-endian bytes of an `i64` (`i64::to_le_bytes`).
pub open spec fn i64_le_bytes(v: i64) -> Seq<u8> {
    let u = v as u64;
    seq![
        (u & 0xff) as u8,
        ((u >> 8u64) & 0xff) as u8,
        ((u >> 16u64) & 0xff) as u8,
        ((u >> 24u64) & 0xff) as u8,
        ((u >> 32u64) & 0xff) as u8,
        ((u >> 40u64) & 0xff) as u8,
        ((u >> 48u64) & 0xff) as u8,
        ((u >> 56u64) & 0xff) as u8,
    ]
}

/// The `i64` a load of `key` gives: absent or shorter than eight bytes gives none.
pub open spec fn spec_load_i64(stored: Map<Seq<char>, Seq<u8>>, key: Seq<char>) -> Option<i64> {
    if !stored.contains_key(key) || stored[key].len() < 8 {
        None
    } else {
        Some(le64_i64(stored[key]))
    }
}

/// The `bool` a load of `key` gives: absent gives none, an empty value false, else
/// whether the first byte is non-zero.
pub open spec fn spec_load_bool(stored: Map<Seq<char>, Seq<u8>>, key: Seq<char>) -> Option<bool> {
    if !stored.contains_key(key) {
        None
    } else if stored[key].len() == 0 {
        Some(false)
    } else {
        Some(stored[key][0] != 0)
    }
}

fn i64_to_le(val: i64) -> (b: Vec<u8>)
    ensures
        b@ == i64_le_bytes(val),
{
    let u = val as u64;
    let mut out: Vec<u8> = Vec::new();
    out.push((u & 0xff) as u8);
    out.push(((u >> 8) & 0xff) as u8);
    out.push(((u >> 16) & 0xff) as u8);
    out.push(((u >> 24) & 0xff) as u8);
    out.push(((u >> 32) & 0xff) as u8);
    out.push(((u >> 40) & 0xff) as u8);
    out.push(((u >> 48) & 0xff) as u8);
    out.push(((u >> 56) & 0xff) as u8);
    assert(out@ =~= i64_le_bytes(val));
    out
}

/// Load an i64 from the store.
pub fn load_i64<S: Store + ?Sized>(store: &S, key: &str) -> (r: Option<i64>)
    ensures
        store.obeys_model() ==> r == spec_load_i64(store.stored(), key@),
{
    let bytes = match store.load(key) {
        Some(b) => b,
        None => return None,
    };
    if bytes.len() < 8 {
        return None;
    }
    let v: u64 = (bytes[0] as u64) | ((bytes[1] as u64) << 8) | ((bytes[2] as u64) << 16) | ((
    bytes[3] as u64) << 24) | ((bytes[4] as u64) << 32) | ((bytes[5] as u64) << 40) | ((bytes[6] as u64)
        << 48) | ((bytes[7] as u64) << 56);
    Some(v as i64)
}

/// Save an i64 to the store.
pub fn save_i64<S: Store + ?Sized>(store: &mut S, key: &str, val: i64) -> (r: Result<(), StoreError>)
    ensures
        final(store).never_fails() == old(store).never_fails(),
        final(store).obeys_model() == old(store).obeys_model(),
        old(store).never_fails() ==> r is Ok,
        old(store).obeys_model() && r is Ok ==> final(store).stored() == old(store).stored().insert(key@, i64_le_bytes(val)),
{
    let bytes = i64_to_le(val);
    store.save(key, bytes.as_slice())
}

/// Load a bool (1 byte) from the store.
pub fn load_bool<S: Store + ?Sized>(store: &S, key: &str) -> (r: Option<bool>)
    ensures
        store.obeys_model() ==> r == spec_load_bool(store.stored(), key@),
{
    let bytes = match store.load(key) {
        Some(b) => b,
        None => return None,
    };
    let first = if bytes.len() > 0 { bytes[0] } else { 0 };
    Some(first != 0)
}

/// Save a bool to the store.
pub fn save_bool<S: Store + ?Sized>(store: &mut S, key: &str, val: bool) -> (r: Result<(), StoreError>)
    ensures
        final(store).never_fails() == old(store).never_fails(),
        final(store).obeys_model() == old(store).obeys_model(),
        old(store).never_fails() ==> r is Ok,
        old(store).obeys_model() && r is Ok ==> final(store).stored() == old(store).stored().insert(key@, seq![if val { 1u8 } else { 0u8 }]),
{
    let b: u8 = if val { 1 } else { 0 };
    let data = [b];
    assert(data@ =~= seq![if val { 1u8 } else { 0u8 }]);
    store.save(key, data.as_slice())
}

/// Reading back an `i64`: the value that `save_i64` stores is what `load_i64` returns.
pub proof fn lemma_i64_roundtrip(stored: Map<Seq<char>, Seq<u8>>, key: Seq<char>, val: i64)
    ensures
        spec_load_i64(stored.insert(key, i64_le_bytes(val)), key) == Some(val),
{
    let u = val as u64;
    assert(((((u & 0xff) as u8) as u64) | (((((u >> 8u64) & 0xff) as u8) as u64) << 8u64) | ((((
    (u >> 16u64) & 0xff) as u8) as u64) << 16u64) | (((((u >> 24u64) & 0xff) as u8) as u64) << 24u64)
        | (((((u >> 32u64) & 0xff) as u8) as u64) << 32u64) | (((((u >> 40u64) & 0xff) as u8) as u64)
        << 40u64) | (((((u >> 48u64) & 0xff) as u8) as u64) << 48u64) | (((((u >> 56u64) & 0xff) as u8)
        as u64) << 56u64)) == u) by (bit_vector);
    assert((u as u64) as i64 == val) by (bit_vector)
        requires
            u == val as u64,
    ;
}

/// Reading back a `bool`: the value that `save_bool` stores is what `load_bool` returns.
pub proof fn lemma_bool_roundtrip(stored: Map<Seq<char>, Seq<u8>>, key: Seq<char>, val: bool)
    ensures
        spec_load_bool(stored.insert(key, seq![if val { 1u8 } else { 0u8 }]), key) == Some(val),
{
}

} // verus!
