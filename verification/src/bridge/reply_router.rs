//! Maps IM message IDs → SMS phone numbers for reply routing.
//!
//! 200-slot ring buffer: slot = message_id % 200.
//! Exact-match check prevents stale-slot collisions.
//!
//! Persisted as 200 records of 32 bytes: the message id (little-endian `i64`), the
//! phone bytes (23, NUL-padded) and one zero byte.

use crate::im::MessageId;
use crate::persist::{
    i64_le_bytes, keys, le64_i64, lemma_i64_roundtrip, Store, StoreError,
};
use crate::strutil::utf8_str;
use vstd::prelude::*;
use vstd::string::StringSliceAdditionalSpecFns;
use vstd::utf8::{decode_utf8, encode_utf8, encode_utf8_decode_utf8, encode_utf8_valid_utf8, valid_utf8};

verus! {

const SLOT_COUNT: usize = 200;

/// 22 phone bytes + NUL.
const PHONE_MAX: usize = 23;

/// Bytes of one persisted slot.
const SLOT_BYTES: usize = 32;

/// Bytes of the persisted table.
const TABLE_BYTES: usize = 6400;

/// One slot: a message id (0 = empty) and the NUL-padded phone bytes.
struct Slot {
    message_id: i64,
    phone: Vec<u8>,
}

/// Ring buffer mapping MessageId → phone number.
pub struct ReplyRouter {
    slots: Vec<Slot>,
}

/// The magnitude of a message id (`i64::unsigned_abs`).
pub open spec fn unsigned_abs(id: i64) -> u64 {
    if id < 0 {
        (-(id as int)) as u64
    } else {
        id as u64
    }
}

/// The slot a message id maps to: its magnitude, as a machine word, modulo 200.
pub open spec fn slot_index(id: i64) -> int {
    ((unsigned_abs(id) as usize) % 200) as int
}

/// Position of the first zero byte of `p` at or after `i`, or the length.
pub open spec fn first_zero_from(p: Seq<u8>, i: int) -> int
    decreases p.len() - i,
{
    if i < 0 || i >= p.len() {
        p.len() as int
    } else if p[i] == 0 {
        i
    } else {
        first_zero_from(p, i + 1)
    }
}

/// The text stored in a slot's phone bytes: the bytes before the first NUL, when they
/// are valid UTF-8.
pub open spec fn spec_phone_text(p: Seq<u8>) -> Option<Seq<char>> {
    let b = p.take(first_zero_from(p, 0));
    if valid_utf8(b) {
        Some(decode_utf8(b))
    } else {
        None
    }
}

/// What a lookup of `id` gives: the slot's phone when the slot holds exactly this
/// (non-zero) id and a non-empty text.
pub open spec fn spec_lookup(slots: Seq<(i64, Seq<u8>)>, id: i64) -> Option<Seq<char>> {
    let s = slots[slot_index(id)];
    if s.0 == id && s.0 != 0 {
        match spec_phone_text(s.1) {
            Some(t) => if t.len() > 0 {
                Some(t)
            } else {
                None
            },
            None => None,
        }
    } else {
        None
    }
}

/// The phone bytes a slot keeps: the first 22 bytes of the number, NUL-padded to 23.
pub open spec fn phone_slot_bytes(phone: Seq<u8>) -> Seq<u8> {
    let k = if phone.len() < 22 { phone.len() as int } else { 22 };
    phone.take(k) + Seq::new((23 - k) as nat, |i: int| 0u8)
}

/// The table after recording `(id, phone)`.
pub open spec fn spec_put(slots: Seq<(i64, Seq<u8>)>, id: i64, phone: Seq<u8>) -> Seq<(i64, Seq<u8>)> {
    slots.update(slot_index(id), (id, phone_slot_bytes(phone)))
}

/// A table of 200 slots with 23 phone bytes each.
pub open spec fn table_shape(slots: Seq<(i64, Seq<u8>)>) -> bool {
    slots.len() == 200 && forall|i: int| 0 <= i < 200 ==> (#[trigger] slots[i]).1.len() == 23
}

/// The persisted bytes of one slot.
pub open spec fn slot_bytes(s: (i64, Seq<u8>)) -> Seq<u8> {
    i64_le_bytes(s.0) + s.1 + seq![0u8]
}

/// The persisted bytes of a table.
pub open spec fn table_bytes(slots: Seq<(i64, Seq<u8>)>) -> Seq<u8>
    decreases slots.len(),
{
    if slots.len() == 0 {
        Seq::empty()
    } else {
        table_bytes(slots.drop_last()) + slot_bytes(slots.last())
    }
}

/// The table that persisted bytes hold (the first 6400 of them).
pub open spec fn table_of_bytes(b: Seq<u8>) -> Seq<(i64, Seq<u8>)> {
    Seq::new(200, |i: int| (le64_i64(b.subrange(32 * i, 32 * i + 8)), b.subrange(32 * i + 8, 32 * i + 31)))
}

fn unsigned_abs_exec(id: i64) -> (r: u64)
    ensures
        r == unsigned_abs(id),
{
    if id < 0 {
        if id == i64::MIN {
            0x8000_0000_0000_0000u64
        } else {
            (-id) as u64
        }
    } else {
        id as u64
    }
}

fn slot_index_exec(id: i64) -> (r: usize)
    ensures
        r as int == slot_index(id),
        r < 200,
{
    (unsigned_abs_exec(id) as usize) % SLOT_COUNT
}

impl ReplyRouter {
    /// The slots, as (message id, phone bytes).
    pub closed spec fn view_slots(&self) -> Seq<(i64, Seq<u8>)> {
        self.slots@.map_values(|s: Slot| (s.message_id, s.phone@))
    }

    /// 200 slots of 23 phone bytes each.
    pub closed spec fn wf(&self) -> bool {
        self.slots@.len() == 200 && forall|i: int| 0 <= i < 200 ==> (#[trigger] self.slots@[i]).phone@.len() == 23
    }

    /// A well-formed router's table has the persisted shape.
    pub proof fn lemma_shape(&self)
        requires
            self.wf(),
        ensures
            table_shape(self.view_slots()),
    {
        assert forall|i: int| 0 <= i < 200 implies (#[trigger] self.view_slots()[i]).1.len() == 23 by {
            assert(self.view_slots()[i].1 == self.slots@[i].phone@);
        }
    }

    /// An empty table.
    pub fn new() -> (r: Self)
        ensures
            r.wf(),
            r.view_slots() == Seq::new(200, |i: int| (0i64, Seq::new(23, |j: int| 0u8))),
    {
        let mut slots: Vec<Slot> = Vec::new();
        let mut i: usize = 0;
        while i < SLOT_COUNT
            invariant
                i <= 200,
                slots@.len() == i,
                forall|k: int| 0 <= k < i ==> (#[trigger] slots@[k]).message_id == 0 && slots@[k].phone@
                    == Seq::new(23, |j: int| 0u8),
            decreases 200 - i,
        {
            let phone = vec![0u8; PHONE_MAX];
            slots.push(Slot { message_id: 0, phone });
            i = i + 1;
        }
        let r = ReplyRouter { slots };
        assert(r.view_slots() =~= Seq::new(200, |i: int| (0i64, Seq::new(23, |j: int| 0u8))));
        r
    }

    /// Record a (message_id, phone) mapping, and persist the table (best-effort: a
    /// failed save is ignored).
    pub fn put<S: Store + ?Sized>(&mut self, message_id: MessageId, phone: &str, store: &mut S)
        requires
            old(self).wf(),
        ensures
            final(self).wf(),
            final(self).view_slots() == spec_put(old(self).view_slots(), message_id, phone.spec_bytes()),
            final(store).never_fails() == old(store).never_fails(),
            final(store).obeys_model() == old(store).obeys_model(),
            old(store).obeys_model() && old(store).never_fails() ==> final(store).stored() == old(store).stored().insert(
                keys::REPLY_MAP@,
                table_bytes(final(self).view_slots()),
            ),
    {
        let idx = slot_index_exec(message_id);
        let bytes = phone.as_bytes();
        let copy_len: usize = if bytes.len() < PHONE_MAX - 1 { bytes.len() } else { PHONE_MAX - 1 };
        let mut p: Vec<u8> = Vec::new();
        let mut i: usize = 0;
        while i < PHONE_MAX
            invariant
                i <= 23,
                copy_len <= 22,
                copy_len <= bytes@.len(),
                p@.len() == i,
                forall|k: int| 0 <= k < i ==> #[trigger] p@[k] == (if k < copy_len { bytes@[k] } else { 0u8 }),
            decreases 23 - i,
        {
            if i < copy_len {
                p.push(bytes[i]);
            } else {
                p.push(0u8);
            }
            i = i + 1;
        }
        assert(p@ =~= phone_slot_bytes(phone.spec_bytes()));
        let ghost before = self.view_slots();
        self.slots.set(idx, Slot { message_id, phone: p });
        assert(self.view_slots() =~= spec_put(before, message_id, phone.spec_bytes()));
        let _ = self.save(store);
    }

    /// Look up a phone number by message_id. Returns None if not found or overwritten.
    pub fn lookup(&self, message_id: MessageId) -> (r: Option<&str>)
        requires
            self.wf(),
        ensures
            match spec_lookup(self.view_slots(), message_id) {
                Some(t) => r matches Some(s) && s@ == t,
                None => r is None,
            },
    {
        let idx = slot_index_exec(message_id);
        let slot = &self.slots[idx];
        assert(self.view_slots()[idx as int] == (slot.message_id, slot.phone@));
        if slot.message_id == message_id && slot.message_id != 0 {
            let mut nul: usize = 0;
            while nul < slot.phone.len() && slot.phone[nul] != 0
                invariant
                    nul <= slot.phone@.len(),
                    first_zero_from(slot.phone@, 0) == first_zero_from(slot.phone@, nul as int),
                decreases slot.phone@.len() - nul,
            {
                nul = nul + 1;
            }
            let b = vstd::slice::slice_subrange(slot.phone.as_slice(), 0, nul);
            assert(b@ =~= slot.phone@.take(first_zero_from(slot.phone@, 0)));
            match utf8_str(b) {
                Some(s) => {
                    if !s.is_empty() {
                        Some(s)
                    } else {
                        None
                    }
                },
                None => None,
            }
        } else {
            None
        }
    }

    /// The persisted bytes of the table.
    fn to_bytes(&self) -> (b: Vec<u8>)
        requires
            self.wf(),
        ensures
            b@ == table_bytes(self.view_slots()),
    {
        let mut out: Vec<u8> = Vec::new();
        let mut i: usize = 0;
        while i < SLOT_COUNT
            invariant
                self.wf(),
                i <= 200,
                out@ == table_bytes(self.view_slots().take(i as int)),
            decreases 200 - i,
        {
            let s = &self.slots[i];
            let u = s.message_id as u64;
            out.push((u & 0xff) as u8);
            out.push(((u >> 8) & 0xff) as u8);
            out.push(((u >> 16) & 0xff) as u8);
            out.push(((u >> 24) & 0xff) as u8);
            out.push(((u >> 32) & 0xff) as u8);
            out.push(((u >> 40) & 0xff) as u8);
            out.push(((u >> 48) & 0xff) as u8);
            out.push(((u >> 56) & 0xff) as u8);
            let mut j: usize = 0;
            let ghost mid = out@;
            while j < s.phone.len()
                invariant
                    j <= s.phone@.len(),
                    out@ == mid + s.phone@.take(j as int),
                decreases s.phone@.len() - j,
            {
                out.push(s.phone[j]);
                j = j + 1;
                assert(s.phone@.take(j as int) =~= s.phone@.take(j - 1).push(s.phone@[j - 1]));
            }
            out.push(0u8);
            proof {
                let vs = self.view_slots();
                assert(vs.take(i + 1).drop_last() =~= vs.take(i as int));
                assert(vs.take(i + 1).last() == (s.message_id, s.phone@));
                assert(s.phone@.take(s.phone@.len() as int) =~= s.phone@);
            }
            assert(out@ =~= table_bytes(self.view_slots().take(i + 1)));
            i = i + 1;
        }
        assert(self.view_slots().take(200) =~= self.view_slots());
        out
    }

    /// Save to persistent store.
    pub fn save<S: Store + ?Sized>(&self, store: &mut S) -> (r: Result<(), StoreError>)
        requires
            self.wf(),
        ensures
            final(store).never_fails() == old(store).never_fails(),
            final(store).obeys_model() == old(store).obeys_model(),
            old(store).never_fails() ==> r is Ok,
            old(store).obeys_model() && r is Ok ==> final(store).stored() == old(store).stored().insert(
                keys::REPLY_MAP@,
                table_bytes(self.view_slots()),
            ),
    {
        let b = self.to_bytes();
        store.save(keys::REPLY_MAP, b.as_slice())
    }

    /// Load from persistent store: a stored table of 6400 bytes or more replaces this
    /// one; anything shorter, or nothing, leaves it as it is.
    pub fn load<S: Store + ?Sized>(&mut self, store: &S)
        requires
            old(self).wf(),
        ensures
            final(self).wf(),
            store.obeys_model() && (store.stored().contains_key(keys::REPLY_MAP@) && store.stored()[keys::REPLY_MAP@].len() >= 6400)
                ==> final(self).view_slots() == table_of_bytes(store.stored()[keys::REPLY_MAP@]),
            store.obeys_model() && !(store.stored().contains_key(keys::REPLY_MAP@) && store.stored()[keys::REPLY_MAP@].len() >= 6400)
                ==> final(self).view_slots() == old(self).view_slots(),
    {
        let bytes = match store.load(keys::REPLY_MAP) {
            Some(b) => b,
            None => return,
        };
        if bytes.len() < TABLE_BYTES {
            return;
        }
        let mut slots: Vec<Slot> = Vec::new();
        let mut i: usize = 0;
        while i < SLOT_COUNT
            invariant
                i <= 200,
                bytes@.len() >= 6400,
                slots@.len() == i,
                forall|k: int| 0 <= k < i ==> (#[trigger] slots@[k]).phone@.len() == 23,
                forall|k: int| 0 <= k < i ==> (#[trigger] slots@[k]).message_id == table_of_bytes(bytes@)[k].0
                    && slots@[k].phone@ == table_of_bytes(bytes@)[k].1,
            decreases 200 - i,
        {
            let o = i * SLOT_BYTES;
            let v: u64 = (bytes[o] as u64) | ((bytes[o + 1] as u64) << 8) | ((bytes[o + 2] as u64) << 16)
                | ((bytes[o + 3] as u64) << 24) | ((bytes[o + 4] as u64) << 32) | ((bytes[o + 5] as u64)
                << 40) | ((bytes[o + 6] as u64) << 48) | ((bytes[o + 7] as u64) << 56);
            let phone = vstd::slice::slice_to_vec(vstd::slice::slice_subrange(bytes.as_slice(), o + 8, o + 31));
            proof {
                let w = bytes@.subrange(32 * i, 32 * i + 8);
                assert(w[0] == bytes@[o as int] && w[1] == bytes@[o + 1] && w[2] == bytes@[o + 2] && w[3]
                    == bytes@[o + 3] && w[4] == bytes@[o + 4] && w[5] == bytes@[o + 5] && w[6] == bytes@[o
                    + 6] && w[7] == bytes@[o + 7]);
            }
            slots.push(Slot { message_id: v as i64, phone });
            i = i + 1;
        }
        self.slots = slots;
        assert(self.view_slots() =~= table_of_bytes(bytes@));
    }
}

impl Default for ReplyRouter {
    fn default() -> (r: Self)
        ensures
            r.wf(),
            r.view_slots() == Seq::new(200, |i: int| (0i64, Seq::new(23, |j: int| 0u8))),
    {
        Self::new()
    }
}

proof fn lemma_first_zero_of_padded(p: Seq<u8>, i: int)
    requires
        p.len() <= 22,
        0 <= i <= p.len(),
        forall|k: int| 0 <= k < p.len() ==> p[k] != 0,
    ensures
        first_zero_from(phone_slot_bytes(p), i) == p.len(),
    decreases p.len() - i,
{
    let q = phone_slot_bytes(p);
    assert(q[p.len() as int] == 0);
    if i < p.len() {
        assert(q[i] == p[i]);
        lemma_first_zero_of_padded(p, i + 1);
    }
}

/// Reading back a reply route: after recording `(id, phone)` for a non-zero id and a
/// non-empty phone of at most 22 bytes without NUL, a lookup of `id` gives that phone.
pub proof fn lemma_lookup_after_put(slots: Seq<(i64, Seq<u8>)>, id: i64, phone: Seq<char>)
    requires
        table_shape(slots),
        id != 0,
        phone.len() > 0,
        encode_utf8(phone).len() <= 22,
        forall|k: int| 0 <= k < encode_utf8(phone).len() ==> encode_utf8(phone)[k] != 0,
    ensures
        spec_lookup(spec_put(slots, id, encode_utf8(phone)), id) == Some(phone),
{
    let p = encode_utf8(phone);
    lemma_first_zero_of_padded(p, 0);
    let q = phone_slot_bytes(p);
    assert(q.take(p.len() as int) =~= p);
    encode_utf8_valid_utf8(phone);
    encode_utf8_decode_utf8(phone);
}

/// Stale slots do not answer: after recording `id`, a lookup of a different id that maps
/// to the same slot finds nothing.
pub proof fn lemma_lookup_other_id_same_slot(slots: Seq<(i64, Seq<u8>)>, id: i64, other: i64, phone: Seq<u8>)
    requires
        table_shape(slots),
        other != id,
        slot_index(other) == slot_index(id),
    ensures
        spec_lookup(spec_put(slots, id, phone), other) is None,
{
}

/// Recording a route leaves the lookups of ids in other slots unchanged.
pub proof fn lemma_put_keeps_other_slots(slots: Seq<(i64, Seq<u8>)>, id: i64, other: i64, phone: Seq<u8>)
    requires
        table_shape(slots),
        slot_index(other) != slot_index(id),
    ensures
        spec_lookup(spec_put(slots, id, phone), other) == spec_lookup(slots, other),
{
}

proof fn lemma_table_bytes_len(slots: Seq<(i64, Seq<u8>)>)
    requires
        forall|i: int| 0 <= i < slots.len() ==> (#[trigger] slots[i]).1.len() == 23,
    ensures
        table_bytes(slots).len() == 32 * slots.len(),
    decreases slots.len(),
{
    if slots.len() > 0 {
        let d = slots.drop_last();
        assert forall|i: int| 0 <= i < d.len() implies (#[trigger] d[i]).1.len() == 23 by {
            assert(d[i] == slots[i]);
        }
        lemma_table_bytes_len(d);
        assert(slots.last() == slots[slots.len() - 1]);
    }
}

proof fn lemma_table_bytes_slot(slots: Seq<(i64, Seq<u8>)>, i: int)
    requires
        forall|k: int| 0 <= k < slots.len() ==> (#[trigger] slots[k]).1.len() == 23,
        0 <= i < slots.len(),
    ensures
        table_bytes(slots).subrange(32 * i, 32 * i + 32) == slot_bytes(slots[i]),
    decreases slots.len(),
{
    let d = slots.drop_last();
    assert forall|k: int| 0 <= k < d.len() implies (#[trigger] d[k]).1.len() == 23 by {
        assert(d[k] == slots[k]);
    }
    lemma_table_bytes_len(d);
    assert(slots.last() == slots[slots.len() - 1]);
    if i < slots.len() - 1 {
        lemma_table_bytes_slot(d, i);
        assert(table_bytes(slots).subrange(32 * i, 32 * i + 32) =~= table_bytes(d).subrange(32 * i, 32 * i + 32));
    } else {
        assert(table_bytes(slots).subrange(32 * i, 32 * i + 32) =~= slot_bytes(slots.last()));
    }
}

/// Reading back the persisted table: the bytes `save` stores load back as the same table.
pub proof fn lemma_table_roundtrip(slots: Seq<(i64, Seq<u8>)>)
    requires
        table_shape(slots),
    ensures
        table_bytes(slots).len() == 6400,
        table_of_bytes(table_bytes(slots)) == slots,
{
    lemma_table_bytes_len(slots);
    let b = table_bytes(slots);
    assert forall|i: int| 0 <= i < 200 implies #[trigger] table_of_bytes(b)[i] == slots[i] by {
        lemma_table_bytes_slot(slots, i);
        let sb = b.subrange(32 * i, 32 * i + 32);
        assert(b.subrange(32 * i, 32 * i + 8) =~= sb.subrange(0, 8));
        assert(sb.subrange(0, 8) =~= i64_le_bytes(slots[i].0));
        lemma_i64_roundtrip(Map::empty(), Seq::empty(), slots[i].0);
        assert(b.subrange(32 * i + 8, 32 * i + 31) =~= sb.subrange(8, 31));
        assert(sb.subrange(8, 31) =~= slots[i].1);
    }
    assert(table_of_bytes(b) =~= slots);
}

} // verus!
