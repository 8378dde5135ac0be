//! MMS WAP Push notification parsing.
//!
//! This module intentionally stops at `M-Notification.ind`: it extracts metadata
//! from the SMS-borne WAP Push and never downloads the referenced MMS content.
//!
//! Each reader takes the byte buffer and a cursor; its contract gives the value read and
//! where the cursor ends, on success and on failure alike, because the header loop goes on
//! from wherever a failed read left the cursor.

use crate::sms::codec::SmsPdu;
use crate::strutil::{bytes_contain, bytes_occur_at, chars_contain, chars_start_with, spec_contains, str_to_chars, utf8_to_string};
use vstd::prelude::*;

verus! {

pub const WAP_PUSH_PORT: u16 = 2948;

pub const WSP_PUSH_PDU: u8 = 0x06;

pub const WSP_CONTENT_TYPE_MMS: u8 = 0xBE;

pub const MMS_HEADER_CONTENT_LOCATION: u8 = 0x83;

pub const MMS_HEADER_EXPIRY: u8 = 0x88;

pub const MMS_HEADER_MESSAGE_ID: u8 = 0x8B;

pub const MMS_HEADER_MESSAGE_TYPE: u8 = 0x8C;

pub const MMS_HEADER_MMS_VERSION: u8 = 0x8D;

pub const MMS_HEADER_MESSAGE_SIZE: u8 = 0x8E;

pub const MMS_HEADER_RESPONSE_TEXT: u8 = 0x93;

pub const MMS_HEADER_STATUS: u8 = 0x95;

pub const MMS_HEADER_SUBJECT: u8 = 0x96;

pub const MMS_HEADER_TO: u8 = 0x97;

pub const MMS_HEADER_TRANSACTION_ID: u8 = 0x98;

pub const MMS_MESSAGE_TYPE_NOTIFICATION_IND: u8 = 0x82;

/// When an MMS on the server expires.
#[derive(Debug, Clone, Copy, PartialEq, Eq)]
pub enum MmsExpiry {
    AbsoluteUnixSeconds(u64),
    RelativeSeconds(u64),
}

/// The largest whole unit in which a relative expiry is shown.
#[derive(Debug, Clone, Copy, PartialEq, Eq)]
pub enum DurationUnit {
    Days,
    Hours,
    Minutes,
    Seconds,
}

/// Seconds in a unit.
pub open spec fn unit_seconds(u: DurationUnit) -> u64 {
    match u {
        DurationUnit::Days => 86_400,
        DurationUnit::Hours => 3_600,
        DurationUnit::Minutes => 60,
        DurationUnit::Seconds => 1,
    }
}

/// The unit a relative expiry of `seconds` is shown in: days when whole days, else hours
/// when whole hours, else minutes when whole minutes, else seconds.
pub open spec fn spec_duration_unit(seconds: u64) -> DurationUnit {
    if seconds % 86_400 == 0 {
        DurationUnit::Days
    } else if seconds % 3_600 == 0 {
        DurationUnit::Hours
    } else if seconds % 60 == 0 {
        DurationUnit::Minutes
    } else {
        DurationUnit::Seconds
    }
}

/// A relative expiry as (count, unit): `seconds` in the largest unit that divides it.
pub fn expiry_duration(seconds: u64) -> (r: (u64, DurationUnit))
    ensures
        r.1 == spec_duration_unit(seconds),
        r.0 == seconds / unit_seconds(r.1),
        r.0 * unit_seconds(r.1) == seconds,
{
    if seconds % 86_400 == 0 {
        (seconds / 86_400, DurationUnit::Days)
    } else if seconds % 3_600 == 0 {
        (seconds / 3_600, DurationUnit::Hours)
    } else if seconds % 60 == 0 {
        (seconds / 60, DurationUnit::Minutes)
    } else {
        (seconds, DurationUnit::Seconds)
    }
}

/// The metadata of an `M-Notification.ind`.
#[derive(Debug, Clone, PartialEq, Eq)]
pub struct MmsNotification {
    pub content_location: String,
    pub message_size: Option<u64>,
    pub expiry: Option<MmsExpiry>,
}

/// Mathematical model of an MMS notification.
pub struct SpecMmsNotification {
    pub content_location: Seq<char>,
    pub message_size: Option<u64>,
    pub expiry: Option<MmsExpiry>,
}

impl View for MmsNotification {
    type V = SpecMmsNotification;

    open spec fn view(&self) -> SpecMmsNotification {
        SpecMmsNotification {
            content_location: self.content_location@,
            message_size: self.message_size,
            expiry: self.expiry,
        }
    }
}

// ---------------------------------------------------------------------------
// Readers
// ---------------------------------------------------------------------------

/// One byte at `pos`.
pub open spec fn sp_read_u8(b: Seq<u8>, pos: int) -> (Option<u8>, int) {
    if 0 <= pos < b.len() {
        (Some(b[pos]), pos + 1)
    } else {
        (None, pos)
    }
}

fn read_u8(bytes: &[u8], pos: &mut usize) -> (r: Option<u8>)
    ensures
        (r, *final(pos) as int) == sp_read_u8(bytes@, *old(pos) as int),
{
    if *pos < bytes.len() {
        let b = bytes[*pos];
        *pos = *pos + 1;
        Some(b)
    } else {
        None
    }
}

/// `len` bytes from `pos`.
pub open spec fn sp_take(b: Seq<u8>, pos: int, len: int) -> (Option<Seq<u8>>, int) {
    if pos + len <= b.len() {
        (Some(b.subrange(pos, pos + len)), pos + len)
    } else {
        (None, pos)
    }
}

fn take<'a>(bytes: &'a [u8], pos: &mut usize, len: usize) -> (r: Option<&'a [u8]>)
    requires
        *old(pos) <= bytes@.len(),
    ensures
        match sp_take(bytes@, *old(pos) as int, len as int) {
            (Some(s), p) => r matches Some(x) && x@ == s && *final(pos) == p,
            (None, p) => r is None && *final(pos) == p,
        },
{
    if len > bytes.len() - *pos {
        return None;
    }
    let end = *pos + len;
    let slice = vstd::slice::slice_subrange(bytes, *pos, end);
    *pos = end;
    Some(slice)
}

/// A WSP `uintvar` from `pos`: up to five 7-bit groups, most significant first, each but
/// the last with the top bit set; `k` groups and the value `acc` are behind.
pub open spec fn sp_uintvar_from(b: Seq<u8>, pos: int, k: int, acc: u64) -> (Option<u64>, int)
    decreases 5 - k,
{
    if k >= 5 || !(0 <= pos < b.len()) {
        (None, pos)
    } else {
        let x = b[pos];
        let v = (acc << 7u64) | ((x & 0x7F) as u64);
        if x & 0x80 == 0 {
            (Some(v), pos + 1)
        } else {
            sp_uintvar_from(b, pos + 1, k + 1, v)
        }
    }
}

/// A WSP `uintvar` at `pos`.
pub open spec fn sp_uintvar(b: Seq<u8>, pos: int) -> (Option<u64>, int) {
    sp_uintvar_from(b, pos, 0, 0)
}

fn read_uintvar(bytes: &[u8], pos: &mut usize) -> (r: Option<u64>)
    ensures
        (r, *final(pos) as int) == sp_uintvar(bytes@, *old(pos) as int),
{
    let mut value: u64 = 0;
    let mut k: usize = 0;
    while k < 5
        invariant
            k <= 5,
            sp_uintvar(bytes@, *old(pos) as int) == sp_uintvar_from(bytes@, *pos as int, k as int, value),
        decreases 5 - k,
    {
        let ghost p0 = *pos;
        let b = match read_u8(bytes, pos) {
            Some(b) => b,
            None => return None,
        };
        value = (value << 7) | ((b & 0x7F) as u64);
        if b & 0x80 == 0 {
            return Some(value);
        }
        k = k + 1;
    }
    None
}

/// A WSP value length: a short length (0..=30), or 31 followed by a `uintvar`.
pub open spec fn sp_value_length(b: Seq<u8>, pos: int) -> (Option<usize>, int) {
    let (first, p1) = sp_read_u8(b, pos);
    match first {
        None => (None, p1),
        Some(f) => if f <= 30 {
            (Some(f as usize), p1)
        } else if f == 31 {
            let (v, p2) = sp_uintvar(b, p1);
            (
                match v {
                    Some(x) => Some(x as usize),
                    None => None,
                },
                p2,
            )
        } else {
            (None, p1)
        },
    }
}

fn read_value_length(bytes: &[u8], pos: &mut usize) -> (r: Option<usize>)
    ensures
        (r, *final(pos) as int) == sp_value_length(bytes@, *old(pos) as int),
{
    let first = match read_u8(bytes, pos) {
        Some(f) => f,
        None => return None,
    };
    if first <= 30 {
        return Some(first as usize);
    }
    if first == 31 {
        return match read_uintvar(bytes, pos) {
            Some(v) => Some(v as usize),
            None => None,
        };
    }
    None
}

/// Big-endian value of up to eight bytes.
pub open spec fn be_value(s: Seq<u8>) -> u64
    decreases s.len(),
{
    if s.len() == 0 {
        0
    } else {
        (be_value(s.drop_last()) << 8u64) | (s.last() as u64)
    }
}

/// A WSP integer value: a short integer (top bit set, 7-bit value) or a length octet
/// (1..=8) followed by that many big-endian bytes.
pub open spec fn sp_integer(b: Seq<u8>, pos: int) -> (Option<u64>, int) {
    let (first, p1) = sp_read_u8(b, pos);
    match first {
        None => (None, p1),
        Some(f) => if f & 0x80 != 0 {
            (Some((f & 0x7F) as u64), p1)
        } else if f == 0 || f > 8 {
            (None, p1)
        } else {
            match sp_take(b, p1, f as int) {
                (Some(raw), p2) => (Some(be_value(raw)), p2),
                (None, p2) => (None, p2),
            }
        },
    }
}

fn read_integer_value(bytes: &[u8], pos: &mut usize) -> (r: Option<u64>)
    requires
        *old(pos) <= bytes@.len(),
    ensures
        (r, *final(pos) as int) == sp_integer(bytes@, *old(pos) as int),
{
    let first = match read_u8(bytes, pos) {
        Some(f) => f,
        None => return None,
    };
    if first & 0x80 != 0 {
        return Some((first & 0x7F) as u64);
    }
    let len = first as usize;
    if len == 0 || len > 8 {
        return None;
    }
    let raw = match take(bytes, pos, len) {
        Some(r) => r,
        None => return None,
    };
    let mut acc: u64 = 0;
    let mut i: usize = 0;
    while i < raw.len()
        invariant
            i <= raw@.len(),
            acc == be_value(raw@.take(i as int)),
        decreases raw@.len() - i,
    {
        acc = (acc << 8) | (raw[i] as u64);
        i = i + 1;
        assert(raw@.take(i as int).drop_last() =~= raw@.take(i - 1));
    }
    assert(raw@.take(raw@.len() as int) =~= raw@);
    Some(acc)
}

/// Index of the first zero byte at or after `i`, or the length.
pub open spec fn zero_from(b: Seq<u8>, i: int) -> int
    decreases b.len() - i,
{
    if i < 0 || i >= b.len() {
        b.len() as int
    } else if b[i] == 0 {
        i
    } else {
        zero_from(b, i + 1)
    }
}

/// A NUL-terminated UTF-8 text string at `pos`, after an optional 0x7F quote.
pub open spec fn sp_text(b: Seq<u8>, pos: int) -> (Option<Seq<char>>, int) {
    if !(0 <= pos < b.len()) {
        (None, pos)
    } else {
        let start = if b[pos] == 0x7F { pos + 1 } else { pos };
        let z = zero_from(b, start);
        if z >= b.len() {
            (None, b.len() as int)
        } else if !vstd::utf8::valid_utf8(b.subrange(start, z)) {
            (None, z)
        } else {
            (Some(vstd::utf8::decode_utf8(b.subrange(start, z))), z + 1)
        }
    }
}

proof fn lemma_zero_from_bounds(b: Seq<u8>, i: int)
    requires
        0 <= i <= b.len(),
    ensures
        i <= zero_from(b, i) <= b.len(),
        zero_from(b, i) < b.len() ==> b[zero_from(b, i)] == 0,
    decreases b.len() - i,
{
    if i < b.len() && b[i] != 0 {
        lemma_zero_from_bounds(b, i + 1);
    }
}

fn read_text_string(bytes: &[u8], pos: &mut usize) -> (r: Option<String>)
    ensures
        match sp_text(bytes@, *old(pos) as int) {
            (Some(t), p) => r matches Some(s) && s@ == t && *final(pos) == p,
            (None, p) => r is None && *final(pos) == p,
        },
{
    if *pos >= bytes.len() {
        return None;
    }
    if bytes[*pos] == 0x7F {
        *pos = *pos + 1;
    }
    let start = *pos;
    proof {
        lemma_zero_from_bounds(bytes@, start as int);
    }
    while *pos < bytes.len() && bytes[*pos] != 0
        invariant
            start <= *pos <= bytes@.len(),
            zero_from(bytes@, start as int) == zero_from(bytes@, *pos as int),
        decreases bytes@.len() - *pos,
    {
        *pos = *pos + 1;
    }
    if *pos >= bytes.len() {
        return None;
    }
    let text = match utf8_to_string(vstd::slice::slice_subrange(bytes, start, *pos)) {
        Some(t) => t,
        None => return None,
    };
    *pos = *pos + 1;
    Some(text)
}

/// Skips one header value: a length-prefixed value that fits, else a text string, else
/// a single byte. False only when nothing is left.
pub open spec fn sp_skip(b: Seq<u8>, pos: int) -> (bool, int) {
    if !(0 <= pos < b.len()) {
        (false, pos)
    } else {
        let (vl, p1) = sp_value_length(b, pos);
        if vl is Some && p1 + vl->0 <= b.len() {
            (true, p1 + vl->0)
        } else {
            let (t, p2) = sp_text(b, pos);
            if t is Some {
                (true, p2)
            } else {
                (true, pos + 1)
            }
        }
    }
}

fn skip_text_or_value(bytes: &[u8], pos: &mut usize) -> (r: bool)
    ensures
        (r, *final(pos) as int) == sp_skip(bytes@, *old(pos) as int),
{
    if *pos >= bytes.len() {
        return false;
    }
    let saved = *pos;
    match read_value_length(bytes, pos) {
        Some(len) => {
            if *pos <= bytes.len() && len <= bytes.len() - *pos {
                *pos = *pos + len;
                return true;
            }
        },
        None => {},
    }
    *pos = saved;
    if read_text_string(bytes, pos).is_some() {
        return true;
    }
    *pos = saved;
    read_u8(bytes, pos).is_some()
}

/// An expiry value: value length, then a token (0x80 absolute, 0x81 relative) and an
/// integer value inside that length.
pub open spec fn sp_expiry(b: Seq<u8>, pos: int) -> (Option<MmsExpiry>, int) {
    let (vl, p1) = sp_value_length(b, pos);
    match vl {
        None => (None, p1),
        Some(l) => {
            let end = p1 + l;
            if end > b.len() || p1 >= end {
                (None, p1)
            } else {
                let token = b[p1];
                let (iv, p3) = sp_integer(b.subrange(0, end), p1 + 1);
                match iv {
                    None => (None, p3),
                    Some(v) => (
                        if token == 0x80 {
                            Some(MmsExpiry::AbsoluteUnixSeconds(v))
                        } else if token == 0x81 {
                            Some(MmsExpiry::RelativeSeconds(v))
                        } else {
                            None
                        },
                        end,
                    ),
                }
            }
        },
    }
}

fn read_expiry_value(bytes: &[u8], pos: &mut usize) -> (r: Option<MmsExpiry>)
    ensures
        (r, *final(pos) as int) == sp_expiry(bytes@, *old(pos) as int),
{
    let blen = bytes.len();
    let len = match read_value_length(bytes, pos) {
        Some(l) => l,
        None => return None,
    };
    assert(blen == bytes@.len());
    let end = match (*pos).checked_add(len) {
        Some(e) => e,
        None => return None,
    };
    if end > bytes.len() || *pos >= end {
        return None;
    }
    let token = match read_u8(bytes, pos) {
        Some(t) => t,
        None => return None,
    };
    let value = match read_integer_value(vstd::slice::slice_subrange(bytes, 0, end), pos) {
        Some(v) => v,
        None => return None,
    };
    *pos = end;
    if token == 0x80 {
        Some(MmsExpiry::AbsoluteUnixSeconds(value))
    } else if token == 0x81 {
        Some(MmsExpiry::RelativeSeconds(value))
    } else {
        None
    }
}


proof fn lemma_uintvar_monotone(b: Seq<u8>, pos: int, k: int, acc: u64)
    ensures
        sp_uintvar_from(b, pos, k, acc).1 >= pos,
    decreases 5 - k,
{
    if k < 5 && 0 <= pos < b.len() && b[pos] & 0x80 != 0 {
        lemma_uintvar_monotone(b, pos + 1, k + 1, (acc << 7u64) | ((b[pos] & 0x7F) as u64));
    }
}

/// Every reader leaves the cursor at or after where it started, and inside the buffer.
proof fn lemma_readers_monotone(b: Seq<u8>, pos: int)
    requires
        0 <= pos <= b.len(),
    ensures
        pos <= sp_read_u8(b, pos).1 <= b.len(),
        pos <= sp_value_length(b, pos).1 <= b.len(),
        pos <= sp_integer(b, pos).1 <= b.len(),
        pos <= sp_text(b, pos).1 <= b.len(),
        pos <= sp_skip(b, pos).1 <= b.len(),
        pos <= sp_expiry(b, pos).1 <= b.len(),
{
    if 0 <= pos < b.len() {
        lemma_uintvar_monotone(b, pos + 1, 0, 0);
        lemma_uintvar_bound(b, pos + 1, 0, 0);
        let start = if b[pos] == 0x7F { pos + 1 } else { pos };
        lemma_zero_from_bounds(b, start);
        let (vl, p1) = sp_value_length(b, pos);
        if vl is Some {
            let end = p1 + vl->0;
            if !(end > b.len() || p1 >= end) {
            }
        }
    }
}

/// State of the header loop of an `M-Notification.ind`.
pub struct MmsHeaderScan {
    pub pos: int,
    pub aborted: bool,
    pub stopped: bool,
    pub is_notification: bool,
    pub content_location: Option<Seq<char>>,
    pub message_size: Option<u64>,
    pub expiry: Option<MmsExpiry>,
}

/// Headers whose value is skipped as text or a length-prefixed value.
pub open spec fn is_skipped_text_header(h: u8) -> bool {
    h == MMS_HEADER_TRANSACTION_ID || h == MMS_HEADER_MESSAGE_ID || h == MMS_HEADER_RESPONSE_TEXT
        || h == MMS_HEADER_SUBJECT || h == MMS_HEADER_TO
}

/// One header of the loop: read the header byte at `st.pos` and its value.
pub open spec fn mms_header_step(b: Seq<u8>, st: MmsHeaderScan) -> MmsHeaderScan {
    let header = b[st.pos];
    let p = st.pos + 1;
    if header == MMS_HEADER_MESSAGE_TYPE {
        let (v, p2) = sp_read_u8(b, p);
        match v {
            None => MmsHeaderScan { pos: p2, aborted: true, ..st },
            Some(x) => MmsHeaderScan {
                pos: p2,
                is_notification: x == MMS_MESSAGE_TYPE_NOTIFICATION_IND,
                ..st
            },
        }
    } else if header == MMS_HEADER_CONTENT_LOCATION {
        let (t, p2) = sp_text(b, p);
        MmsHeaderScan { pos: p2, content_location: t, ..st }
    } else if header == MMS_HEADER_MESSAGE_SIZE {
        let (v, p2) = sp_integer(b, p);
        MmsHeaderScan { pos: p2, message_size: v, ..st }
    } else if header == MMS_HEADER_EXPIRY {
        let (e, p2) = sp_expiry(b, p);
        MmsHeaderScan { pos: p2, expiry: e, ..st }
    } else if is_skipped_text_header(header) {
        MmsHeaderScan { pos: sp_skip(b, p).1, ..st }
    } else if header == MMS_HEADER_MMS_VERSION || header == MMS_HEADER_STATUS {
        MmsHeaderScan { pos: sp_read_u8(b, p).1, ..st }
    } else {
        let (ok, p2) = sp_skip(b, p);
        MmsHeaderScan { pos: p2, stopped: !ok, ..st }
    }
}

/// The header loop run to its end: all bytes read, a failed mandatory read, or an
/// unknown header whose value cannot be skipped.
pub open spec fn mms_header_scan(b: Seq<u8>, st: MmsHeaderScan) -> MmsHeaderScan
    decreases b.len() - st.pos,
{
    if st.aborted || st.stopped || !(0 <= st.pos < b.len()) {
        st
    } else {
        let n = mms_header_step(b, st);
        if n.pos <= st.pos || n.pos > b.len() {
            n
        } else {
            mms_header_scan(b, n)
        }
    }
}

/// `http://` or `https://` URL naming an `.mms` resource.
pub open spec fn is_mms_location(s: Seq<char>) -> bool {
    let http = seq!['h', 't', 't', 'p', ':', '/', '/'];
    let https = seq!['h', 't', 't', 'p', 's', ':', '/', '/'];
    ((s.len() >= 7 && s.take(7) == http) || (s.len() >= 8 && s.take(8) == https)) && spec_contains(
        s,
        seq!['.', 'm', 'm', 's'],
    )
}

/// The notification described by MMS headers, when they are an `M-Notification.ind`
/// with an MMS content location.
pub open spec fn spec_parse_mms_headers(b: Seq<u8>) -> Option<SpecMmsNotification> {
    let st = mms_header_scan(
        b,
        MmsHeaderScan {
            pos: 0,
            aborted: false,
            stopped: false,
            is_notification: false,
            content_location: None,
            message_size: None,
            expiry: None,
        },
    );
    if st.aborted {
        None
    } else {
        match st.content_location {
            None => None,
            Some(cl) => if st.is_notification && is_mms_location(cl) {
                Some(SpecMmsNotification {
                    content_location: cl,
                    message_size: st.message_size,
                    expiry: st.expiry,
                })
            } else {
                None
            },
        }
    }
}

/// The model of an optional string.
pub open spec fn opt_string_view(o: Option<String>) -> Option<Seq<char>> {
    match o {
        Some(s) => Some(s@),
        None => None,
    }
}

fn is_mms_content_location(s: &str) -> (r: bool)
    ensures
        r == is_mms_location(s@),
{
    let cs = str_to_chars(s);
    let http = ['h', 't', 't', 'p', ':', '/', '/'];
    let https = ['h', 't', 't', 'p', 's', ':', '/', '/'];
    let dot_mms = ['.', 'm', 'm', 's'];
    assert(http@ =~= seq!['h', 't', 't', 'p', ':', '/', '/']);
    assert(https@ =~= seq!['h', 't', 't', 'p', 's', ':', '/', '/']);
    assert(dot_mms@ =~= seq!['.', 'm', 'm', 's']);
    (chars_start_with(cs.as_slice(), http.as_slice()) || chars_start_with(
        cs.as_slice(),
        https.as_slice(),
    )) && chars_contain(cs.as_slice(), dot_mms.as_slice())
}

fn parse_mms_headers(bytes: &[u8]) -> (r: Option<MmsNotification>)
    ensures
        match spec_parse_mms_headers(bytes@) {
            Some(n) => r matches Some(x) && x@ == n,
            None => r is None,
        },
{
    let ghost init = MmsHeaderScan {
        pos: 0,
        aborted: false,
        stopped: false,
        is_notification: false,
        content_location: None,
        message_size: None,
        expiry: None,
    };
    let mut pos: usize = 0;
    let mut is_notification = false;
    let mut content_location: Option<String> = None;
    let mut message_size: Option<u64> = None;
    let mut expiry: Option<MmsExpiry> = None;
    let mut stopped = false;
    while pos < bytes.len()
        invariant_except_break
            !stopped,
        invariant
            pos <= bytes@.len(),
            init == (MmsHeaderScan {
                pos: 0,
                aborted: false,
                stopped: false,
                is_notification: false,
                content_location: None,
                message_size: None,
                expiry: None,
            }),
            mms_header_scan(bytes@, init) == mms_header_scan(
                bytes@,
                MmsHeaderScan {
                    pos: pos as int,
                    aborted: false,
                    stopped,
                    is_notification,
                    content_location: opt_string_view(content_location),
                    message_size,
                    expiry,
                },
            ),
        ensures
            mms_header_scan(bytes@, init) == (MmsHeaderScan {
                pos: pos as int,
                aborted: false,
                stopped,
                is_notification,
                content_location: opt_string_view(content_location),
                message_size,
                expiry,
            }),
        decreases bytes@.len() - pos,
    {
        let ghost st = MmsHeaderScan {
            pos: pos as int,
            aborted: false,
            stopped: false,
            is_notification,
            content_location: opt_string_view(content_location),
            message_size,
            expiry,
        };
        let header = bytes[pos];
        pos = pos + 1;
        proof {
            lemma_readers_monotone(bytes@, pos as int);
        }
        if header == MMS_HEADER_MESSAGE_TYPE {
            match read_u8(bytes, &mut pos) {
                Some(v) => {
                    is_notification = v == MMS_MESSAGE_TYPE_NOTIFICATION_IND;
                },
                None => {
                    let ghost n = mms_header_step(bytes@, st);
                    assert(n.aborted);
                    assert(mms_header_scan(bytes@, n) == n);
                    assert(mms_header_scan(bytes@, init) == n);
                    return None;
                },
            }
        } else if header == MMS_HEADER_CONTENT_LOCATION {
            content_location = read_text_string(bytes, &mut pos);
        } else if header == MMS_HEADER_MESSAGE_SIZE {
            message_size = read_integer_value(bytes, &mut pos);
        } else if header == MMS_HEADER_EXPIRY {
            expiry = read_expiry_value(bytes, &mut pos);
        } else if header == MMS_HEADER_TRANSACTION_ID || header == MMS_HEADER_MESSAGE_ID || header
            == MMS_HEADER_RESPONSE_TEXT || header == MMS_HEADER_SUBJECT || header == MMS_HEADER_TO {
            skip_text_or_value(bytes, &mut pos);
        } else if header == MMS_HEADER_MMS_VERSION || header == MMS_HEADER_STATUS {
            let _ = read_u8(bytes, &mut pos);
        } else {
            if !skip_text_or_value(bytes, &mut pos) {
                stopped = true;
            }
        }
        let ghost next = MmsHeaderScan {
            pos: pos as int,
            aborted: false,
            stopped,
            is_notification,
            content_location: opt_string_view(content_location),
            message_size,
            expiry,
        };
        assert(next == mms_header_step(bytes@, st));
        if stopped {
            break;
        }
    }
    let cl = match content_location {
        Some(c) => c,
        None => return None,
    };
    if is_notification && is_mms_content_location(cl.as_str()) {
        Some(MmsNotification { content_location: cl, message_size, expiry })
    } else {
        None
    }
}

/// The WSP content type `application/vnd.wap.mms-message`.
pub open spec fn mms_mime() -> Seq<u8> {
    seq![
        0x61u8, 0x70, 0x70, 0x6C, 0x69, 0x63, 0x61, 0x74, 0x69, 0x6F, 0x6E, 0x2F, 0x76, 0x6E, 0x64,
        0x2E, 0x77, 0x61, 0x70, 0x2E, 0x6D, 0x6D, 0x73, 0x2D, 0x6D, 0x65, 0x73, 0x73, 0x61, 0x67,
        0x65,
    ]
}

/// WSP headers announce MMS: the well-known MMS content type code first, or the MMS MIME
/// type anywhere.
pub open spec fn wsp_indicates_mms(h: Seq<u8>) -> bool {
    (h.len() > 0 && h[0] == WSP_CONTENT_TYPE_MMS) || exists|i: int| bytes_occur_at(h, mms_mime(), i)
}

fn wsp_headers_indicate_mms(headers: &[u8]) -> (r: bool)
    ensures
        r == wsp_indicates_mms(headers@),
{
    if headers.len() > 0 && headers[0] == WSP_CONTENT_TYPE_MMS {
        return true;
    }
    let mime: Vec<u8> = vec![
        0x61u8, 0x70, 0x70, 0x6C, 0x69, 0x63, 0x61, 0x74, 0x69, 0x6F, 0x6E, 0x2F, 0x76, 0x6E, 0x64,
        0x2E, 0x77, 0x61, 0x70, 0x2E, 0x6D, 0x6D, 0x73, 0x2D, 0x6D, 0x65, 0x73, 0x73, 0x61, 0x67,
        0x65,
    ];
    assert(mime@ =~= mms_mime());
    bytes_contain(headers, mime.as_slice())
}

/// The notification carried by a WAP Push payload: transaction id, PDU type 0x06 (Push),
/// header length (`uintvar`), WSP headers announcing MMS, then the MMS headers.
pub open spec fn spec_parse_wap_push(p: Seq<u8>) -> Option<SpecMmsNotification> {
    if p.len() < 2 || p[1] != WSP_PUSH_PDU {
        None
    } else {
        let (hl, p3) = sp_uintvar(p, 2);
        match hl {
            None => None,
            Some(h) => match sp_take(p, p3, (h as usize) as int) {
                (None, _) => None,
                (Some(hdrs), p4) => if !wsp_indicates_mms(hdrs) {
                    None
                } else {
                    spec_parse_mms_headers(p.subrange(p4, p.len() as int))
                },
            },
        }
    }
}

fn parse_wap_push_mms_notification(payload: &[u8]) -> (r: Option<MmsNotification>)
    ensures
        match spec_parse_wap_push(payload@) {
            Some(n) => r matches Some(x) && x@ == n,
            None => r is None,
        },
{
    let mut pos: usize = 0;
    let _transaction_id = match read_u8(payload, &mut pos) {
        Some(t) => t,
        None => return None,
    };
    let pdu_type = match read_u8(payload, &mut pos) {
        Some(t) => t,
        None => return None,
    };
    if pdu_type != WSP_PUSH_PDU {
        return None;
    }
    let header_len = match read_uintvar(payload, &mut pos) {
        Some(h) => h as usize,
        None => return None,
    };
    proof {
        lemma_uintvar_monotone(payload@, 2, 0, 0);
    }
    assert(pos <= payload@.len()) by {
        lemma_uintvar_bound(payload@, 2, 0, 0);
    }
    let headers = match take(payload, &mut pos, header_len) {
        Some(h) => h,
        None => return None,
    };
    if !wsp_headers_indicate_mms(headers) {
        return None;
    }
    parse_mms_headers(vstd::slice::slice_subrange(payload, pos, payload.len()))
}

proof fn lemma_uintvar_bound(b: Seq<u8>, pos: int, k: int, acc: u64)
    requires
        0 <= pos <= b.len(),
    ensures
        sp_uintvar_from(b, pos, k, acc).1 <= b.len(),
    decreases 5 - k,
{
    if k < 5 && 0 <= pos < b.len() && b[pos] & 0x80 != 0 {
        lemma_uintvar_bound(b, pos + 1, k + 1, (acc << 7u64) | ((b[pos] & 0x7F) as u64));
    }
}

/// The MMS notification carried by an SMS: 8-bit data (DCS 0x04) addressed to the WAP
/// Push port 2948.
pub open spec fn spec_mms_notification_from_sms(pdu: crate::sms::codec::SpecSmsPdu) -> Option<SpecMmsNotification> {
    if pdu.destination_port != Some(WAP_PUSH_PORT) || pdu.dcs != 0x04 {
        None
    } else {
        spec_parse_wap_push(pdu.user_data_payload)
    }
}

/// Parse the MMS notification (if any) carried by a decoded SMS.
pub fn parse_mms_notification_from_sms(pdu: &SmsPdu) -> (r: Option<MmsNotification>)
    ensures
        match spec_mms_notification_from_sms(pdu@) {
            Some(n) => r matches Some(x) && x@ == n,
            None => r is None,
        },
{
    let is_push = match pdu.destination_port {
        Some(p) => p == WAP_PUSH_PORT,
        None => false,
    };
    if !is_push || pdu.dcs != 0x04 {
        return None;
    }
    parse_wap_push_mms_notification(pdu.user_data_payload.as_slice())
}

/// The token of an expiry value decides its kind: with a short value length, a value
/// that parses is relative exactly when its token octet is 0x81 (relative-token) and
/// absolute exactly when it is 0x80 (absolute-token).
pub proof fn lemma_expiry_token_kind(b: Seq<u8>, pos: int)
    requires
        0 <= pos < b.len(),
        b[pos] <= 30,
        sp_expiry(b, pos).0 is Some,
    ensures
        sp_expiry(b, pos).0->0 is RelativeSeconds <==> b[pos + 1] == 0x81,
        sp_expiry(b, pos).0->0 is AbsoluteUnixSeconds <==> b[pos + 1] == 0x80,
{
}

/// An expiry `02 t x` with a short-integer value (`x` has its top bit set) means
/// `x - 0x80` seconds: relative for token 0x81, an absolute Unix time for token 0x80,
/// nothing for another token; reading goes on after it.
pub proof fn lemma_expiry_short_integer(b: Seq<u8>, pos: int)
    requires
        0 <= pos,
        pos + 3 <= b.len(),
        b[pos] == 2,
        b[pos + 2] >= 0x80,
    ensures
        sp_expiry(b, pos).1 == pos + 3,
        b[pos + 1] == 0x81 ==> sp_expiry(b, pos).0 == Some(MmsExpiry::RelativeSeconds((b[pos + 2] - 0x80) as u64)),
        b[pos + 1] == 0x80 ==> sp_expiry(b, pos).0 == Some(MmsExpiry::AbsoluteUnixSeconds((b[pos + 2] - 0x80) as u64)),
        b[pos + 1] != 0x80 && b[pos + 1] != 0x81 ==> sp_expiry(b, pos).0 is None,
{
    let x = b[pos + 2];
    assert(x & 0x80 != 0 && (x & 0x7F) as u64 == (x - 0x80) as u64) by (bit_vector)
        requires
            x >= 0x80,
    ;
    assert(b.subrange(0, pos + 3)[pos + 2] == x);
}

/// An expiry `05 t 03 a b c` with a three-octet long-integer value means the big-endian
/// number `a * 65536 + b * 256 + c` seconds: relative for token 0x81, an absolute Unix
/// time for token 0x80, nothing for another token.
pub proof fn lemma_expiry_long_integer(b: Seq<u8>, pos: int)
    requires
        0 <= pos,
        pos + 6 <= b.len(),
        b[pos] == 5,
        b[pos + 2] == 3,
    ensures
        sp_expiry(b, pos).1 == pos + 6,
        b[pos + 1] == 0x81 ==> sp_expiry(b, pos).0 == Some(
            MmsExpiry::RelativeSeconds((b[pos + 3] as int * 65536 + b[pos + 4] as int * 256 + b[pos + 5] as int) as u64),
        ),
        b[pos + 1] == 0x80 ==> sp_expiry(b, pos).0 == Some(
            MmsExpiry::AbsoluteUnixSeconds((b[pos + 3] as int * 65536 + b[pos + 4] as int * 256 + b[pos + 5] as int) as u64),
        ),
        b[pos + 1] != 0x80 && b[pos + 1] != 0x81 ==> sp_expiry(b, pos).0 is None,
{
    let c = b.subrange(0, pos + 6);
    let raw = c.subrange(pos + 3, pos + 6);
    let x = b[pos + 3];
    let y = b[pos + 4];
    let z = b[pos + 5];
    assert(raw =~= seq![x, y, z]);
    assert(raw.drop_last() =~= seq![x, y]);
    assert(raw.drop_last().drop_last() =~= seq![x]);
    assert(raw.drop_last().drop_last().drop_last() =~= Seq::<u8>::empty());
    let r1 = raw.drop_last().drop_last();
    let r2 = raw.drop_last();
    assert(be_value(r1.drop_last()) == 0u64);
    assert(r1.last() == x);
    assert(be_value(r1) == (0u64 << 8u64) | (x as u64));
    assert(r2.last() == y);
    assert(be_value(r2) == (be_value(r1) << 8u64) | (y as u64));
    assert(raw.last() == z);
    assert(be_value(raw) == (be_value(r2) << 8u64) | (z as u64));
    assert((((((0u64 << 8u64) | (x as u64)) << 8u64) | (y as u64)) << 8u64) | (z as u64) == (x as int * 65536 + y as int
        * 256 + z as int) as u64) by (bit_vector);
    assert(c[pos + 2] == 3u8);
    assert((3u8 & 0x80) == 0) by (bit_vector);
}

} // verus!
