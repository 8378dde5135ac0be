//! SMS → IM forwarding core logic, and the block list.
//!
//! The block list is stored under `keys::BLOCK_LIST` as a JSON array of strings
//! (serde_json).

use crate::bridge::reply_router::{spec_put, ReplyRouter};
use crate::i18n::en::sms_received;
use crate::im::{MessageFormat, MessageId, MessageSink};
use crate::log_ring::{appended_contents, encode_payload_ok, entry_within_limits, next_seq_after, LogEntry, LogEvent, LogKind, LogRing, SpecLogEntry};
use crate::persist::{keys, load_bool, spec_load_bool, Store, StoreError};
use crate::sms::codec::{
    human_readable_phone, human_readable_phone_defined, normalize_phone, spec_human_readable_phone,
    spec_normalize_phone, spec_timestamp_to_rfc3339, timestamp_to_rfc3339, ts_fields_sliceable,
    phone_chars, is_ascii_digit,
};
use crate::sms::SmsMessage;
use crate::strutil::{
    new_string, push_char, push_str, str_eq, str_to_chars, string_views, to_owned_string,
};
use crate::text::char_prefix;
use crate::sms::codec::hex_digit_lower;
use vstd::prelude::*;
use vstd::string::StringSliceAdditionalSpecFns;
use vstd::utf8::encode_utf8;

verus! {

const SMS_LOG_PREVIEW_CHARS: usize = 160;

/// The list of strings that serde_json reads from JSON bytes (`serde_json::from_slice`
/// into `Vec<String>`); none when the bytes are not such a JSON array.
pub uninterp spec fn json_string_list(bytes: Seq<u8>) -> Option<Seq<Seq<char>>>;

/// A character inside a JSON string as serde_json writes it: `"` and `\` and the
/// control characters escaped (`\b \t \n \f \r`, else `\u00` and two lower-case hex
/// digits), every other character as it is.
pub open spec fn json_escape_char(c: char) -> Seq<char> {
    if c == '"' {
        seq!['\\', '"']
    } else if c == '\\' {
        seq!['\\', '\\']
    } else if c == '\u{8}' {
        seq!['\\', 'b']
    } else if c == '\t' {
        seq!['\\', 't']
    } else if c == '\n' {
        seq!['\\', 'n']
    } else if c == '\u{c}' {
        seq!['\\', 'f']
    } else if c == '\r' {
        seq!['\\', 'r']
    } else if (c as u32) < 0x20 {
        seq!['\\', 'u', '0', '0', hex_digit_lower(((c as u32) / 16) as u8), hex_digit_lower(((c as u32) % 16) as u8)]
    } else {
        seq![c]
    }
}

/// A text as the inside of a JSON string.
pub open spec fn json_escape(s: Seq<char>) -> Seq<char>
    decreases s.len(),
{
    if s.len() == 0 {
        Seq::empty()
    } else {
        json_escape(s.drop_last()) + json_escape_char(s.last())
    }
}

/// The items of a JSON array of strings, separated by commas.
pub open spec fn json_items(list: Seq<Seq<char>>) -> Seq<char>
    decreases list.len(),
{
    if list.len() == 0 {
        Seq::empty()
    } else if list.len() == 1 {
        seq!['"'] + json_escape(list[0]) + seq!['"']
    } else {
        json_items(list.drop_last()) + seq![','] + seq!['"'] + json_escape(list.last()) + seq!['"']
    }
}

/// The JSON bytes serde_json writes for a list of strings (`serde_json::to_vec`): the
/// compact array, in UTF-8.
pub open spec fn json_of_string_list(list: Seq<Seq<char>>) -> Seq<u8> {
    encode_utf8(seq!['['] + json_items(list) + seq![']'])
}

/// Parses JSON bytes as an array of strings with `serde_json::from_slice`. The result
/// depends on the bytes alone and is named `json_string_list`.
#[verifier::external_body]
fn decode_string_list(bytes: &[u8]) -> (r: Option<Vec<String>>)
    ensures
        match json_string_list(bytes@) {
            Some(l) => r matches Some(v) && string_views(v@) == l,
            None => r is None,
        },
{
    serde_json::from_slice::<Vec<String>>(bytes).ok()
}

/// Writes a list of strings as JSON with `serde_json::to_vec`. Its documentation says it
/// fails only when a `Serialize` impl fails or a map has non-string keys, neither of
/// which a list of strings has, so it succeeds; its bytes are the compact array with
/// serde_json's string escapes (`json_of_string_list`); and serde_json reads back the
/// strings it wrote.
#[verifier::external_body]
fn encode_string_list(list: &[String]) -> (r: Result<Vec<u8>, String>)
    ensures
        r is Ok,
        r matches Ok(b) ==> b@ == json_of_string_list(string_views(list@)),
        r matches Ok(b) ==> json_string_list(b@) == Some(string_views(list@)),
{
    match serde_json::to_vec(list) {
        Ok(b) => Ok(b),
        Err(e) => Err(e.to_string()),
    }
}

/// The block list as stored: empty when absent or not a JSON array of strings.
pub open spec fn spec_blocklist(stored: Map<Seq<char>, Seq<u8>>) -> Seq<Seq<char>> {
    if stored.contains_key(keys::BLOCK_LIST@) {
        match json_string_list(stored[keys::BLOCK_LIST@]) {
            Some(l) => l,
            None => Seq::empty(),
        }
    } else {
        Seq::empty()
    }
}

/// Whether `p` ends `s` (`str::ends_with`).
pub open spec fn ends_with(s: Seq<char>, p: Seq<char>) -> bool {
    p.len() <= s.len() && s.skip(s.len() - p.len()) == p
}

/// A block-list entry matches a normalized number when, normalized, it equals the
/// number or one ends the other.
pub open spec fn entry_matches(entry: Seq<char>, n: Seq<char>) -> bool {
    let nb = spec_normalize_phone(entry);
    nb == n || ends_with(n, nb) || ends_with(nb, n)
}

/// Whether a sender is blocked by the stored block list.
pub open spec fn spec_is_blocked(stored: Map<Seq<char>, Seq<u8>>, phone: Seq<char>) -> bool {
    let l = spec_blocklist(stored);
    exists|i: int| 0 <= i < l.len() && entry_matches(#[trigger] l[i], spec_normalize_phone(phone))
}

fn ends_with_exec(s: &Vec<char>, p: &Vec<char>) -> (r: bool)
    ensures
        r == ends_with(s@, p@),
{
    if p.len() > s.len() {
        return false;
    }
    let sl = s.len();
    let off = sl - p.len();
    let mut j: usize = 0;
    while j < p.len()
        invariant
            sl == s@.len(),
            p@.len() <= sl,
            off == s@.len() - p@.len(),
            j <= p@.len(),
            forall|t: int| 0 <= t < j ==> s@[off + t] == p@[t],
        decreases p@.len() - j,
    {
        if s[off + j] != p[j] {
            assert(s@.skip(off as int)[j as int] != p@[j as int]);
            return false;
        }
        j = j + 1;
    }
    assert(s@.skip(off as int) =~= p@);
    true
}

fn entry_matches_exec(entry: &str, n: &Vec<char>) -> (r: bool)
    ensures
        r == entry_matches(entry@, n@),
{
    let nb = str_to_chars(normalize_phone(entry).as_str());
    crate::strutil::chars_eq(nb.as_slice(), n.as_slice()) || ends_with_exec(n, &nb) || ends_with_exec(&nb, n)
}

/// Check if `phone` is in the block list.
pub fn is_blocked<S: Store + ?Sized>(phone: &str, store: &S) -> (r: bool)
    ensures
        store.obeys_model() ==> r == spec_is_blocked(store.stored(), phone@),
{
    let list = load_blocklist(store);
    let n = str_to_chars(normalize_phone(phone).as_str());
    let mut i: usize = 0;
    while i < list.len()
        invariant
            i <= list@.len(),
            store.obeys_model() ==> string_views(list@) == spec_blocklist(store.stored()),
            n@ == spec_normalize_phone(phone@),
            forall|k: int| 0 <= k < i ==> !entry_matches(#[trigger] string_views(list@)[k], n@),
        decreases list@.len() - i,
    {
        assert(string_views(list@)[i as int] == list@[i as int]@);
        if entry_matches_exec(list[i].as_str(), &n) {
            return true;
        }
        i = i + 1;
    }
    false
}

/// The stored block list (empty when absent or unreadable).
pub fn load_blocklist<S: Store + ?Sized>(store: &S) -> (r: Vec<String>)
    ensures
        store.obeys_model() ==> string_views(r@) == spec_blocklist(store.stored()),
{
    match store.load(keys::BLOCK_LIST) {
        Some(b) => match decode_string_list(b.as_slice()) {
            Some(v) => v,
            None => {
                let v: Vec<String> = Vec::new();
                assert(string_views(v@) =~= Seq::<Seq<char>>::empty());
                v
            },
        },
        None => {
            let v: Vec<String> = Vec::new();
            assert(string_views(v@) =~= Seq::<Seq<char>>::empty());
            v
        },
    }
}

/// Stores the block list as JSON.
fn save_blocklist<S: Store + ?Sized>(list: &[String], store: &mut S) -> (r: Result<(), StoreError>)
    ensures
        final(store).never_fails() == old(store).never_fails(),
        final(store).obeys_model() == old(store).obeys_model(),
        old(store).never_fails() ==> r is Ok,
        old(store).obeys_model() && r is Ok ==> final(store).stored() == old(store).stored().insert(
            keys::BLOCK_LIST@,
            json_of_string_list(string_views(list@)),
        ),
        old(store).obeys_model() && r is Ok ==> spec_blocklist(final(store).stored()) == string_views(list@),
{
    match encode_string_list(list) {
        Ok(bytes) => store.save(keys::BLOCK_LIST, bytes.as_slice()),
        Err(e) => Err(StoreError::Serde(e)),
    }
}

fn list_contains(list: &Vec<String>, n: &str) -> (r: bool)
    ensures
        r == string_views(list@).contains(n@),
{
    let mut i: usize = 0;
    while i < list.len()
        invariant
            i <= list@.len(),
            forall|k: int| 0 <= k < i ==> string_views(list@)[k] != n@,
        decreases list@.len() - i,
    {
        assert(string_views(list@)[i as int] == list@[i as int]@);
        if str_eq(list[i].as_str(), n) {
            return true;
        }
        i = i + 1;
    }
    false
}

/// Add a phone number (normalized) to the block list; nothing changes when it is
/// already there.
pub fn add_to_blocklist<S: Store + ?Sized>(phone: &str, store: &mut S) -> (r: Result<(), StoreError>)
    ensures
        old(store).obeys_model() && spec_blocklist(old(store).stored()).contains(spec_normalize_phone(phone@)) ==> r is Ok
            && final(store).stored() == old(store).stored(),
        old(store).obeys_model() && !spec_blocklist(old(store).stored()).contains(spec_normalize_phone(phone@)) ==> (r is Ok
            ==> final(store).stored() == old(store).stored().insert(
            keys::BLOCK_LIST@,
            json_of_string_list(spec_blocklist(old(store).stored()).push(spec_normalize_phone(phone@))),
        )),
        old(store).obeys_model() && r is Ok ==> spec_blocklist(final(store).stored()).contains(spec_normalize_phone(phone@)),
        old(store).obeys_model() && r is Ok ==> spec_blocklist(final(store).stored()) == with_number(
            spec_blocklist(old(store).stored()),
            spec_normalize_phone(phone@),
        ),
        old(store).obeys_model() && r is Ok ==> spec_is_blocked(final(store).stored(), phone@),
        final(store).never_fails() == old(store).never_fails(),
        final(store).obeys_model() == old(store).obeys_model(),
        old(store).never_fails() ==> r is Ok,
{
    let mut list = load_blocklist(store);
    let n = normalize_phone(phone);
    if !list_contains(&list, n.as_str()) {
        let ghost before = list@;
        list.push(n);
        assert(string_views(list@) =~= string_views(before).push(spec_normalize_phone(phone@)));
        let r = save_blocklist(list.as_slice(), store);
        proof {
            if r is Ok && old(store).obeys_model() {
                let l2 = spec_blocklist(final(store).stored());
                assert(l2[l2.len() - 1] == spec_normalize_phone(phone@));
                lemma_blocked_by_entry(final(store).stored(), phone@, l2.len() - 1);
            }
        }
        return r;
    }
    proof {
        if store.obeys_model() {
            let l = spec_blocklist(store.stored());
            let k = choose|k: int| 0 <= k < l.len() && l[k] == spec_normalize_phone(phone@);
            lemma_blocked_by_entry(store.stored(), phone@, k);
        }
    }
    Ok(())
}

/// An entry equal to the normalized number blocks it.
proof fn lemma_blocked_by_entry(stored: Map<Seq<char>, Seq<u8>>, phone: Seq<char>, k: int)
    requires
        0 <= k < spec_blocklist(stored).len(),
        spec_blocklist(stored)[k] == spec_normalize_phone(phone),
    ensures
        spec_is_blocked(stored, phone),
{
    lemma_normalize_idempotent(phone);
    assert(entry_matches(spec_blocklist(stored)[k], spec_normalize_phone(phone)));
}

/// The list with `n` added at its end, unless it holds it already.
pub open spec fn with_number(l: Seq<Seq<char>>, n: Seq<char>) -> Seq<Seq<char>> {
    if l.contains(n) {
        l
    } else {
        l.push(n)
    }
}

/// The list without the entries equal to `n`.
pub open spec fn without(l: Seq<Seq<char>>, n: Seq<char>) -> Seq<Seq<char>>
    decreases l.len(),
{
    if l.len() == 0 {
        l
    } else if l.last() == n {
        without(l.drop_last(), n)
    } else {
        without(l.drop_last(), n).push(l.last())
    }
}

/// Taking a number out of a list that does not hold it changes nothing.
pub proof fn lemma_without_absent(l: Seq<Seq<char>>, n: Seq<char>)
    requires
        !l.contains(n),
    ensures
        without(l, n) == l,
    decreases l.len(),
{
    if l.len() > 0 {
        assert(l.drop_last().contains(n) ==> l.contains(n)) by {
            if l.drop_last().contains(n) {
                let k = choose|k: int| 0 <= k < l.drop_last().len() && l.drop_last()[k] == n;
                assert(l[k] == n);
            }
        }
        assert(l[l.len() - 1] == l.last());
        lemma_without_absent(l.drop_last(), n);
        assert(l.drop_last().push(l.last()) =~= l);
    }
}

/// Unblocking a number right after blocking it gives back the block list as it was:
/// `add_to_blocklist` stores the list with the number pushed when it was absent, and
/// `remove_from_blocklist` takes every entry equal to the number out.
pub proof fn lemma_unblock_undoes_block(list: Seq<Seq<char>>, n: Seq<char>)
    requires
        !list.contains(n),
    ensures
        without(list.push(n), n) == list,
{
    assert(list.push(n).drop_last() =~= list);
    lemma_without_absent(list, n);
}

/// No entry equal to `n` is left once it is taken out.
proof fn lemma_without_lacks(l: Seq<Seq<char>>, n: Seq<char>)
    ensures
        !without(l, n).contains(n),
    decreases l.len(),
{
    if l.len() > 0 {
        lemma_without_lacks(l.drop_last(), n);
        let w = without(l.drop_last(), n);
        if l.last() != n {
            assert forall|k: int| 0 <= k < w.push(l.last()).len() implies w.push(l.last())[k] != n by {
                if k < w.len() {
                    assert(w.push(l.last())[k] == w[k]);
                }
            }
        }
    }
}

/// Blocking a number and then unblocking it: the number is on the list after the block;
/// the unblock finds it, and leaves the list as unblocking alone would have (the list as
/// it was when the number was not on it), without the number, so that a second unblock
/// finds nothing.
pub proof fn lemma_block_then_unblock(list: Seq<Seq<char>>, n: Seq<char>)
    ensures
        with_number(list, n).contains(n),
        without(with_number(list, n), n) == without(list, n),
        !list.contains(n) ==> without(with_number(list, n), n) == list,
        !without(with_number(list, n), n).contains(n),
{
    if !list.contains(n) {
        assert(list.push(n)[list.len() as int] == n);
        assert(list.push(n).drop_last() =~= list);
        lemma_unblock_undoes_block(list, n);
        lemma_without_absent(list, n);
    }
    lemma_without_lacks(with_number(list, n), n);
}

/// Remove a phone number (normalized) from the block list. Returns whether it was
/// there; the shortened list is then saved (best-effort: a failed save is ignored).
pub fn remove_from_blocklist<S: Store + ?Sized>(phone: &str, store: &mut S) -> (r: bool)
    ensures
        old(store).obeys_model() ==> r == spec_blocklist(old(store).stored()).contains(spec_normalize_phone(phone@)),
        old(store).obeys_model() && !r ==> final(store).stored() == old(store).stored(),
        final(store).never_fails() == old(store).never_fails(),
        final(store).obeys_model() == old(store).obeys_model(),
        r && old(store).obeys_model() && old(store).never_fails() ==> final(store).stored() == old(store).stored().insert(
            keys::BLOCK_LIST@,
            json_of_string_list(without(spec_blocklist(old(store).stored()), spec_normalize_phone(phone@))),
        ),
        r && old(store).obeys_model() && old(store).never_fails() ==> spec_blocklist(final(store).stored()) == without(
            spec_blocklist(old(store).stored()),
            spec_normalize_phone(phone@),
        ),
{
    let list = load_blocklist(store);
    let n = normalize_phone(phone);
    let mut kept: Vec<String> = Vec::new();
    let mut i: usize = 0;
    let ghost l = string_views(list@);
    while i < list.len()
        invariant
            i <= list@.len(),
            l == string_views(list@),
            string_views(kept@) == without(l.take(i as int), n@),
            kept@.len() <= i,
            kept@.len() == i ==> forall|k: int| 0 <= k < i ==> l[k] != n@,
            kept@.len() < i ==> exists|k: int| 0 <= k < i && l[k] == n@,
        decreases list@.len() - i,
    {
        assert(l.take(i + 1).drop_last() =~= l.take(i as int));
        assert(l[i as int] == list@[i as int]@);
        assert(l.take(i + 1).last() == l[i as int]);
        if !str_eq(list[i].as_str(), n.as_str()) {
            let ghost kb = kept@;
            kept.push(list[i].clone());
            assert(string_views(kept@) =~= string_views(kb).push(list@[i as int]@));
        }
        i = i + 1;
    }
    assert(l.take(list@.len() as int) =~= l);
    if kept.len() < list.len() {
        let _ = save_blocklist(kept.as_slice(), store);
        true
    } else {
        assert(!l.contains(n@)) by {
            if l.contains(n@) {
                let k = choose|k: int| 0 <= k < l.len() && l[k] == n@;
                assert(l[k] != n@);
            }
        }
        false
    }
}

/// Whether the display formatting can slice the sender and the time stamp (the places
/// where it would otherwise stop on a character boundary).
pub open spec fn sms_displayable(sms: &SmsMessage) -> bool {
    parts_displayable(sms.sender@, sms.timestamp@)
}

/// Whether the display formatting can slice this sender and time stamp.
pub open spec fn parts_displayable(sender: Seq<char>, timestamp: Seq<char>) -> bool {
    human_readable_phone_defined(sender) && ts_fields_sliceable(encode_utf8(timestamp))
}

/// Checks `sms_displayable`.
pub fn can_display(sms: &SmsMessage) -> (r: bool)
    ensures
        r == sms_displayable(sms),
{
    let s = sms.sender.as_str();
    let b = s.as_bytes();
    let sender_ok = if b.len() == 14 && b[0] == 0x2B && b[1] == 0x38 && b[2] == 0x36 {
        s.is_char_boundary(6) && s.is_char_boundary(10)
    } else {
        true
    };
    let t = sms.timestamp.as_str();
    let tb = t.as_bytes();
    let ts_ok = if tb.len() >= 17 {
        t.is_char_boundary(2) && t.is_char_boundary(3) && t.is_char_boundary(5) && t.is_char_boundary(6)
            && t.is_char_boundary(8) && t.is_char_boundary(9) && t.is_char_boundary(11)
            && t.is_char_boundary(12) && t.is_char_boundary(14) && t.is_char_boundary(15)
            && t.is_char_boundary(17)
    } else {
        true
    };
    sender_ok && ts_ok
}

/// The text sent for an SMS: sender in display form, time in RFC 3339 at UTC+8, body.
pub open spec fn spec_forward_text(sms: &SmsMessage) -> Seq<char> {
    forward_text_of(sms.sender@, sms.timestamp@, sms.body@)
}

/// The text sent for an SMS with this sender, time stamp and body.
pub open spec fn forward_text_of(sender: Seq<char>, timestamp: Seq<char>, body: Seq<char>) -> Seq<char> {
    "📱 SMS from "@ + spec_human_readable_phone(sender) + "\n🕐 "@ + spec_timestamp_to_rfc3339(timestamp, 480)
        + "\n\n"@ + body
}

/// The IM text for an SMS.
pub fn forward_text(sms: &SmsMessage) -> (r: String)
    requires
        sms_displayable(sms),
    ensures
        r@ == spec_forward_text(sms),
{
    let display = human_readable_phone(sms.sender.as_str());
    let ts = timestamp_to_rfc3339(sms.timestamp.as_str(), 480);
    sms_received(display.as_str(), ts.as_str(), sms.body.as_str())
}

/// The log preview of an SMS: its first 160 characters, prefixed by `sms_time=` and the
/// time (RFC 3339 at UTC+8, or as received when shorter than 17 bytes) when there is one.
pub open spec fn spec_sms_log_preview(sms: &SmsMessage) -> Seq<char> {
    let body = if sms.body@.len() > 160 { sms.body@.take(160) } else { sms.body@ };
    if sms.timestamp@.len() == 0 {
        body
    } else {
        let t = if encode_utf8(sms.timestamp@).len() < 17 {
            sms.timestamp@
        } else {
            spec_timestamp_to_rfc3339(sms.timestamp@, 480)
        };
        "sms_time="@ + t + " "@ + body
    }
}

fn sms_log_preview(sms: &SmsMessage) -> (r: String)
    requires
        ts_fields_sliceable(encode_utf8(sms.timestamp@)),
    ensures
        r@ == spec_sms_log_preview(sms),
{
    let (body, _) = char_prefix(sms.body.as_str(), SMS_LOG_PREVIEW_CHARS);
    if sms.timestamp.as_str().is_empty() {
        to_owned_string(body)
    } else {
        let mut preview = new_string();
        push_str(&mut preview, "sms_time=");
        if !crate::sms::codec::push_timestamp_rfc3339(&mut preview, sms.timestamp.as_str(), 480) {
            push_str(&mut preview, sms.timestamp.as_str());
        }
        push_str(&mut preview, " ");
        push_str(&mut preview, body);
        preview
    }
}

/// The log preview of an SMS (exposed for tests).
pub fn sms_log_preview_for_test(sms: &SmsMessage) -> (r: String)
    requires
        ts_fields_sliceable(encode_utf8(sms.timestamp@)),
    ensures
        r@ == spec_sms_log_preview(sms),
{
    sms_log_preview(sms)
}

/// The log entry for an SMS: its sender, its preview, the time it was logged, and
/// whether it was forwarded.
pub open spec fn sms_log_entry(sms: &SmsMessage, ts: Seq<char>, forwarded: bool) -> SpecLogEntry {
    SpecLogEntry { kind: LogKind::Sms, sender: sms.sender@, body_preview: spec_sms_log_preview(sms), timestamp: ts, forwarded }
}

/// The network event logged when the messenger refused a forward, with the messenger's
/// error message `detail`.
pub open spec fn send_failure_entry(ts: Seq<char>, detail: Seq<char>) -> SpecLogEntry {
    SpecLogEntry {
        kind: LogKind::Network,
        sender: "telegram"@,
        body_preview: "send failed: "@ + detail,
        timestamp: ts,
        forwarded: false,
    }
}

/// `after` is `before` with `e` appended, where the log's storage never fails and the
/// entry can be stored.
pub open spec fn logged_once(before: LogRing, after: LogRing, e: SpecLogEntry) -> bool {
    before.never_fails() && entry_within_limits(e) && encode_payload_ok(e) ==> {
        &&& after.flash() == appended_contents(
            before.flash(),
            before.next_slot_value(),
            before.slots_per_erase_unit(),
            before.next_seq_value(),
            e,
        )
        &&& after.next_seq_value() == next_seq_after(before.next_seq_value())
        &&& after.next_slot_value() == (before.next_slot_value() + 1) % before.slot_count()
    }
}

/// Process and forward one SMS. Returns the IM MessageId on success.
///
/// While forwarding is paused, or when the sender is blocked, the SMS is only logged
/// and nothing is sent. Otherwise its forward text is sent (HTML format); on success
/// its sender is recorded for replies under the new message id. Each outcome is
/// logged.
pub fn forward_sms<S: Store + ?Sized, K: MessageSink + ?Sized>(
    sms: &SmsMessage,
    messenger: &mut K,
    router: &mut ReplyRouter,
    log: &mut LogRing,
    store: &mut S,
    log_timestamp: &str,
) -> (r: Option<MessageId>)
    requires
        sms_displayable(sms),
        old(router).wf(),
        old(log).wf(),
    ensures
        final(router).wf(),
        final(log).wf(),
        old(store).obeys_model() && (spec_load_bool(old(store).stored(), keys::FWD_ENABLED@) == Some(false) || spec_is_blocked(
            old(store).stored(),
            sms.sender@,
        )) ==> r is None && final(router).view_slots() == old(router).view_slots()
            && final(store).stored() == old(store).stored() && final(messenger).delivered()
            == old(messenger).delivered() && final(messenger).formats() == old(messenger).formats(),
        final(messenger).never_fails() == old(messenger).never_fails(),
        final(store).never_fails() == old(store).never_fails(),
        final(store).obeys_model() == old(store).obeys_model(),
        old(store).obeys_model() && old(store).never_fails() ==> final(store).stored().remove(keys::REPLY_MAP@) == old(store).stored().remove(
            keys::REPLY_MAP@,
        ),
        old(store).obeys_model() && !(spec_load_bool(old(store).stored(), keys::FWD_ENABLED@) == Some(false) || spec_is_blocked(
            old(store).stored(),
            sms.sender@,
        )) && old(messenger).never_fails() ==> r is Some,
        old(messenger).obeys_model() && r is Some ==> final(messenger).delivered() == old(messenger).delivered().push(spec_forward_text(sms)),
        old(messenger).obeys_model() && r is Some ==> final(messenger).formats() == old(messenger).formats().push(MessageFormat::Html),
        final(messenger).obeys_model() == old(messenger).obeys_model(),
        r matches Some(id) ==> final(router).view_slots() == spec_put(
            old(router).view_slots(),
            id,
            encode_utf8(sms.sender@),
        ),
        r is None ==> final(router).view_slots() == old(router).view_slots(),
        final(log).never_fails() == old(log).never_fails(),
        final(log).slot_count() == old(log).slot_count(),
        old(store).obeys_model() && (spec_load_bool(old(store).stored(), keys::FWD_ENABLED@) == Some(false) || spec_is_blocked(
            old(store).stored(),
            sms.sender@,
        )) ==> logged_once(*old(log), *final(log), sms_log_entry(sms, log_timestamp@, false)),
        r is Some ==> logged_once(*old(log), *final(log), sms_log_entry(sms, log_timestamp@, true)),
        old(store).obeys_model() && !(spec_load_bool(old(store).stored(), keys::FWD_ENABLED@) == Some(false) || spec_is_blocked(
            old(store).stored(),
            sms.sender@,
        )) && r is None ==> exists|mid: LogRing, detail: Seq<char>|
            #![trigger logged_once(*old(log), mid, sms_log_entry(sms, log_timestamp@, false)), send_failure_entry(log_timestamp@, detail)]
            {
                &&& logged_once(*old(log), mid, sms_log_entry(sms, log_timestamp@, false))
                &&& mid.never_fails() == old(log).never_fails()
                &&& logged_once(mid, *final(log), send_failure_entry(log_timestamp@, detail))
            },
{
    if load_bool(store, keys::FWD_ENABLED) == Some(false) {
        log.push(LogEntry::sms(sms.sender.clone(), sms_log_preview(sms), to_owned_string(log_timestamp), false));
        return None;
    }
    if is_blocked(sms.sender.as_str(), store) {
        log.push(LogEntry::sms(sms.sender.clone(), sms_log_preview(sms), to_owned_string(log_timestamp), false));
        return None;
    }
    let text = forward_text(sms);
    match messenger.send_message_with_format(text.as_str(), MessageFormat::Html) {
        Ok(msg_id) => {
            let ghost st0 = store.stored();
            router.put(msg_id, sms.sender.as_str(), store);
            proof {
                if old(store).never_fails() && old(store).obeys_model() {
                    assert(store.stored().remove(keys::REPLY_MAP@) =~= st0.remove(keys::REPLY_MAP@));
                }
            }
            log.push(LogEntry::sms(sms.sender.clone(), sms_log_preview(sms), to_owned_string(log_timestamp), true));
            Some(msg_id)
        },
        Err(e) => {
            log.push(LogEntry::sms(sms.sender.clone(), sms_log_preview(sms), to_owned_string(log_timestamp), false));
            let ghost mid = *log;
            let message = e.message();
            let mut detail = new_string();
            push_str(&mut detail, "send failed: ");
            push_str(&mut detail, message.as_str());
            log.push(LogEvent::network("telegram", detail.as_str(), false).at(log_timestamp));
            proof {
                reveal_strlit("telegram");
                assert(logged_once(*old(log), mid, sms_log_entry(sms, log_timestamp@, false)));
                assert(send_failure_entry(log_timestamp@, message@).body_preview == detail@);
                assert(logged_once(mid, *log, send_failure_entry(log_timestamp@, message@)));
            }
            None
        },
    }
}

/// A normalized number holds only `+` and digits.
pub proof fn lemma_normalized_phone_chars(s: Seq<char>)
    ensures
        forall|i: int| 0 <= i < spec_normalize_phone(s).len() ==> #[trigger] is_phone_char(spec_normalize_phone(s)[i]),
{
    lemma_phone_chars_kept(s);
    let f = phone_chars(s);
    let n = spec_normalize_phone(s);
    assert forall|i: int| 0 <= i < n.len() implies #[trigger] is_phone_char(n[i]) by {
        if f.len() >= 2 && f[0] == '0' && f[1] == '0' {
            if i > 0 {
                assert(n[i] == f[i + 1]);
                assert(is_phone_char(f[i + 1]));
            }
        } else {
            assert(is_phone_char(f[i]));
        }
    }
}

/// The normalized form of a number is its own normal form.
pub proof fn lemma_normalize_idempotent(s: Seq<char>)
    ensures
        spec_normalize_phone(spec_normalize_phone(s)) == spec_normalize_phone(s),
{
    lemma_normalized_phone_chars(s);
    let f = phone_chars(s);
    let n = spec_normalize_phone(s);
    lemma_phone_chars_kept(s);
    lemma_phone_chars_fixed(n);
    if f.len() >= 2 && f[0] == '0' && f[1] == '0' {
        assert(n[0] == '+');
    }
}

/// The characters a phone number keeps.
pub open spec fn is_phone_char(c: char) -> bool {
    c == '+' || is_ascii_digit(c)
}

proof fn lemma_phone_chars_kept(s: Seq<char>)
    ensures
        forall|i: int| 0 <= i < phone_chars(s).len() ==> is_phone_char(#[trigger] phone_chars(s)[i]),
    decreases s.len(),
{
    if s.len() > 0 {
        let d = s.drop_last();
        lemma_phone_chars_kept(d);
        assert forall|i: int| 0 <= i < phone_chars(s).len() implies is_phone_char(#[trigger] phone_chars(s)[i]) by {
            if i < phone_chars(d).len() {
                assert(phone_chars(s)[i] == phone_chars(d)[i]);
            }
        }
    }
}

proof fn lemma_phone_chars_fixed(s: Seq<char>)
    requires
        forall|i: int| 0 <= i < s.len() ==> is_phone_char(#[trigger] s[i]),
    ensures
        phone_chars(s) == s,
    decreases s.len(),
{
    if s.len() > 0 {
        assert(s.last() == s[s.len() - 1]);
        lemma_phone_chars_fixed(s.drop_last());
        assert(s.drop_last().push(s.last()) =~= s);
    }
}

/// Whether `p` is a trailing part of `s` (possibly all of it).
pub open spec fn is_suffix(p: Seq<char>, s: Seq<char>) -> bool {
    p.len() <= s.len() && s.subrange(s.len() - p.len(), s.len() as int) == p
}

/// A sender is blocked exactly when, after normalizing both, some block-list entry ends
/// with the sender's number or the sender's number ends with the entry: a number stored
/// in international form also blocks the same number sent in national form, and the
/// other way round.
pub proof fn lemma_blocked_by_suffix(stored: Map<Seq<char>, Seq<u8>>, phone: Seq<char>)
    ensures
        spec_is_blocked(stored, phone) <==> exists|i: int|
            0 <= i < spec_blocklist(stored).len() && (is_suffix(
                spec_normalize_phone(phone),
                spec_normalize_phone(#[trigger] spec_blocklist(stored)[i]),
            ) || is_suffix(spec_normalize_phone(spec_blocklist(stored)[i]), spec_normalize_phone(phone))),
{
    let l = spec_blocklist(stored);
    let n = spec_normalize_phone(phone);
    assert forall|i: int| 0 <= i < l.len() implies (entry_matches(#[trigger] l[i], n) <==> (is_suffix(
        n,
        spec_normalize_phone(l[i]),
    ) || is_suffix(spec_normalize_phone(l[i]), n))) by {
        let nb = spec_normalize_phone(l[i]);
        assert(nb.skip(nb.len() - n.len()) =~= nb.subrange(nb.len() - n.len(), nb.len() as int));
        assert(n.skip(n.len() - nb.len()) =~= n.subrange(n.len() - nb.len(), n.len() as int));
        if nb == n {
            assert(n.subrange(0, n.len() as int) =~= n);
        }
    }
}

} // verus!
