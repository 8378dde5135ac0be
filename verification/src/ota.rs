//! OTA (Over-The-Air) firmware update support: the checks and messages around an
//! update. Downloading and flashing happen on the device, over ESP-IDF.

use crate::i18n::en::ota_wifi_required;
use crate::im::{InboundMessage, MessageId, MessageSink};
use crate::log_ring::{appended_contents, encode_payload_ok, entry_within_limits, LogEvent, LogKind, LogRing, SpecLogEntry};
use crate::sms::codec::{hex_digit_lower, hex_digit_lower_exec};
use crate::strutil::{
    chars_eq, is_white_space, is_white_space_exec, leading_ws, lemma_leading_ws_range, new_string,
    push_char, push_decimal, push_str, spec_decimal, str_to_chars, find_char_from, find_char_at,
    lemma_find_char_range,
};
use crate::commands::{first_ws_from, before_at};
use vstd::prelude::*;

verus! {

/// Errors of an update.
#[derive(Debug)]
pub enum OtaError {
    MissingFilePath,
    ImageTooLarge { size: usize, slot_size: usize },
    FileSizeTooLarge(u64),
    Http(String),
    Flash(String),
}

impl OtaError {
    /// The text shown for the error.
    pub fn message(&self) -> (r: String)
        ensures
            r@ == (match self {
                OtaError::MissingFilePath => "Telegram file has no download path"@,
                OtaError::ImageTooLarge { size, slot_size } => "file size "@ + spec_decimal(*size as nat)
                    + " exceeds OTA slot size "@ + spec_decimal(*slot_size as nat),
                OtaError::FileSizeTooLarge(n) => "file size is too large for this platform: "@ + spec_decimal(
                    *n as nat,
                ),
                OtaError::Http(e) => "HTTP: "@ + e@,
                OtaError::Flash(e) => "Flash: "@ + e@,
            }),
    {
        let mut out = new_string();
        match self {
            OtaError::MissingFilePath => push_str(&mut out, "Telegram file has no download path"),
            OtaError::ImageTooLarge { size, slot_size } => {
                push_str(&mut out, "file size ");
                push_decimal(&mut out, *size as u64);
                push_str(&mut out, " exceeds OTA slot size ");
                push_decimal(&mut out, *slot_size as u64);
            },
            OtaError::FileSizeTooLarge(n) => {
                push_str(&mut out, "file size is too large for this platform: ");
                push_decimal(&mut out, *n);
            },
            OtaError::Http(e) => {
                push_str(&mut out, "HTTP: ");
                push_str(&mut out, e.as_str());
            },
            OtaError::Flash(e) => {
                push_str(&mut out, "Flash: ");
                push_str(&mut out, e.as_str());
            },
        }
        out
    }
}

/// What is known of the running firmware slot.
#[derive(Debug, Clone, PartialEq, Eq)]
pub struct RunningSlotSummary<'a> {
    pub slot_label: &'a str,
    pub slot_state: &'a str,
    pub partition_label: &'a str,
    pub partition_address: u32,
    pub partition_size: u32,
    pub firmware_version: &'a str,
    pub firmware_released: &'a str,
    pub build_commit: &'a str,
}

/// Lower-case hexadecimal representation, most significant digit first.
pub open spec fn spec_hex(n: nat) -> Seq<char>
    decreases n,
{
    if n < 16 {
        seq![hex_digit_lower(n as u8)]
    } else {
        spec_hex(n / 16) + seq![hex_digit_lower((n % 16) as u8)]
    }
}

fn push_hex(out: &mut String, n: u32)
    ensures
        final(out)@ == old(out)@ + spec_hex(n as nat),
    decreases n,
{
    if n < 16 {
        push_char(out, hex_digit_lower_exec(n as u8));
    } else {
        push_hex(out, n / 16);
        push_char(out, hex_digit_lower_exec((n % 16) as u8));
    }
}

/// One line describing the running slot.
pub open spec fn spec_running_slot_summary(s: RunningSlotSummary) -> Seq<char> {
    "running slot="@ + s.slot_label@ + " state="@ + s.slot_state@ + " partition="@ + s.partition_label@
        + " offset=0x"@ + spec_hex(s.partition_address as nat) + " size="@ + spec_decimal(s.partition_size as nat)
        + " version="@ + s.firmware_version@ + " released="@ + s.firmware_released@ + " build="@ + s.build_commit@
}

/// Describes the running slot in one line.
pub fn format_running_slot_summary(summary: &RunningSlotSummary<'_>) -> (r: String)
    ensures
        r@ == spec_running_slot_summary(*summary),
{
    let mut out = new_string();
    push_str(&mut out, "running slot=");
    push_str(&mut out, summary.slot_label);
    push_str(&mut out, " state=");
    push_str(&mut out, summary.slot_state);
    push_str(&mut out, " partition=");
    push_str(&mut out, summary.partition_label);
    push_str(&mut out, " offset=0x");
    push_hex(&mut out, summary.partition_address);
    push_str(&mut out, " size=");
    push_decimal(&mut out, summary.partition_size as u64);
    push_str(&mut out, " version=");
    push_str(&mut out, summary.firmware_version);
    push_str(&mut out, " released=");
    push_str(&mut out, summary.firmware_released);
    push_str(&mut out, " build=");
    push_str(&mut out, summary.build_commit);
    out
}

/// The start-up line: version and build.
pub fn format_starting_message(firmware_version: &str, build_commit: &str) -> (r: String)
    ensures
        r@ == "smsgate starting… version="@ + firmware_version@ + " build="@ + build_commit@,
{
    let mut out = new_string();
    push_str(&mut out, "smsgate starting… version=");
    push_str(&mut out, firmware_version);
    push_str(&mut out, " build=");
    push_str(&mut out, build_commit);
    out
}

/// The first white-space-separated word of a text, if any.
pub open spec fn first_word(s: Seq<char>) -> Option<Seq<char>> {
    let t = s.skip(leading_ws(s, 0));
    if t.len() == 0 {
        None
    } else {
        let i = first_ws_from(t, 0);
        Some(if i < 0 { t } else { t.take(i) })
    }
}

/// A caption asks for an update when its first word is `/ota`, possibly addressed to a
/// bot (`/ota@bot`).
pub open spec fn spec_is_ota_caption(caption: Seq<char>) -> bool {
    match first_word(caption) {
        Some(w) => w.len() > 0 && w[0] == '/' && before_at(w.skip(1)) == "ota"@,
        None => false,
    }
}

/// Returns true when a Telegram document caption requests OTA.
pub fn is_ota_caption(caption: &str) -> (r: bool)
    ensures
        r == spec_is_ota_caption(caption@),
{
    let cs = str_to_chars(caption);
    let mut a: usize = 0;
    while a < cs.len() && is_white_space_exec(cs[a])
        invariant
            a <= cs@.len(),
            leading_ws(cs@, 0) == a + leading_ws(cs@, a as int),
        decreases cs@.len() - a,
    {
        a = a + 1;
    }
    let t = vstd::slice::slice_subrange(cs.as_slice(), a, cs.len());
    assert(t@ =~= caption@.skip(leading_ws(caption@, 0)));
    if t.len() == 0 {
        return false;
    }
    let mut k: usize = 0;
    while k < t.len() && !is_white_space_exec(t[k])
        invariant
            k <= t@.len(),
            first_ws_from(t@, 0) == first_ws_from(t@, k as int),
        decreases t@.len() - k,
    {
        k = k + 1;
    }
    let w = vstd::slice::slice_subrange(t, 0, k);
    proof {
        if k < t@.len() {
            assert(w@ =~= t@.take(k as int));
        } else {
            assert(w@ =~= t@);
        }
    }
    if w[0] != '/' {
        return false;
    }
    let rest = vstd::slice::slice_subrange(w, 1, w.len());
    assert(rest@ =~= w@.skip(1));
    let cmd = match find_char_at(rest, '@', 0) {
        Some(j) => {
            proof {
                lemma_find_char_range(rest@, '@', 0);
            }
            vstd::slice::slice_subrange(rest, 0, j)
        },
        None => rest,
    };
    proof {
        lemma_find_char_range(rest@, '@', 0);
        if find_char_from(rest@, '@', 0) >= 0 {
            assert(cmd@ =~= before_at(rest@));
        }
    }
    let ota = ['o', 't', 'a'];
    proof {
        reveal_strlit("ota");
        assert(ota@ =~= "ota"@);
    }
    chars_eq(cmd, ota.as_slice())
}

/// Whether a message carries an update request: a document captioned `/ota`.
pub open spec fn is_ota_request(m: InboundMessage) -> bool {
    m.document is Some && spec_is_ota_caption(m.text@)
}

/// Return the newest valid OTA document cursor in a Telegram batch.
///
/// A batch may contain stale firmware files from earlier attempts. Only the
/// newest `/ota` document should be flashed; older ones are considered
/// acknowledged by the persisted cursor and must be ignored.
pub fn latest_ota_document_cursor(messages: &[InboundMessage]) -> (r: Option<i64>)
    ensures
        r is None <==> forall|i: int| 0 <= i < messages@.len() ==> !is_ota_request(#[trigger] messages@[i]),
        r matches Some(c) ==> (exists|i: int| 0 <= i < messages@.len() && is_ota_request(#[trigger] messages@[i])
            && messages@[i].cursor == c) && (forall|i: int| 0 <= i < messages@.len() && is_ota_request(
            #[trigger] messages@[i]) ==> messages@[i].cursor <= c),
{
    let mut best: Option<i64> = None;
    let mut i: usize = 0;
    while i < messages.len()
        invariant
            i <= messages@.len(),
            best is None <==> forall|k: int| 0 <= k < i ==> !is_ota_request(#[trigger] messages@[k]),
            best matches Some(c) ==> (exists|k: int| 0 <= k < i && is_ota_request(#[trigger] messages@[k])
                && messages@[k].cursor == c) && (forall|k: int| 0 <= k < i && is_ota_request(#[trigger] messages@[k])
                ==> messages@[k].cursor <= c),
        decreases messages@.len() - i,
    {
        let m = &messages[i];
        if m.document.is_some() && is_ota_caption(m.text.as_str()) {
            assert(is_ota_request(messages@[i as int]));
            best = match best {
                Some(c) => if m.cursor > c { Some(m.cursor) } else { Some(c) },
                None => Some(m.cursor),
            };
        }
        i = i + 1;
    }
    best
}

/// The image size an update expects: the document's size, else the size the file API
/// reported; an error when it does not fit in a `usize`.
pub fn expected_image_size(document_size: Option<u64>, api_size: Option<u64>) -> (r: Result<Option<usize>, OtaError>)
    ensures
        ({
            let s = if document_size is Some { document_size } else { api_size };
            match s {
                None => r == Ok::<Option<usize>, OtaError>(None),
                Some(n) => if n <= usize::MAX {
                    r == Ok::<Option<usize>, OtaError>(Some(n as usize))
                } else {
                    r matches Err(OtaError::FileSizeTooLarge(m)) && m == n
                },
            }
        }),
{
    let s = match document_size {
        Some(n) => Some(n),
        None => api_size,
    };
    match s {
        None => Ok(None),
        Some(n) => {
            if n <= usize::MAX as u64 {
                Ok(Some(n as usize))
            } else {
                Err(OtaError::FileSizeTooLarge(n))
            }
        },
    }
}

/// An image larger than the update slot is refused before anything is written.
pub fn check_image_fits(expected_size: Option<usize>, slot_size: usize) -> (r: Result<(), OtaError>)
    ensures
        match expected_size {
            Some(size) => if size > slot_size {
                r matches Err(OtaError::ImageTooLarge { size: s, slot_size: t }) && s == size && t == slot_size
            } else {
                r is Ok
            },
            None => r is Ok,
        },
{
    match expected_size {
        Some(size) => {
            if size > slot_size {
                Err(OtaError::ImageTooLarge { size, slot_size })
            } else {
                Ok(())
            }
        },
        None => Ok(()),
    }
}

/// A download that stopped short of the expected size is an error.
pub fn check_image_complete(written: usize, expected_size: Option<usize>) -> (r: Result<(), OtaError>)
    ensures
        match expected_size {
            Some(size) => if written != size {
                r matches Err(OtaError::Http(m)) && m@ == "incomplete: got "@ + spec_decimal(written as nat)
                    + " of "@ + spec_decimal(size as nat) + " bytes"@
            } else {
                r is Ok
            },
            None => r is Ok,
        },
{
    match expected_size {
        Some(size) => {
            if written != size {
                let mut m = new_string();
                push_str(&mut m, "incomplete: got ");
                push_decimal(&mut m, written as u64);
                push_str(&mut m, " of ");
                push_decimal(&mut m, size as u64);
                push_str(&mut m, " bytes");
                Err(OtaError::Http(m))
            } else {
                Ok(())
            }
        },
        None => Ok(()),
    }
}

/// Bytes between progress reports (128 KiB).
pub const OTA_PROGRESS_STEP_BYTES: usize = 131072;

/// Whether a progress report is due: the image is complete, or another step has been
/// written since the last report.
pub fn ota_progress_due(written: usize, total: Option<usize>, last_reported: usize) -> (r: bool)
    ensures
        r == ((total matches Some(t) && written >= t) || (written >= last_reported && written - last_reported
            >= OTA_PROGRESS_STEP_BYTES)),
{
    let complete = match total {
        Some(t) => written >= t,
        None => false,
    };
    let since = if written >= last_reported { written - last_reported } else { 0 };
    complete || since >= OTA_PROGRESS_STEP_BYTES
}


/// What to do with a document sent to the bot.
#[derive(Debug, Clone, Copy, PartialEq, Eq, Structural)]
pub enum OtaGate {
    /// The caption does not ask for an update.
    Ignore,
    /// An update was asked for over cellular data, where none is downloaded.
    Rejected,
    /// An update was asked for over WiFi: go on with it.
    Proceed,
}

/// The refusal sent when an update is asked for over cellular data.
pub open spec fn ota_wifi_required_text() -> Seq<char> {
    "OTA requires WiFi. Cellular fallback mode cannot download firmware."@
}

/// The log entry written when an update is refused over cellular data.
pub open spec fn ota_rejected_entry(ts: Seq<char>) -> SpecLogEntry {
    SpecLogEntry {
        kind: LogKind::Ota,
        sender: "telegram"@,
        body_preview: "OTA rejected on cellular transport"@,
        timestamp: ts,
        forwarded: false,
    }
}

/// Decides on a document sent to the bot: no `/ota` caption is ignored; over cellular
/// data the update is refused, with a message and one log entry; else it may proceed.
pub fn ota_gate<K: MessageSink + ?Sized>(
    caption: &str,
    using_cellular: bool,
    messenger: &mut K,
    log: &mut LogRing,
    ts: &str,
) -> (r: OtaGate)
    requires
        old(log).wf(),
    ensures
        final(log).wf(),
        final(log).slot_count() == old(log).slot_count(),
        final(messenger).never_fails() == old(messenger).never_fails(),
        final(messenger).obeys_model() == old(messenger).obeys_model(),
        final(log).never_fails() == old(log).never_fails(),
        !spec_is_ota_caption(caption@) ==> r == OtaGate::Ignore && final(messenger).delivered() == old(
            messenger,
        ).delivered() && *final(log) == *old(log),
        spec_is_ota_caption(caption@) && !using_cellular ==> r == OtaGate::Proceed && final(messenger).delivered()
            == old(messenger).delivered() && *final(log) == *old(log),
        spec_is_ota_caption(caption@) && using_cellular ==> {
            &&& r == OtaGate::Rejected
            &&& old(messenger).obeys_model() ==> final(messenger).delivered() == old(messenger).delivered() || final(messenger).delivered() == old(
                messenger,
            ).delivered().push(ota_wifi_required_text())
            &&& old(messenger).obeys_model() && old(messenger).never_fails() ==> final(messenger).delivered() == old(messenger).delivered().push(
                ota_wifi_required_text(),
            )
            &&& old(log).never_fails() && entry_within_limits(ota_rejected_entry(ts@)) && encode_payload_ok(
                ota_rejected_entry(ts@),
            ) ==> final(log).flash() == appended_contents(
                old(log).flash(),
                old(log).next_slot_value(),
                old(log).slots_per_erase_unit(),
                old(log).next_seq_value(),
                ota_rejected_entry(ts@),
            )
        },
{
    if !is_ota_caption(caption) {
        return OtaGate::Ignore;
    }
    if !using_cellular {
        return OtaGate::Proceed;
    }
    let _ = messenger.send_message(ota_wifi_required());
    let entry = LogEvent::ota("telegram", "OTA rejected on cellular transport", false).at(ts);
    log.push(entry);
    OtaGate::Rejected
}

/// Reports an OTA stage to the chat: edits the progress message when there is one,
/// else sends the text as a new message. Returns whether the messenger accepted it.
pub fn ota_notify<K: MessageSink + ?Sized>(messenger: &mut K, progress_id: Option<MessageId>, text: &str) -> (r: bool)
    ensures
        final(messenger).obeys_model() == old(messenger).obeys_model(),
        final(messenger).never_fails() == old(messenger).never_fails(),
        progress_id is None && old(messenger).obeys_model() ==> if r {
            final(messenger).delivered() == old(messenger).delivered().push(text@)
        } else {
            final(messenger).delivered() == old(messenger).delivered()
        },
        progress_id is None && old(messenger).never_fails() ==> r,
{
    match progress_id {
        Some(id) => messenger.edit_message(id, text).is_ok(),
        None => messenger.send_message(text).is_ok(),
    }
}

} // verus!
