//! English UI strings.

use crate::strutil::{
    new_string, push_decimal, push_decimal_pad2, push_str, spec_decimal, spec_decimal_pad2,
};
use vstd::prelude::*;

verus! {

/// Start-up announcement.
pub fn started() -> (r: &'static str)
    ensures
        r@ == "✅ smsgate started"@,
{
    "✅ smsgate started"
}

/// Warning sent when persistent storage could not be opened.
pub fn nvs_fail() -> (r: &'static str)
    ensures
        r@ == "⚠️ NVS init failed — running without persistence. Block list and cursor will reset on reboot."@,
{
    "⚠️ NVS init failed — running without persistence. Block list and cursor will reset on reboot."
}

/// Announcement before a reboot.
pub fn rebooting() -> (r: &'static str)
    ensures
        r@ == "♻️ Rebooting now…"@,
{
    "♻️ Rebooting now…"
}

/// Low free-heap warning.
pub fn low_heap(free_bytes: u32) -> (r: String)
    ensures
        r@ == "⚠️ Low heap: "@ + spec_decimal(free_bytes as nat) + " bytes"@,
{
    let mut out = new_string();
    push_str(&mut out, "⚠️ Low heap: ");
    push_decimal(&mut out, free_bytes as u64);
    push_str(&mut out, " bytes");
    assert(out@ =~= "⚠️ Low heap: "@ + spec_decimal(free_bytes as nat) + " bytes"@);
    out
}

/// Confirmation of a delivered outbound SMS.
pub fn sms_sent_ok(phone: &str) -> (r: String)
    ensures
        r@ == "✅ SMS sent to "@ + phone@,
{
    let mut out = new_string();
    push_str(&mut out, "✅ SMS sent to ");
    push_str(&mut out, phone);
    assert(out@ =~= "✅ SMS sent to "@ + phone@);
    out
}

/// Report of an outbound SMS that gave up.
pub fn sms_failed(phone: &str) -> (r: String)
    ensures
        r@ == "❌ SMS to "@ + phone@ + " failed (max retries)"@,
{
    let mut out = new_string();
    push_str(&mut out, "❌ SMS to ");
    push_str(&mut out, phone);
    push_str(&mut out, " failed (max retries)");
    assert(out@ =~= "❌ SMS to "@ + phone@ + " failed (max retries)"@);
    out
}

/// Watchdog warning for a stalled polling thread.
pub fn poll_thread_stale(mins: u32) -> (r: String)
    ensures
        r@ == "⚠️ Telegram polling thread unresponsive for "@ + spec_decimal(mins as nat) + " min"@,
{
    let mut out = new_string();
    push_str(&mut out, "⚠️ Telegram polling thread unresponsive for ");
    push_decimal(&mut out, mins as u64);
    push_str(&mut out, " min");
    assert(out@ =~= "⚠️ Telegram polling thread unresponsive for "@ + spec_decimal(mins as nat) + " min"@);
    out
}

/// Weak-signal warning.
pub fn low_signal(csq: u8) -> (r: String)
    ensures
        r@ == "⚠️ Weak cellular signal (CSQ "@ + spec_decimal(csq as nat) + ")"@,
{
    let mut out = new_string();
    push_str(&mut out, "⚠️ Weak cellular signal (CSQ ");
    push_decimal(&mut out, csq as u64);
    push_str(&mut out, ")");
    assert(out@ =~= "⚠️ Weak cellular signal (CSQ "@ + spec_decimal(csq as nat) + ")"@);
    out
}

/// Signal recovered notice.
pub fn signal_restored(csq: u8) -> (r: String)
    ensures
        r@ == "✅ Cellular signal restored (CSQ "@ + spec_decimal(csq as nat) + ")"@,
{
    let mut out = new_string();
    push_str(&mut out, "✅ Cellular signal restored (CSQ ");
    push_decimal(&mut out, csq as u64);
    push_str(&mut out, ")");
    assert(out@ =~= "✅ Cellular signal restored (CSQ "@ + spec_decimal(csq as nat) + ")"@);
    out
}

/// Network operator change notice.
pub fn operator_changed(old: &str, new: &str) -> (r: String)
    ensures
        r@ == "⚠️ Operator changed: "@ + old@ + " → "@ + new@,
{
    let mut out = new_string();
    push_str(&mut out, "⚠️ Operator changed: ");
    push_str(&mut out, old);
    push_str(&mut out, " → ");
    push_str(&mut out, new);
    assert(out@ =~= "⚠️ Operator changed: "@ + old@ + " → "@ + new@);
    out
}

/// Refusal of an update without WiFi.
pub fn ota_wifi_required() -> (r: &'static str)
    ensures
        r@ == "OTA requires WiFi. Cellular fallback mode cannot download firmware."@,
{
    "OTA requires WiFi. Cellular fallback mode cannot download firmware."
}

/// Update written; reboot follows.
pub fn ota_complete() -> (r: &'static str)
    ensures
        r@ == "✅ OTA flashed. Rebooting into new firmware."@,
{
    "✅ OTA flashed. Rebooting into new firmware."
}

/// Update failure report.
pub fn ota_failed(error: &str) -> (r: String)
    ensures
        r@ == "❌ OTA failed: "@ + error@,
{
    let mut out = new_string();
    push_str(&mut out, "❌ OTA failed: ");
    push_str(&mut out, error);
    assert(out@ =~= "❌ OTA failed: "@ + error@);
    out
}

/// Notice for an update file superseded by a newer one.
pub fn ota_ignored_stale(name: &str) -> (r: String)
    ensures
        r@ == "Ignored older OTA file: "@ + name@ + ". The newest OTA file in this batch will be used."@,
{
    let mut out = new_string();
    push_str(&mut out, "Ignored older OTA file: ");
    push_str(&mut out, name);
    push_str(&mut out, ". The newest OTA file in this batch will be used.");
    assert(out@ =~= "Ignored older OTA file: "@ + name@ + ". The newest OTA file in this batch will be used."@);
    out
}

/// Forwarded SMS text.
pub fn sms_received(sender: &str, ts: &str, body: &str) -> (r: String)
    ensures
        r@ == "📱 SMS from "@ + sender@ + "\n🕐 "@ + ts@ + "\n\n"@ + body@,
{
    let mut out = new_string();
    push_str(&mut out, "📱 SMS from ");
    push_str(&mut out, sender);
    push_str(&mut out, "\n🕐 ");
    push_str(&mut out, ts);
    push_str(&mut out, "\n\n");
    push_str(&mut out, body);
    assert(out@ =~= "📱 SMS from "@ + sender@ + "\n🕐 "@ + ts@ + "\n\n"@ + body@);
    out
}

/// Incoming call notice.
pub fn incoming_call(display: &str) -> (r: String)
    ensures
        r@ == "📞 Incoming call from "@ + display@,
{
    let mut out = new_string();
    push_str(&mut out, "📞 Incoming call from ");
    push_str(&mut out, display);
    assert(out@ =~= "📞 Incoming call from "@ + display@);
    out
}

/// Operator name when none is known.
pub fn status_op_unknown() -> (r: &'static str)
    ensures
        r@ == "unknown"@,
{
    "unknown"
}

/// Registration state: registered.
pub fn status_reg_ok() -> (r: &'static str)
    ensures
        r@ == "registered"@,
{
    "registered"
}

/// Registration state: not registered.
pub fn status_reg_no() -> (r: &'static str)
    ensures
        r@ == "not registered"@,
{
    "not registered"
}

/// Forwarding state: on.
pub fn status_fwd_on() -> (r: &'static str)
    ensures
        r@ == "enabled"@,
{
    "enabled"
}

/// Forwarding state: paused.
pub fn status_fwd_off() -> (r: &'static str)
    ensures
        r@ == "PAUSED"@,
{
    "PAUSED"
}

/// Build identification line.
pub fn status_build(commit: &str) -> (r: String)
    ensures
        r@ == "🔖 Build: "@ + commit@,
{
    let mut out = new_string();
    push_str(&mut out, "🔖 Build: ");
    push_str(&mut out, commit);
    assert(out@ =~= "🔖 Build: "@ + commit@);
    out
}

/// Usage of /send.
pub fn send_usage() -> (r: &'static str)
    ensures
        r@ == "Usage: /send <number> <message text>"@,
{
    "Usage: /send <number> <message text>"
}

/// Rejection of a malformed number.
pub fn send_invalid_number() -> (r: &'static str)
    ensures
        r@ == "Invalid phone number"@,
{
    "Invalid phone number"
}

/// Rejection of an empty message.
pub fn send_empty_body() -> (r: &'static str)
    ensures
        r@ == "Message body is empty"@,
{
    "Message body is empty"
}

/// Rejection of an over-long message.
pub fn send_too_long() -> (r: &'static str)
    ensures
        r@ == "Message too long (> 10 SMS parts)"@,
{
    "Message too long (> 10 SMS parts)"
}

/// Confirmation that a message was queued.
pub fn send_queued(phone: &str, preview: &str, parts: usize) -> (r: String)
    ensures
        r@ == "Queued: "@ + phone@ + " → \""@ + preview@ + "…\" ("@ + spec_decimal(parts as nat) + " part(s))"@,
{
    let mut out = new_string();
    push_str(&mut out, "Queued: ");
    push_str(&mut out, phone);
    push_str(&mut out, " → \"");
    push_str(&mut out, preview);
    push_str(&mut out, "…\" (");
    push_decimal(&mut out, parts as u64);
    push_str(&mut out, " part(s))");
    assert(out@ =~= "Queued: "@ + phone@ + " → \""@ + preview@ + "…\" ("@ + spec_decimal(parts as nat) + " part(s))"@);
    out
}

/// Rate-limit refusal.
pub fn send_rate_limited() -> (r: &'static str)
    ensures
        r@ == "Rate limit: at most 5 /send commands per minute."@,
{
    "Rate limit: at most 5 /send commands per minute."
}

/// Empty log notice.
pub fn log_empty() -> (r: &'static str)
    ensures
        r@ == "No SMS history."@,
{
    "No SMS history."
}

/// Header of a log page.
pub fn log_header(page_len: usize, total: usize, offset: usize, _page_size: usize) -> (r: String)
    ensures
        r@ == "Log page: "@ + spec_decimal(page_len as nat) + " entries, total "@ + spec_decimal(total as nat) + ", offset "@ + spec_decimal(offset as nat) + ".\n"@,
{
    let mut out = new_string();
    push_str(&mut out, "Log page: ");
    push_decimal(&mut out, page_len as u64);
    push_str(&mut out, " entries, total ");
    push_decimal(&mut out, total as u64);
    push_str(&mut out, ", offset ");
    push_decimal(&mut out, offset as u64);
    push_str(&mut out, ".\n");
    assert(out@ =~= "Log page: "@ + spec_decimal(page_len as nat) + " entries, total "@ + spec_decimal(total as nat) + ", offset "@ + spec_decimal(offset as nat) + ".\n"@);
    out
}

/// Log read failure.
pub fn log_read_failed(error: &str) -> (r: String)
    ensures
        r@ == "Log read failed: "@ + error@,
{
    let mut out = new_string();
    push_str(&mut out, "Log read failed: ");
    push_str(&mut out, error);
    assert(out@ =~= "Log read failed: "@ + error@);
    out
}

/// Label of the newer-page button.
pub fn log_button_newer() -> (r: &'static str)
    ensures
        r@ == "Newer"@,
{
    "Newer"
}

/// Label of the older-page button.
pub fn log_button_older() -> (r: &'static str)
    ensures
        r@ == "Older"@,
{
    "Older"
}

/// Usage of /block.
pub fn block_usage() -> (r: &'static str)
    ensures
        r@ == "Usage: /block <number>"@,
{
    "Usage: /block <number>"
}

/// Confirmation of a block.
pub fn block_ok(phone: &str) -> (r: String)
    ensures
        r@ == "Blocked: "@ + phone@,
{
    let mut out = new_string();
    push_str(&mut out, "Blocked: ");
    push_str(&mut out, phone);
    assert(out@ =~= "Blocked: "@ + phone@);
    out
}

/// Empty block list notice.
pub fn blocklist_empty() -> (r: &'static str)
    ensures
        r@ == "Block list is empty."@,
{
    "Block list is empty."
}

/// Header of the block list.
pub fn blocklist_header(n: usize) -> (r: String)
    ensures
        r@ == "Blocked numbers ("@ + spec_decimal(n as nat) + "):\n"@,
{
    let mut out = new_string();
    push_str(&mut out, "Blocked numbers (");
    push_decimal(&mut out, n as u64);
    push_str(&mut out, "):\n");
    assert(out@ =~= "Blocked numbers ("@ + spec_decimal(n as nat) + "):\n"@);
    out
}

/// Usage of /unblock.
pub fn unblock_usage() -> (r: &'static str)
    ensures
        r@ == "Usage: /unblock <number>"@,
{
    "Usage: /unblock <number>"
}

/// Unblock of a number that is not blocked.
pub fn unblock_not_found(phone: &str) -> (r: String)
    ensures
        r@ == phone@ + " is not in the block list."@,
{
    let mut out = new_string();
    push_str(&mut out, phone);
    push_str(&mut out, " is not in the block list.");
    assert(out@ =~= phone@ + " is not in the block list."@);
    out
}

/// Confirmation of an unblock.
pub fn unblock_ok(phone: &str) -> (r: String)
    ensures
        r@ == "Unblocked: "@ + phone@,
{
    let mut out = new_string();
    push_str(&mut out, "Unblocked: ");
    push_str(&mut out, phone);
    assert(out@ =~= "Unblocked: "@ + phone@);
    out
}

/// Confirmation of a pause.
pub fn pause_ok(mins: u32) -> (r: String)
    ensures
        r@ == "Forwarding paused for "@ + spec_decimal(mins as nat) + " min."@,
{
    let mut out = new_string();
    push_str(&mut out, "Forwarding paused for ");
    push_decimal(&mut out, mins as u64);
    push_str(&mut out, " min.");
    assert(out@ =~= "Forwarding paused for "@ + spec_decimal(mins as nat) + " min."@);
    out
}

/// Resume while not paused.
pub fn resume_already_active() -> (r: &'static str)
    ensures
        r@ == "Forwarding is already active."@,
{
    "Forwarding is already active."
}

/// Confirmation of a resume.
pub fn resume_ok() -> (r: &'static str)
    ensures
        r@ == "Forwarding resumed."@,
{
    "Forwarding resumed."
}

/// Confirmation of /restart.
pub fn restart_ok() -> (r: &'static str)
    ensures
        r@ == "Rebooting…"@,
{
    "Rebooting…"
}

/// Description of /help.
pub fn desc_help() -> (r: &'static str)
    ensures
        r@ == "List all commands"@,
{
    "List all commands"
}

/// Description of /status.
pub fn desc_status() -> (r: &'static str)
    ensures
        r@ == "Show device health and stats"@,
{
    "Show device health and stats"
}

/// Description of /send.
pub fn desc_send() -> (r: &'static str)
    ensures
        r@ == "Send an SMS: /send <number> <text>"@,
{
    "Send an SMS: /send <number> <text>"
}

/// Description of /log.
pub fn desc_log() -> (r: &'static str)
    ensures
        r@ == "Show event log page: /log [offset]"@,
{
    "Show event log page: /log [offset]"
}

/// Description of /block.
pub fn desc_block() -> (r: &'static str)
    ensures
        r@ == "Block SMS from a number"@,
{
    "Block SMS from a number"
}

/// Description of /blocklist.
pub fn desc_blocklist() -> (r: &'static str)
    ensures
        r@ == "Show blocked numbers"@,
{
    "Show blocked numbers"
}

/// Description of /unblock.
pub fn desc_unblock() -> (r: &'static str)
    ensures
        r@ == "Unblock SMS from a number"@,
{
    "Unblock SMS from a number"
}

/// Description of /pause.
pub fn desc_pause() -> (r: &'static str)
    ensures
        r@ == "Pause SMS forwarding (default 60 min)"@,
{
    "Pause SMS forwarding (default 60 min)"
}

/// Description of /resume.
pub fn desc_resume() -> (r: &'static str)
    ensures
        r@ == "Resume SMS forwarding immediately"@,
{
    "Resume SMS forwarding immediately"
}

/// Description of /restart.
pub fn desc_restart() -> (r: &'static str)
    ensures
        r@ == "Reboot the device"@,
{
    "Reboot the device"
}

/// The uptime lines of the status report.
pub open spec fn status_head(h: u32, m: u32, s: u32) -> Seq<char> {
    "📊 smsgate status\n⏱ Uptime: "@ + spec_decimal_pad2(h as nat) + "h "@ + spec_decimal_pad2(m as nat) + "m "@
        + spec_decimal_pad2(s as nat) + "s\n"@
}

fn push_status_head(out: &mut String, h: u32, m: u32, s: u32)
    ensures
        final(out)@ == old(out)@ + status_head(h, m, s),
{
    push_str(out, "📊 smsgate status\n⏱ Uptime: ");
    push_decimal_pad2(out, h as u64);
    push_str(out, "h ");
    push_decimal_pad2(out, m as u64);
    push_str(out, "m ");
    push_decimal_pad2(out, s as u64);
    push_str(out, "s\n");
    assert(final(out)@ =~= old(out)@ + status_head(h, m, s));
}

/// The WiFi line of the status report, empty when there is no WiFi information.
pub open spec fn status_wifi_line(wifi_info: Seq<char>) -> Seq<char> {
    if wifi_info.len() == 0 {
        Seq::empty()
    } else {
        "📶 WiFi: "@ + wifi_info + "\n"@
    }
}

fn push_status_wifi_line(out: &mut String, wifi_info: &str)
    ensures
        final(out)@ == old(out)@ + status_wifi_line(wifi_info@),
{
    if !wifi_info.is_empty() {
        push_str(out, "📶 WiFi: ");
        push_str(out, wifi_info);
        push_str(out, "\n");
    }
    assert(final(out)@ =~= old(out)@ + status_wifi_line(wifi_info@));
}

/// The signal and network lines of the status report.
pub open spec fn status_network(signal: Seq<char>, operator: Seq<char>, registered: bool) -> Seq<char> {
    "📶 Signal: "@ + signal + " — "@ + operator + "\n🌐 Network: "@
        + (if registered { "registered"@ } else { "not registered"@ }) + "\n"@
}

fn push_status_network(out: &mut String, signal: &str, operator: &str, registered: bool)
    ensures
        final(out)@ == old(out)@ + status_network(signal@, operator@, registered),
{
    let reg = if registered { status_reg_ok() } else { status_reg_no() };
    push_str(out, "📶 Signal: ");
    push_str(out, signal);
    push_str(out, " — ");
    push_str(out, operator);
    push_str(out, "\n🌐 Network: ");
    push_str(out, reg);
    push_str(out, "\n");
    assert(final(out)@ =~= old(out)@ + status_network(signal@, operator@, registered));
}

/// The heap line of the status report, empty when the free heap is unknown (0).
pub open spec fn status_heap_line(free_heap_kb: u32) -> Seq<char> {
    if free_heap_kb > 0 {
        "💾 Heap: "@ + spec_decimal(free_heap_kb as nat) + " KB free\n"@
    } else {
        Seq::empty()
    }
}

fn push_status_heap_line(out: &mut String, free_heap_kb: u32)
    ensures
        final(out)@ == old(out)@ + status_heap_line(free_heap_kb),
{
    if free_heap_kb > 0 {
        push_str(out, "💾 Heap: ");
        push_decimal(out, free_heap_kb as u64);
        push_str(out, " KB free\n");
    }
    assert(final(out)@ =~= old(out)@ + status_heap_line(free_heap_kb));
}

/// The queue, block-list, log and forwarding lines of the status report.
pub open spec fn status_counts(queue_n: usize, blocked_n: usize, log_n: usize, fwd_on: bool) -> Seq<char> {
    "📬 Queue: "@ + spec_decimal(queue_n as nat) + " pending\n🚫 Blocked: "@ + spec_decimal(blocked_n as nat) + " number(s)\n📋 Log: "@
        + spec_decimal(log_n as nat) + " messages\n🔄 Forwarding: "@ + (if fwd_on { "enabled"@ } else { "PAUSED"@ }) + "\n"@
}

fn push_status_counts(out: &mut String, queue_n: usize, blocked_n: usize, log_n: usize, fwd_on: bool)
    ensures
        final(out)@ == old(out)@ + status_counts(queue_n, blocked_n, log_n, fwd_on),
{
    let fwd = if fwd_on { status_fwd_on() } else { status_fwd_off() };
    push_str(out, "📬 Queue: ");
    push_decimal(out, queue_n as u64);
    push_str(out, " pending\n🚫 Blocked: ");
    push_decimal(out, blocked_n as u64);
    push_str(out, " number(s)\n📋 Log: ");
    push_decimal(out, log_n as u64);
    push_str(out, " messages\n🔄 Forwarding: ");
    push_str(out, fwd);
    push_str(out, "\n");
    assert(final(out)@ =~= old(out)@ + status_counts(queue_n, blocked_n, log_n, fwd_on));
}

/// The last-SMS line of the status report.
pub open spec fn status_last_line(last_sms: Option<(&str, &str)>) -> Seq<char> {
    match last_sms {
        Some((sender, ts)) => "📩 Last SMS: "@ + sender@ + " at "@ + ts@ + "\n"@,
        None => Seq::empty(),
    }
}

fn push_status_last_line(out: &mut String, last_sms: Option<(&str, &str)>)
    ensures
        final(out)@ == old(out)@ + status_last_line(last_sms),
{
    match last_sms {
        Some((sender, ts)) => {
            push_str(out, "📩 Last SMS: ");
            push_str(out, sender);
            push_str(out, " at ");
            push_str(out, ts);
            push_str(out, "\n");
        },
        None => {},
    }
    assert(final(out)@ =~= old(out)@ + status_last_line(last_sms));
}

/// The whole `/status` report.
pub open spec fn spec_format_status(
    h: u32,
    m: u32,
    s: u32,
    signal: Seq<char>,
    operator: Seq<char>,
    registered: bool,
    free_heap_kb: u32,
    queue_n: usize,
    blocked_n: usize,
    log_n: usize,
    fwd_on: bool,
    last_sms: Option<(&str, &str)>,
    wifi_info: Seq<char>,
) -> Seq<char> {
    status_head(h, m, s) + status_wifi_line(wifi_info) + status_network(signal, operator, registered)
        + status_heap_line(free_heap_kb) + status_counts(queue_n, blocked_n, log_n, fwd_on)
        + status_last_line(last_sms)
}

/// The `/status` report.
pub fn format_status(
    h: u32,
    m: u32,
    s: u32,
    signal: &str,
    operator: &str,
    registered: bool,
    free_heap_kb: u32,
    queue_n: usize,
    blocked_n: usize,
    log_n: usize,
    fwd_on: bool,
    last_sms: Option<(&str, &str)>,
    wifi_info: &str,
) -> (r: String)
    ensures
        r@ == spec_format_status(
            h,
            m,
            s,
            signal@,
            operator@,
            registered,
            free_heap_kb,
            queue_n,
            blocked_n,
            log_n,
            fwd_on,
            last_sms,
            wifi_info@,
        ),
{
    let mut out = new_string();
    push_status_head(&mut out, h, m, s);
    push_status_wifi_line(&mut out, wifi_info);
    push_status_network(&mut out, signal, operator, registered);
    push_status_heap_line(&mut out, free_heap_kb);
    push_status_counts(&mut out, queue_n, blocked_n, log_n, fwd_on);
    push_status_last_line(&mut out, last_sms);
    assert(out@ =~= status_head(h, m, s) + status_wifi_line(wifi_info@) + status_network(
        signal@,
        operator@,
        registered,
    ) + status_heap_line(free_heap_kb) + status_counts(queue_n, blocked_n, log_n, fwd_on)
        + status_last_line(last_sms));
    out
}

} // verus!
