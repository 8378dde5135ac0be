//! The main loop's periodic decisions: the Telegram poll watchdog, the low-signal
//! alert, operator changes, WiFi recovery, pause expiry and stale OTA documents.
//!
//! The loop itself (clocks, radios, sending) lives with the device; it hands each tick's
//! readings to `status_tick` and carries out what comes back.

use crate::modem::CSQ_UNKNOWN;
use crate::strutil::{str_eq, to_owned_string};
use vstd::prelude::*;

verus! {

/// How often the modem status is refreshed (30 s).
pub const STATUS_INTERVAL_MS: u32 = 30_000;

/// A signal quality at or below this is weak.
pub const CSQ_WEAK: u8 = 5;

/// Seconds without a Telegram poll result after which the poll watchdog fires.
pub const POLL_STALE_SECS: u64 = 300;

/// Free heap below this many bytes is reported.
pub const LOW_HEAP_THRESHOLD: u32 = 20480;

/// The longest pause, in minutes (one week).
pub const MAX_PAUSE_MINS: u64 = 10080;

/// What the loop remembers between ticks.
pub struct MonitorState {
    /// A low-signal alert was sent and the signal has not recovered since.
    pub low_signal_alerted: bool,
    /// The poll watchdog fired and no poll result has come since.
    pub tg_stale_alerted: bool,
    /// The last operator name seen (empty before the first).
    pub last_operator: String,
}

/// One tick's readings.
pub struct StatusReading {
    pub csq: u8,
    pub operator: String,
    pub free_heap: u32,
    /// Seconds since the last Telegram poll result.
    pub stale_secs: u64,
    pub using_cellular: bool,
    /// WiFi came up at boot.
    pub wifi_ok: bool,
    /// WiFi is associated now.
    pub wifi_connected: bool,
}

/// A change of the low-signal alert.
#[derive(PartialEq, Eq, Structural, Debug, Clone, Copy)]
pub enum SignalChange {
    Steady,
    /// Alert: the signal became weak.
    Low,
    /// The signal recovered after an alert.
    Restored,
}

/// What a tick asks the loop to do.
pub struct StatusDecisions {
    /// Report low free heap.
    pub low_heap: bool,
    pub signal: SignalChange,
    /// Report an operator change, from the first name to the second.
    pub operator_change: Option<(String, String)>,
    /// Try to reconnect WiFi (and fall back to cellular if that fails).
    pub reconnect_wifi: bool,
    /// The poll watchdog fired: report the minutes without polls.
    pub poll_stale_mins: Option<u32>,
    /// Along with the watchdog: switch to cellular.
    pub fallback_on_stale: bool,
}

/// The poll watchdog: it fires once when polls have been stale for `POLL_STALE_SECS`,
/// and asks for the cellular fallback when not on cellular already. Returns (fire,
/// fall back).
pub fn poll_watchdog(stale_secs: u64, alerted: bool, using_cellular: bool) -> (r: (bool, bool))
    ensures
        r.0 == (stale_secs >= POLL_STALE_SECS && !alerted),
        r.1 == (r.0 && !using_cellular),
{
    let fire = stale_secs >= POLL_STALE_SECS && !alerted;
    (fire, fire && !using_cellular)
}

/// The low-signal alert with hysteresis: a known signal at or below `CSQ_WEAK` raises it
/// once; a known signal above clears it, with a notice.
pub open spec fn spec_signal_change(csq: u8, alerted: bool) -> SignalChange {
    if csq == CSQ_UNKNOWN {
        SignalChange::Steady
    } else if csq <= CSQ_WEAK && !alerted {
        SignalChange::Low
    } else if csq > CSQ_WEAK && alerted {
        SignalChange::Restored
    } else {
        SignalChange::Steady
    }
}

/// Decides the low-signal alert.
pub fn signal_change(csq: u8, alerted: bool) -> (r: SignalChange)
    ensures
        r == spec_signal_change(csq, alerted),
{
    if csq == CSQ_UNKNOWN {
        SignalChange::Steady
    } else if csq <= CSQ_WEAK && !alerted {
        SignalChange::Low
    } else if csq > CSQ_WEAK && alerted {
        SignalChange::Restored
    } else {
        SignalChange::Steady
    }
}

/// Whether an operator change is reported: both names known and different.
pub open spec fn spec_operator_changed(last: Seq<char>, current: Seq<char>) -> bool {
    current.len() > 0 && last.len() > 0 && current != last
}

/// Whether a status refresh is due: the interval passed (on a wrapping millisecond
/// clock) and no `+CMT` PDU line is still to come.
pub fn status_due(now_ms: u32, last_ms: u32, cmt_pending: bool) -> (r: bool)
    ensures
        r == ((if now_ms >= last_ms { now_ms - last_ms } else { now_ms + 0x1_0000_0000 - last_ms }) > STATUS_INTERVAL_MS
            && !cmt_pending),
{
    now_ms.wrapping_sub(last_ms) > STATUS_INTERVAL_MS && !cmt_pending
}

/// One status tick: decides the reports and updates what the loop remembers.
pub fn status_tick(state: &mut MonitorState, reading: &StatusReading) -> (d: StatusDecisions)
    ensures
        d.low_heap == (reading.free_heap < LOW_HEAP_THRESHOLD),
        d.signal == spec_signal_change(reading.csq, old(state).low_signal_alerted),
        final(state).low_signal_alerted == match d.signal {
            SignalChange::Low => true,
            SignalChange::Restored => false,
            SignalChange::Steady => old(state).low_signal_alerted,
        },
        spec_operator_changed(old(state).last_operator@, reading.operator@) ==> (d.operator_change matches Some(c) && c.0@
            == old(state).last_operator@ && c.1@ == reading.operator@),
        !spec_operator_changed(old(state).last_operator@, reading.operator@) ==> d.operator_change is None,
        final(state).last_operator@ == if reading.operator@.len() > 0 {
            reading.operator@
        } else {
            old(state).last_operator@
        },
        d.reconnect_wifi == (!reading.using_cellular && reading.wifi_ok && !reading.wifi_connected),
        d.poll_stale_mins is Some == (reading.stale_secs >= POLL_STALE_SECS && !old(state).tg_stale_alerted),
        d.poll_stale_mins matches Some(m) ==> m as int == (if reading.stale_secs / 60 > u32::MAX as int { u32::MAX as int } else { (reading.stale_secs / 60) as int }),
        d.fallback_on_stale == (d.poll_stale_mins is Some && !reading.using_cellular),
        final(state).tg_stale_alerted == (old(state).tg_stale_alerted || d.poll_stale_mins is Some),
{
    let low_heap = reading.free_heap < LOW_HEAP_THRESHOLD;
    let signal = signal_change(reading.csq, state.low_signal_alerted);
    match signal {
        SignalChange::Low => state.low_signal_alerted = true,
        SignalChange::Restored => state.low_signal_alerted = false,
        SignalChange::Steady => {},
    }
    let cur = reading.operator.as_str();
    let last = state.last_operator.as_str();
    let changed = cur.unicode_len() > 0 && last.unicode_len() > 0 && !str_eq(cur, last);
    let operator_change = if changed {
        Some((to_owned_string(last), to_owned_string(cur)))
    } else {
        None
    };
    if cur.unicode_len() > 0 {
        state.last_operator = to_owned_string(cur);
    }
    let reconnect_wifi = !reading.using_cellular && reading.wifi_ok && !reading.wifi_connected;
    let (fire, fallback) = poll_watchdog(reading.stale_secs, state.tg_stale_alerted, reading.using_cellular);
    let poll_stale_mins = if fire {
        let m = reading.stale_secs / 60;
        Some(if m > 0xFFFF_FFFF { 0xFFFF_FFFFu32 } else { m as u32 })
    } else {
        None
    };
    if fire {
        state.tg_stale_alerted = true;
    }
    StatusDecisions { low_heap, signal, operator_change, reconnect_wifi, poll_stale_mins, fallback_on_stale: fallback }
}

/// A poll result came: the watchdog re-arms.
pub fn telegram_activity(state: &mut MonitorState)
    ensures
        !final(state).tg_stale_alerted,
        final(state).low_signal_alerted == old(state).low_signal_alerted,
        final(state).last_operator == old(state).last_operator,
{
    state.tg_stale_alerted = false;
}

/// Whether WiFi recovery falls back to cellular: the reconnect failed.
pub fn wifi_fallback(reconnected: bool) -> (r: bool)
    ensures
        r == !reconnected,
{
    !reconnected
}

/// Seconds a pause lasts: the asked minutes, at most `MAX_PAUSE_MINS`.
pub fn pause_seconds(mins: u32) -> (r: u64)
    ensures
        r == (if mins as u64 <= MAX_PAUSE_MINS { mins as u64 } else { MAX_PAUSE_MINS }) * 60,
{
    let m: u64 = if (mins as u64) <= MAX_PAUSE_MINS { mins as u64 } else { MAX_PAUSE_MINS };
    m * 60
}

/// Whether a pause ends now: one is set, and its end has come.
pub fn pause_expired(now_ms: u64, until_ms: Option<u64>) -> (r: bool)
    ensures
        r == (until_ms matches Some(u) && now_ms >= u),
{
    match until_ms {
        Some(u) => now_ms >= u,
        None => false,
    }
}

/// Whether an OTA document is stale: an OTA caption that is not the newest OTA
/// document of its batch. Only the newest is installed.
pub fn ota_document_stale(is_ota: bool, cursor: i64, latest_ota: Option<i64>) -> (r: bool)
    ensures
        r == (is_ota && latest_ota is Some && latest_ota != Some(cursor)),
{
    match latest_ota {
        Some(l) => is_ota && l != cursor,
        None => false,
    }
}

/// The alert is raised at most once per weak spell: once raised, a weak reading
/// changes nothing until a strong one clears it.
pub proof fn lemma_signal_alert_once(csq: u8)
    ensures
        csq != CSQ_UNKNOWN && csq <= CSQ_WEAK ==> spec_signal_change(csq, true) == SignalChange::Steady,
        csq != CSQ_UNKNOWN && csq > CSQ_WEAK ==> spec_signal_change(csq, false) == SignalChange::Steady,
{
}

} // verus!
