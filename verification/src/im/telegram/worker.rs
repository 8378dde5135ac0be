//! Events the Telegram send worker reports to the main loop, and its retry policy.
//!
//! A failed request is retried until it has been failing for `TELEGRAM_RESTART_AFTER_MS`;
//! then the worker asks for a restart, the send watchdog. Attempts are spaced so that
//! one starts at most every `TELEGRAM_SEND_RETRY_INTERVAL_MS`.

use crate::log_ring::LogEvent;
use vstd::prelude::*;

verus! {

/// What the send worker reports: an event to log, or an event after which the device
/// should restart.
#[derive(Debug, Clone)]
pub enum TelegramSendEvent {
    Log(LogEvent),
    Restart(LogEvent),
}

/// How long a request may keep failing before the device restarts (10 min).
pub const TELEGRAM_RESTART_AFTER_MS: u64 = 600_000;

/// The spacing between the starts of two attempts (5 s).
pub const TELEGRAM_SEND_RETRY_INTERVAL_MS: u64 = 5_000;

/// What the worker does after a failed attempt.
#[derive(PartialEq, Eq, Structural, Debug, Clone, Copy)]
pub enum RetryAction {
    /// Give the error back: it is not worth retrying.
    Return,
    /// The request has failed for too long: ask for a restart.
    Restart,
    /// Sleep this many milliseconds, then try again.
    Sleep(u64),
}

/// The decision after a failed attempt that took `attempt_elapsed_ms`, with the request
/// failing for `total_elapsed_ms` so far.
pub open spec fn spec_send_retry_step(
    total_elapsed_ms: u64,
    attempt_elapsed_ms: u64,
    retryable: bool,
    restart_after_ms: u64,
    retry_interval_ms: u64,
) -> RetryAction {
    if !retryable {
        RetryAction::Return
    } else if total_elapsed_ms >= restart_after_ms {
        RetryAction::Restart
    } else {
        let wait = if attempt_elapsed_ms >= retry_interval_ms { 0 } else { retry_interval_ms - attempt_elapsed_ms };
        let left = (restart_after_ms - total_elapsed_ms) as int;
        RetryAction::Sleep((if wait <= left { wait } else { left }) as u64)
    }
}

/// Decides what follows a failed attempt: an error that is not retryable is given
/// back; past the restart deadline the worker restarts; otherwise it sleeps out the
/// rest of the retry interval, never past the deadline.
pub fn send_retry_step(
    total_elapsed_ms: u64,
    attempt_elapsed_ms: u64,
    retryable: bool,
    restart_after_ms: u64,
    retry_interval_ms: u64,
) -> (a: RetryAction)
    ensures
        a == spec_send_retry_step(total_elapsed_ms, attempt_elapsed_ms, retryable, restart_after_ms, retry_interval_ms),
{
    if !retryable {
        RetryAction::Return
    } else if total_elapsed_ms >= restart_after_ms {
        RetryAction::Restart
    } else {
        let wait = if attempt_elapsed_ms >= retry_interval_ms { 0 } else { retry_interval_ms - attempt_elapsed_ms };
        let left = restart_after_ms - total_elapsed_ms;
        RetryAction::Sleep(if wait <= left { wait } else { left })
    }
}

/// Whether the worker restarts after sleeping: the request has failed for the whole
/// restart deadline.
pub fn restart_after_sleep(total_elapsed_ms: u64, restart_after_ms: u64) -> (r: bool)
    ensures
        r == (total_elapsed_ms >= restart_after_ms),
{
    total_elapsed_ms >= restart_after_ms
}

/// A retried request never sleeps past the restart deadline, and a request still
/// failing at the deadline always ends in a restart (when its errors are retryable).
pub proof fn lemma_retry_bounded(
    total_elapsed_ms: u64,
    attempt_elapsed_ms: u64,
    restart_after_ms: u64,
    retry_interval_ms: u64,
)
    ensures
        spec_send_retry_step(total_elapsed_ms, attempt_elapsed_ms, true, restart_after_ms, retry_interval_ms) matches RetryAction::Sleep(ms)
            ==> total_elapsed_ms + ms <= restart_after_ms && ms <= retry_interval_ms,
        total_elapsed_ms >= restart_after_ms ==> spec_send_retry_step(
            total_elapsed_ms,
            attempt_elapsed_ms,
            true,
            restart_after_ms,
            retry_interval_ms,
        ) == RetryAction::Restart,
{
}

} // verus!
