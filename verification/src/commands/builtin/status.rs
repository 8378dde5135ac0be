use crate::bridge::forwarder::{load_blocklist, spec_blocklist};
use crate::commands::{Command, CommandContext};
use crate::i18n::en::{desc_status, format_status, spec_format_status, status_build, status_op_unknown};
use crate::log_ring::{entry_at, headers_upto, latest_kind_upto, LogKind, LogRing};
use crate::modem::CSQ_UNKNOWN;
use crate::persist::{keys, load_bool, spec_load_bool};
use crate::strutil::{
    new_string, push_decimal, push_decimal_i64, push_str, spec_decimal, spec_decimal_int,
    to_owned_string,
};
use vstd::prelude::*;

verus! {

/// `/status`: uptime, signal, queue and log sizes, forwarding state, last SMS.
pub struct StatusCommand;

/// Signal strength in dBm for a CSQ value.
pub fn csq_to_dbm(csq: u8) -> (r: i32)
    ensures
        r == -113 + 2 * csq,
{
    -113 + 2 * (csq as i32)
}

/// The signal text: `N/A` when unknown, else `<csq>/31 (<dBm> dBm)`.
pub open spec fn spec_signal_text(csq: u8) -> Seq<char> {
    if csq == CSQ_UNKNOWN {
        "N/A"@
    } else {
        spec_decimal(csq as nat) + "/31 ("@ + spec_decimal_int(-113 + 2 * csq) + " dBm)"@
    }
}

fn signal_text(csq: u8) -> (r: String)
    ensures
        r@ == spec_signal_text(csq),
{
    if csq == CSQ_UNKNOWN {
        to_owned_string("N/A")
    } else {
        let mut out = new_string();
        push_decimal(&mut out, csq as u64);
        push_str(&mut out, "/31 (");
        push_decimal_i64(&mut out, csq_to_dbm(csq) as i64);
        push_str(&mut out, " dBm)");
        out
    }
}

/// The `/status` reply for the context's values, the block-list size, the stored
/// forwarding flag, and what the queue and the log report.
pub open spec fn spec_status_reply(
    uptime_ms: u32,
    csq: u8,
    operator: Seq<char>,
    registered: bool,
    free_heap_bytes: u32,
    blocked_n: nat,
    fwd_flag: Option<bool>,
    wifi_info: Seq<char>,
    build_commit: Seq<char>,
    queue_n: usize,
    log_n: usize,
    last_sms: Option<(&str, &str)>,
) -> Seq<char> {
    spec_format_status(
        (uptime_ms / 1000 / 3600) as u32,
        (uptime_ms / 1000 % 3600 / 60) as u32,
        (uptime_ms / 1000 % 60) as u32,
        spec_signal_text(csq),
        if operator.len() == 0 { "unknown"@ } else { operator },
        registered,
        (free_heap_bytes / 1024) as u32,
        queue_n,
        blocked_n as usize,
        log_n,
        fwd_flag != Some(false),
        last_sms,
        wifi_info,
    ) + "🔖 Build: "@ + build_commit
}

/// Whether `last` names the sender and time of the newest SMS entry in the log.
pub open spec fn last_sms_matches(flash: Seq<u8>, slots: int, last: Option<(&str, &str)>) -> bool {
    match latest_kind_upto(flash, slots, LogKind::Sms) {
        None => last is None,
        Some((_, k)) => match entry_at(flash, k) {
            Some(e) => last matches Some(p) && p.0@ == e.sender && p.1@ == e.timestamp,
            None => last is None,
        },
    }
}

proof fn lemma_status_replies(
    cmd: &StatusCommand,
    args: Seq<char>,
    ctx: &CommandContext,
    log: LogRing,
    reply: Seq<char>,
    blocked_n: nat,
    fwd: Option<bool>,
    log_n: usize,
    last_sms: Option<(&str, &str)>,
)
    requires
        ctx.store.obeys_model() ==> blocked_n == spec_blocklist(ctx.store.stored()).len() && fwd == spec_load_bool(
            ctx.store.stored(),
            keys::FWD_ENABLED@,
        ),
        reply == spec_status_reply(
            ctx.uptime_ms,
            ctx.modem_status.csq,
            ctx.modem_status.operator@,
            ctx.modem_status.registered,
            ctx.free_heap_bytes,
            blocked_n,
            fwd,
            ctx.wifi_info@,
            ctx.build_commit@,
            ctx.send_queue.pending().len() as usize,
            log_n,
            last_sms,
        ),
        log.never_fails() ==> log_n == headers_upto(log.flash(), log.slot_count()).len() && last_sms_matches(
            log.flash(),
            log.slot_count(),
            last_sms,
        ),
    ensures
        cmd.replies(args, ctx, log, reply),
{
}

impl Command for StatusCommand {
    open spec fn spec_name(&self) -> Seq<char> {
        "status"@
    }

    open spec fn spec_description(&self) -> Seq<char> {
        "Show device health and stats"@
    }

    open spec fn replies(&self, args: Seq<char>, ctx: &CommandContext, log: LogRing, reply: Seq<char>) -> bool {
        exists|blocked_n: nat, fwd: Option<bool>, log_n: usize, last_sms: Option<(&str, &str)>| {
            &&& reply == #[trigger] spec_status_reply(
                ctx.uptime_ms,
                ctx.modem_status.csq,
                ctx.modem_status.operator@,
                ctx.modem_status.registered,
                ctx.free_heap_bytes,
                blocked_n,
                fwd,
                ctx.wifi_info@,
                ctx.build_commit@,
                ctx.send_queue.pending().len() as usize,
                log_n,
                last_sms,
            )
            &&& log.never_fails() ==> log_n == headers_upto(log.flash(), log.slot_count()).len()
                && last_sms_matches(log.flash(), log.slot_count(), last_sms)
            &&& ctx.store.obeys_model() ==> blocked_n == spec_blocklist(ctx.store.stored()).len() && fwd
                == spec_load_bool(ctx.store.stored(), keys::FWD_ENABLED@)
        }
    }

    fn name(&self) -> (r: &'static str) {
        "status"
    }

    fn description(&self) -> (r: &'static str) {
        desc_status()
    }

    #[verifier::rlimit(100)]
    /// The report. The queue length, the log size and the last SMS are read from the
    /// queue and the log as they are; the rest is fixed by the context.
    fn handle(&self, _args: &str, ctx: &CommandContext, log_ring: &mut LogRing) -> (r: String)
    {
        let uptime_s = ctx.uptime_ms / 1000;
        let h = uptime_s / 3600;
        let m = (uptime_s % 3600) / 60;
        let s = uptime_s % 60;
        let signal = signal_text(ctx.modem_status.csq);
        let operator = if ctx.modem_status.operator.as_str().is_empty() {
            to_owned_string(status_op_unknown())
        } else {
            ctx.modem_status.operator.clone()
        };
        let queue_n = ctx.send_queue.len();
        let ghost log0 = *log_ring;
        let log_n = log_ring.len();
        let blocked = load_blocklist(ctx.store);
        proof {
            assert(crate::strutil::string_views(blocked@).len() == blocked@.len());
        }
        let blocked_n = blocked.len();
        let fwd_opt = load_bool(ctx.store, keys::FWD_ENABLED);
        let fwd_on = match fwd_opt {
            Some(b) => b,
            None => true,
        };
        let free_heap_kb = ctx.free_heap_bytes / 1024;
        let last = log_ring.latest_of_kind(LogKind::Sms);
        let last_sms = match &last {
            Some(e) => Some((e.sender.as_str(), e.timestamp.as_str())),
            None => None,
        };
        let mut out = format_status(
            h,
            m,
            s,
            signal.as_str(),
            operator.as_str(),
            ctx.modem_status.registered,
            free_heap_kb,
            queue_n,
            blocked_n,
            log_n,
            fwd_on,
            last_sms,
            ctx.wifi_info,
        );
        push_str(&mut out, status_build(ctx.build_commit).as_str());
        assert(out@ == spec_status_reply(
            ctx.uptime_ms,
            ctx.modem_status.csq,
            ctx.modem_status.operator@,
            ctx.modem_status.registered,
            ctx.free_heap_bytes,
            blocked@.len() as nat,
            fwd_opt,
            ctx.wifi_info@,
            ctx.build_commit@,
            queue_n,
            log_n,
            last_sms,
        ));
        assert(log0.never_fails() ==> last_sms_matches(log0.flash(), log0.slot_count(), last_sms));
        proof {
            lemma_status_replies(self, _args@, ctx, log0, out@, blocked@.len() as nat, fwd_opt, log_n, last_sms);
        }
        out
    }
}

} // verus!
