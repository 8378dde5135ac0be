//! Modem start-up as a state machine.
//!
//! The device runs the loop: it sends what `InitAction::Send` names, hands the reply
//! back to `init_step`, sleeps when asked and then calls `init_step` without a reply.
//! The sequence: probe `AT` for up to 30 s; `E0`; unlock the SIM when it asks for a PIN;
//! `+CTZU=1`; `+CMGF=0`; `+CLIP=1`; `+CNMI=2,1,0,0,0` retried for up to 30 s; the
//! `+CNMI?` and `+CPMS?` queries; `+CREG?` polled for up to 30 s; and `+CGATT=1` only
//! when cellular data is on.

use crate::modem::{creg_registered, spec_creg_registered, AtResponse, ModemError};
use crate::strutil::{new_string, push_str, spec_contains, str_contains};
use vstd::prelude::*;

verus! {

/// How long the probe, the `+CNMI` retries and the registration wait may last (30 s).
pub const INIT_WAIT_MS: u64 = 30_000;

/// Pause between probes (500 ms).
pub const PROBE_RETRY_MS: u64 = 500;

/// Pause between `+CNMI` tries and between registration polls (2 s).
pub const SLOW_RETRY_MS: u64 = 2_000;

/// The step of start-up whose command is in flight.
#[derive(PartialEq, Eq, Structural, Debug, Clone, Copy)]
pub enum InitPhase {
    Probe,
    Echo,
    PinQuery,
    PinEnter,
    TimeZone,
    PduMode,
    CallerId,
    Notify,
    NotifyQuery,
    StorageQuery,
    Registration,
    Attach,
}

/// Start-up state: the phase, when it began, and the settings.
pub struct InitState {
    pub phase: InitPhase,
    pub since_ms: u64,
    pub cellular_data: bool,
    pub sim_pin: String,
}

/// What the device does next.
pub enum InitAction {
    /// Send `AT` followed by this.
    Send(String),
    /// Sleep this many milliseconds, then call `init_step` without a reply.
    Sleep(u64),
    /// Start-up is over, with this outcome.
    Finish(Result<(), ModemError>),
}

/// The command of a phase (what follows `AT`).
pub open spec fn phase_command(p: InitPhase, pin: Seq<char>) -> Seq<char> {
    match p {
        InitPhase::Probe => Seq::empty(),
        InitPhase::Echo => "E0"@,
        InitPhase::PinQuery => "+CPIN?"@,
        InitPhase::PinEnter => "+CPIN=\""@ + pin + "\""@,
        InitPhase::TimeZone => "+CTZU=1"@,
        InitPhase::PduMode => "+CMGF=0"@,
        InitPhase::CallerId => "+CLIP=1"@,
        InitPhase::Notify => "+CNMI=2,1,0,0,0"@,
        InitPhase::NotifyQuery => "+CNMI?"@,
        InitPhase::StorageQuery => "+CPMS?"@,
        InitPhase::Registration => "+CREG?"@,
        InitPhase::Attach => "+CGATT=1"@,
    }
}

/// What a step decides, as the contract sees it.
pub enum InitDecision {
    /// Move to the phase and send its command.
    Goto(InitPhase),
    /// Sleep this long, staying in the phase.
    Wait(u64),
    /// Finish successfully.
    Done,
    /// Finish with the error the command's send gave.
    FailWithReplyError,
    /// Finish with a timeout.
    FailTimeout,
    /// Finish with an AT error of this text.
    FailAt(Seq<char>),
}

/// The phase after registration: attach when cellular data is on, else done.
pub open spec fn after_registration(cellular: bool) -> InitDecision {
    if cellular {
        InitDecision::Goto(InitPhase::Attach)
    } else {
        InitDecision::Done
    }
}

/// The decision on the reply `reply` (an error, or the final flag and body) to the
/// command of phase `p`, `elapsed` milliseconds after the phase began.
pub open spec fn spec_init_decision(
    p: InitPhase,
    reply: Option<(bool, Seq<char>)>,
    elapsed: int,
    pin: Seq<char>,
    cellular: bool,
) -> InitDecision {
    match p {
        InitPhase::Probe => if reply is Some {
            InitDecision::Goto(InitPhase::Echo)
        } else if elapsed > INIT_WAIT_MS {
            InitDecision::FailTimeout
        } else {
            InitDecision::Wait(PROBE_RETRY_MS)
        },
        InitPhase::Echo => if reply is Some {
            InitDecision::Goto(InitPhase::PinQuery)
        } else {
            InitDecision::FailWithReplyError
        },
        InitPhase::PinQuery => match reply {
            None => InitDecision::FailWithReplyError,
            Some((_, body)) => if !spec_contains(body, "SIM PIN"@) {
                InitDecision::Goto(InitPhase::TimeZone)
            } else if pin.len() == 0 {
                InitDecision::FailAt("SIM PIN required but none configured"@)
            } else {
                InitDecision::Goto(InitPhase::PinEnter)
            },
        },
        InitPhase::PinEnter => match reply {
            None => InitDecision::FailWithReplyError,
            Some((ok, body)) => if ok {
                InitDecision::Goto(InitPhase::TimeZone)
            } else {
                InitDecision::FailAt("CPIN: "@ + body)
            },
        },
        InitPhase::TimeZone => InitDecision::Goto(InitPhase::PduMode),
        InitPhase::PduMode => if reply is Some {
            InitDecision::Goto(InitPhase::CallerId)
        } else {
            InitDecision::FailWithReplyError
        },
        InitPhase::CallerId => if reply is Some {
            InitDecision::Goto(InitPhase::Notify)
        } else {
            InitDecision::FailWithReplyError
        },
        InitPhase::Notify => if (reply matches Some((ok, _)) && ok) || elapsed > INIT_WAIT_MS {
            InitDecision::Goto(InitPhase::NotifyQuery)
        } else {
            InitDecision::Wait(SLOW_RETRY_MS)
        },
        InitPhase::NotifyQuery => InitDecision::Goto(InitPhase::StorageQuery),
        InitPhase::StorageQuery => InitDecision::Goto(InitPhase::Registration),
        InitPhase::Registration => match reply {
            None => InitDecision::FailWithReplyError,
            Some((_, body)) => if spec_creg_registered(body) || elapsed > INIT_WAIT_MS {
                after_registration(cellular)
            } else {
                InitDecision::Wait(SLOW_RETRY_MS)
            },
        },
        InitPhase::Attach => InitDecision::Done,
    }
}

/// How the contract sees a reply: nothing for an error, else the final flag and body.
pub open spec fn reply_view(r: &Result<AtResponse, ModemError>) -> Option<(bool, Seq<char>)> {
    match r {
        Ok(a) => Some((a.ok, a.body@)),
        Err(_) => None,
    }
}

/// Whether the step's result carries out `d` from state `s` at `now_ms`, given `reply`.
pub open spec fn carries_out(
    s: &InitState,
    reply: &Result<AtResponse, ModemError>,
    now_ms: u64,
    d: InitDecision,
    r: &(InitState, InitAction),
) -> bool {
    &&& r.0.cellular_data == s.cellular_data
    &&& r.0.sim_pin@ == s.sim_pin@
    &&& match d {
        InitDecision::Goto(p) => r.0.phase == p && r.0.since_ms == now_ms && (r.1 matches InitAction::Send(c)
            && c@ == phase_command(p, s.sim_pin@)),
        InitDecision::Wait(ms) => r.0.phase == s.phase && r.0.since_ms == s.since_ms && r.1 == InitAction::Sleep(ms),
        InitDecision::Done => r.1 matches InitAction::Finish(Ok(())),
        InitDecision::FailWithReplyError => reply matches Err(e) && r.1 == InitAction::Finish(Err(*e)),
        InitDecision::FailTimeout => r.1 matches InitAction::Finish(Err(ModemError::Timeout)),
        InitDecision::FailAt(m) => r.1 matches InitAction::Finish(Err(ModemError::AtError(t))) && t@ == m,
    }
}

/// The command of a phase.
fn command_of(p: InitPhase, pin: &str) -> (c: String)
    ensures
        c@ == phase_command(p, pin@),
{
    let mut c = new_string();
    match p {
        InitPhase::Probe => {},
        InitPhase::Echo => push_str(&mut c, "E0"),
        InitPhase::PinQuery => push_str(&mut c, "+CPIN?"),
        InitPhase::PinEnter => {
            push_str(&mut c, "+CPIN=\"");
            push_str(&mut c, pin);
            push_str(&mut c, "\"");
        },
        InitPhase::TimeZone => push_str(&mut c, "+CTZU=1"),
        InitPhase::PduMode => push_str(&mut c, "+CMGF=0"),
        InitPhase::CallerId => push_str(&mut c, "+CLIP=1"),
        InitPhase::Notify => push_str(&mut c, "+CNMI=2,1,0,0,0"),
        InitPhase::NotifyQuery => push_str(&mut c, "+CNMI?"),
        InitPhase::StorageQuery => push_str(&mut c, "+CPMS?"),
        InitPhase::Registration => push_str(&mut c, "+CREG?"),
        InitPhase::Attach => push_str(&mut c, "+CGATT=1"),
    }
    assert(c@ =~= phase_command(p, pin@));
    c
}

/// Starts start-up at `now_ms`: the probe.
pub fn init_start(cellular_data: bool, sim_pin: String, now_ms: u64) -> (r: (InitState, InitAction))
    ensures
        r.0.phase == InitPhase::Probe,
        r.0.since_ms == now_ms,
        r.0.cellular_data == cellular_data,
        r.0.sim_pin@ == sim_pin@,
        r.1 matches InitAction::Send(c) && c@ == phase_command(InitPhase::Probe, sim_pin@),
{
    let c = command_of(InitPhase::Probe, sim_pin.as_str());
    (InitState { phase: InitPhase::Probe, since_ms: now_ms, cellular_data, sim_pin }, InitAction::Send(c))
}

/// The state after moving to `p` at `now_ms`, with its command.
fn goto_phase(s: &InitState, p: InitPhase, now_ms: u64) -> (r: (InitState, InitAction))
    ensures
        r.0.cellular_data == s.cellular_data,
        r.0.sim_pin@ == s.sim_pin@,
        r.0.phase == p,
        r.0.since_ms == now_ms,
        r.1 matches InitAction::Send(c) && c@ == phase_command(p, s.sim_pin@),
{
    let c = command_of(p, s.sim_pin.as_str());
    let pin = crate::strutil::to_owned_string(s.sim_pin.as_str());
    (InitState { phase: p, since_ms: now_ms, cellular_data: s.cellular_data, sim_pin: pin }, InitAction::Send(c))
}

/// The same phase, sleeping `ms` first.
fn wait_in(s: &InitState, ms: u64) -> (r: (InitState, InitAction))
    ensures
        r.0.cellular_data == s.cellular_data,
        r.0.sim_pin@ == s.sim_pin@,
        r.0.phase == s.phase,
        r.0.since_ms == s.since_ms,
        r.1 == InitAction::Sleep(ms),
{
    let pin = crate::strutil::to_owned_string(s.sim_pin.as_str());
    (InitState { phase: s.phase, since_ms: s.since_ms, cellular_data: s.cellular_data, sim_pin: pin }, InitAction::Sleep(ms))
}

/// Finishes with `out`.
fn finish(s: &InitState, out: Result<(), ModemError>) -> (r: (InitState, InitAction))
    ensures
        r.0.cellular_data == s.cellular_data,
        r.0.sim_pin@ == s.sim_pin@,
        r.1 == InitAction::Finish(out),
{
    let pin = crate::strutil::to_owned_string(s.sim_pin.as_str());
    (InitState { phase: s.phase, since_ms: s.since_ms, cellular_data: s.cellular_data, sim_pin: pin }, InitAction::Finish(out))
}

/// After a sleep: the phase's command again.
pub fn init_resume(s: &InitState) -> (r: (InitState, InitAction))
    ensures
        r.0.cellular_data == s.cellular_data,
        r.0.sim_pin@ == s.sim_pin@,
        r.0.phase == s.phase,
        r.0.since_ms == s.since_ms,
        r.1 matches InitAction::Send(c) && c@ == phase_command(s.phase, s.sim_pin@),
{
    let c = command_of(s.phase, s.sim_pin.as_str());
    let pin = crate::strutil::to_owned_string(s.sim_pin.as_str());
    (InitState { phase: s.phase, since_ms: s.since_ms, cellular_data: s.cellular_data, sim_pin: pin }, InitAction::Send(c))
}

/// One step of start-up on the reply to the phase's command, at `now_ms`.
pub fn init_step(s: &InitState, reply: Result<AtResponse, ModemError>, now_ms: u64) -> (r: (InitState, InitAction))
    ensures
        carries_out(
            s,
            &reply,
            now_ms,
            spec_init_decision(
                s.phase,
                reply_view(&reply),
                if now_ms >= s.since_ms { now_ms - s.since_ms } else { 0 },
                s.sim_pin@,
                s.cellular_data,
            ),
            &r,
        ),
{
    let elapsed: u64 = if now_ms >= s.since_ms { now_ms - s.since_ms } else { 0 };
    match s.phase {
        InitPhase::Probe => match reply {
            Ok(_) => goto_phase(s, InitPhase::Echo, now_ms),
            Err(_) => if elapsed > INIT_WAIT_MS {
                finish(s, Err(ModemError::Timeout))
            } else {
                wait_in(s, PROBE_RETRY_MS)
            },
        },
        InitPhase::Echo => match reply {
            Ok(_) => goto_phase(s, InitPhase::PinQuery, now_ms),
            Err(e) => finish(s, Err(e)),
        },
        InitPhase::PinQuery => match reply {
            Err(e) => finish(s, Err(e)),
            Ok(a) => {
                proof {
                    reveal_strlit("SIM PIN");
                }
                if !str_contains(a.body.as_str(), "SIM PIN") {
                    goto_phase(s, InitPhase::TimeZone, now_ms)
                } else if s.sim_pin.as_str().unicode_len() == 0 {
                    finish(s, Err(ModemError::AtError(crate::strutil::to_owned_string("SIM PIN required but none configured"))))
                } else {
                    goto_phase(s, InitPhase::PinEnter, now_ms)
                }
            },
        },
        InitPhase::PinEnter => match reply {
            Err(e) => finish(s, Err(e)),
            Ok(a) => if a.ok {
                goto_phase(s, InitPhase::TimeZone, now_ms)
            } else {
                let mut m = new_string();
                push_str(&mut m, "CPIN: ");
                push_str(&mut m, a.body.as_str());
                finish(s, Err(ModemError::AtError(m)))
            },
        },
        InitPhase::TimeZone => goto_phase(s, InitPhase::PduMode, now_ms),
        InitPhase::PduMode => match reply {
            Ok(_) => goto_phase(s, InitPhase::CallerId, now_ms),
            Err(e) => finish(s, Err(e)),
        },
        InitPhase::CallerId => match reply {
            Ok(_) => goto_phase(s, InitPhase::Notify, now_ms),
            Err(e) => finish(s, Err(e)),
        },
        InitPhase::Notify => {
            let accepted = match &reply {
                Ok(a) => a.ok,
                Err(_) => false,
            };
            if accepted || elapsed > INIT_WAIT_MS {
                goto_phase(s, InitPhase::NotifyQuery, now_ms)
            } else {
                wait_in(s, SLOW_RETRY_MS)
            }
        },
        InitPhase::NotifyQuery => goto_phase(s, InitPhase::StorageQuery, now_ms),
        InitPhase::StorageQuery => goto_phase(s, InitPhase::Registration, now_ms),
        InitPhase::Registration => match reply {
            Err(e) => finish(s, Err(e)),
            Ok(a) => if creg_registered(a.body.as_str()) || elapsed > INIT_WAIT_MS {
                if s.cellular_data {
                    goto_phase(s, InitPhase::Attach, now_ms)
                } else {
                    finish(s, Ok(()))
                }
            } else {
                wait_in(s, SLOW_RETRY_MS)
            },
        },
        InitPhase::Attach => finish(s, Ok(())),
    }
}

} // verus!
