//! Incoming call state machine: Idle → Ringing → Cooldown.
//!
//! Times are nanoseconds on a monotonic clock started with the handler. The `_at`
//! methods take the current reading and are the state machine; the `_deferred` methods
//! read the clock and call them.

use crate::i18n::en::incoming_call;
use crate::modem::ModemPort;
use crate::sms::codec::{
    human_readable_phone, human_readable_phone_defined, parse_clip_line, phone_displayable, spec_human_readable_phone,
    spec_parse_clip_line,
};
use crate::sms::concat::{clock_start, nanos_since};
use crate::strutil::{starts_with, str_eq, str_starts_with, to_owned_string};
use vstd::prelude::*;

verus! {

/// How long to wait for the caller id after `RING` (1.5 s).
pub const CLIP_DEADLINE_NANOS: u64 = 1_500_000_000;

/// Quiet period after a call was handled (6 s).
pub const COOLDOWN_NANOS: u64 = 6_000_000_000;

enum State {
    Idle,
    Ringing { clip_deadline: u64, number: Option<String> },
    Cooldown { until: u64 },
}

/// The state of the call handler.
pub enum SpecCallState {
    Idle,
    Ringing { clip_deadline: u64, number: Option<Seq<char>> },
    Cooldown { until: u64 },
}

/// Incoming call handler with auto-hangup and IM notification.
pub struct CallHandler {
    state: State,
    epoch: std::time::Instant,
}

/// The text sent for a call: the caller in display form, or "unknown caller".
pub open spec fn spec_call_text(number: Option<Seq<char>>) -> Seq<char> {
    "📞 Incoming call from "@ + match number {
        Some(n) => if n.len() > 0 { spec_human_readable_phone(n) } else { "unknown caller"@ },
        None => "unknown caller"@,
    }
}

/// A caller id that the display formatting can slice.
pub open spec fn number_displayable(number: Option<Seq<char>>) -> bool {
    number matches Some(n) ==> human_readable_phone_defined(n)
}

/// A line whose caller id (if it is a `+CLIP:` line) the display formatting can slice.
pub open spec fn clip_displayable(line: Seq<char>) -> bool {
    spec_parse_clip_line(line) matches Some(n) ==> human_readable_phone_defined(n)
}

/// Checks `clip_displayable`: whether a URC line may be fed to the handler.
pub fn can_display_call(line: &str) -> (r: bool)
    ensures
        r == clip_displayable(line@),
{
    match parse_clip_line(line) {
        Some(n) => phone_displayable(n.as_str()),
        None => true,
    }
}

/// What a `RING` does: start ringing when idle, with the caller-id deadline.
pub open spec fn spec_on_ring(s: SpecCallState, now: u64) -> SpecCallState {
    match s {
        SpecCallState::Idle => SpecCallState::Ringing {
            clip_deadline: if now as int + CLIP_DEADLINE_NANOS > u64::MAX { u64::MAX } else { (now
                + CLIP_DEADLINE_NANOS) as u64 },
            number: None,
        },
        _ => s,
    }
}

/// The cool-down state that follows a handled call.
pub open spec fn cooldown_after(now: u64) -> SpecCallState {
    SpecCallState::Cooldown {
        until: if now as int + COOLDOWN_NANOS > u64::MAX { u64::MAX } else { (now + COOLDOWN_NANOS) as u64 },
    }
}

/// What a URC line does to the state, and the notice to send (if any): `RING…` rings;
/// a `+CLIP:` line while ringing hangs up and notifies (an empty number counts as
/// unknown); `NO CARRIER` returns to idle.
pub open spec fn spec_handle_urc(s: SpecCallState, line: Seq<char>, now: u64) -> (SpecCallState, Option<Seq<char>>) {
    if starts_with(line, "RING"@) {
        (spec_on_ring(s, now), None)
    } else if starts_with(line, "+CLIP:"@) {
        match spec_parse_clip_line(line) {
            Some(n) => if s is Ringing {
                (cooldown_after(now), Some(spec_call_text(if n.len() == 0 { None } else { Some(n) })))
            } else {
                (s, None)
            },
            None => (s, None),
        }
    } else if line == "NO CARRIER"@ {
        (SpecCallState::Idle, None)
    } else {
        (s, None)
    }
}

/// What the passing of time does: ringing past the deadline commits the call with the
/// number known so far; a finished cool-down returns to idle.
pub open spec fn spec_tick(s: SpecCallState, now: u64) -> (SpecCallState, Option<Seq<char>>) {
    match s {
        SpecCallState::Ringing { clip_deadline, number } => if now >= clip_deadline {
            (cooldown_after(now), Some(spec_call_text(number)))
        } else {
            (s, None)
        },
        SpecCallState::Cooldown { until } => if now >= until {
            (SpecCallState::Idle, None)
        } else {
            (s, None)
        },
        SpecCallState::Idle => (s, None),
    }
}

fn deadline_after(now: u64, d: u64) -> (r: u64)
    ensures
        r == (if now as int + d > u64::MAX { u64::MAX } else { (now + d) as u64 }),
{
    if now > u64::MAX - d {
        u64::MAX
    } else {
        now + d
    }
}

impl CallHandler {
    /// The current state.
    pub closed spec fn state(&self) -> SpecCallState {
        match &self.state {
            State::Idle => SpecCallState::Idle,
            State::Ringing { clip_deadline, number } => SpecCallState::Ringing {
                clip_deadline: *clip_deadline,
                number: match number {
                    Some(n) => Some(n@),
                    None => None,
                },
            },
            State::Cooldown { until } => SpecCallState::Cooldown { until: *until },
        }
    }

    /// Any number held while ringing can be displayed.
    pub open spec fn wf(&self) -> bool {
        self.state() matches SpecCallState::Ringing { number, .. } ==> number_displayable(number)
    }

    /// An idle handler; its clock starts now.
    pub fn new() -> (r: Self)
        ensures
            r.state() == SpecCallState::Idle,
            r.wf(),
    {
        CallHandler { state: State::Idle, epoch: clock_start() }
    }

    /// Hangs up, builds the notice and enters the cool-down.
    fn commit_call<M: ModemPort + ?Sized>(&mut self, number: Option<String>, now: u64, modem: &mut M) -> (r: String)
        requires
            number_displayable(
                match number {
                    Some(n) => Some(n@),
                    None => None,
                },
            ),
        ensures
            r@ == spec_call_text(
                match number {
                    Some(n) => Some(n@),
                    None => None,
                },
            ),
            final(self).state() == cooldown_after(now),
            final(modem).obeys_model() == old(modem).obeys_model(),
            old(modem).obeys_model() ==> final(modem).commands() == old(modem).commands().push("H"@),
    {
        let _ = modem.hang_up();
        let display = match &number {
            Some(n) => {
                if !n.as_str().is_empty() {
                    human_readable_phone(n.as_str())
                } else {
                    to_owned_string("unknown caller")
                }
            },
            None => to_owned_string("unknown caller"),
        };
        let text = incoming_call(display.as_str());
        self.state = State::Cooldown { until: deadline_after(now, COOLDOWN_NANOS) };
        text
    }

    /// Feed a URC line at clock reading `now`; returns the notice to send, if any.
    pub fn handle_urc_at<M: ModemPort + ?Sized>(&mut self, line: &str, now: u64, modem: &mut M) -> (r: Option<String>)
        requires
            old(self).wf(),
            clip_displayable(line@),
        ensures
            final(self).wf(),
            final(self).state() == spec_handle_urc(old(self).state(), line@, now).0,
            match spec_handle_urc(old(self).state(), line@, now).1 {
                Some(t) => r matches Some(x) && x@ == t,
                None => r is None,
            },
            old(modem).obeys_model() && r is Some ==> final(modem).commands() == old(modem).commands().push("H"@),
            old(modem).obeys_model() && r is None ==> final(modem).commands() == old(modem).commands(),
    {
        if str_starts_with(line, "RING") {
            if let State::Idle = self.state {
                self.state = State::Ringing { clip_deadline: deadline_after(now, CLIP_DEADLINE_NANOS), number: None };
            }
            return None;
        }
        if str_starts_with(line, "+CLIP:") {
            if let Some(number) = parse_clip_line(line) {
                if let State::Ringing { .. } = self.state {
                    let n = if number.as_str().is_empty() {
                        None
                    } else {
                        Some(number)
                    };
                    return Some(self.commit_call(n, now, modem));
                }
            }
            return None;
        }
        if str_eq(line, "NO CARRIER") {
            self.state = State::Idle;
        }
        None
    }

    /// Drive the state machine at clock reading `now`; returns the notice to send, if any.
    pub fn tick_at<M: ModemPort + ?Sized>(&mut self, now: u64, modem: &mut M) -> (r: Option<String>)
        requires
            old(self).wf(),
        ensures
            final(self).wf(),
            final(self).state() == spec_tick(old(self).state(), now).0,
            match spec_tick(old(self).state(), now).1 {
                Some(t) => r matches Some(x) && x@ == t,
                None => r is None,
            },
            old(modem).obeys_model() && r is Some ==> final(modem).commands() == old(modem).commands().push("H"@),
            old(modem).obeys_model() && r is None ==> final(modem).commands() == old(modem).commands(),
    {
        match &self.state {
            State::Ringing { clip_deadline, number } => {
                if now >= *clip_deadline {
                    let num = match number {
                        Some(n) => Some(n.clone()),
                        None => None,
                    };
                    return Some(self.commit_call(num, now, modem));
                }
            },
            State::Cooldown { until } => {
                if now >= *until {
                    self.state = State::Idle;
                }
            },
            State::Idle => {},
        }
        None
    }

    /// Feed a URC line, reading the clock, while deferring IM delivery until after the
    /// modem lock is released.
    pub fn handle_urc_deferred<M: ModemPort + ?Sized>(&mut self, line: &str, modem: &mut M) -> (r: Option<String>)
        requires
            old(self).wf(),
            clip_displayable(line@),
        ensures
            final(self).wf(),
            exists|now: u64| {
                &&& #[trigger] spec_handle_urc(old(self).state(), line@, now).0 == final(self).state()
                &&& match spec_handle_urc(old(self).state(), line@, now).1 {
                    Some(t) => r matches Some(x) && x@ == t,
                    None => r is None,
                }
            },
            old(modem).obeys_model() && r is Some ==> final(modem).commands() == old(modem).commands().push("H"@),
            old(modem).obeys_model() && r is None ==> final(modem).commands() == old(modem).commands(),
    {
        let now = nanos_since(&self.epoch);
        self.handle_urc_at(line, now, modem)
    }

    /// Drive the state machine clock, reading it, while deferring IM delivery.
    pub fn tick_deferred<M: ModemPort + ?Sized>(&mut self, modem: &mut M) -> (r: Option<String>)
        requires
            old(self).wf(),
        ensures
            final(self).wf(),
            exists|now: u64| {
                &&& #[trigger] spec_tick(old(self).state(), now).0 == final(self).state()
                &&& match spec_tick(old(self).state(), now).1 {
                    Some(t) => r matches Some(x) && x@ == t,
                    None => r is None,
                }
            },
            old(modem).obeys_model() && r is Some ==> final(modem).commands() == old(modem).commands().push("H"@),
            old(modem).obeys_model() && r is None ==> final(modem).commands() == old(modem).commands(),
    {
        let now = nanos_since(&self.epoch);
        self.tick_at(now, modem)
    }
}

impl Default for CallHandler {
    fn default() -> (r: Self)
        ensures
            r.state() == SpecCallState::Idle,
            r.wf(),
    {
        Self::new()
    }
}

/// A ring during the cool-down is ignored: it neither rings again nor notifies.
pub proof fn lemma_ring_ignored_in_cooldown(until: u64, line: Seq<char>, now: u64)
    requires
        starts_with(line, "RING"@),
    ensures
        spec_handle_urc(SpecCallState::Cooldown { until }, line, now) == (
            SpecCallState::Cooldown { until },
            None::<Seq<char>>,
        ),
{
}

/// Each call is notified once: after a notice the handler is cooling down, and a second
/// caller-id line then sends nothing.
pub proof fn lemma_one_notice_per_call(s: SpecCallState, line: Seq<char>, now: u64, line2: Seq<char>, now2: u64)
    requires
        spec_handle_urc(s, line, now).1 is Some,
        !starts_with(line2, "RING"@),
    ensures
        spec_handle_urc(spec_handle_urc(s, line, now).0, line2, now2).1 is None,
{
}

/// Feeding URC lines one after another, each with its clock reading: the state after
/// them and the number of notices sent.
pub open spec fn feed_urcs(s: SpecCallState, lines: Seq<Seq<char>>, nows: Seq<u64>) -> (SpecCallState, nat)
    decreases lines.len(),
{
    if lines.len() == 0 || nows.len() == 0 {
        (s, 0)
    } else {
        let (p, n) = feed_urcs(s, lines.drop_last(), nows.drop_last());
        let (q, o) = spec_handle_urc(p, lines.last(), nows.last());
        (q, n + if o is Some { 1nat } else { 0nat })
    }
}

/// The cool-down holds over any run of URC lines: once a call was handled, lines other
/// than `NO CARRIER` (rings and caller ids of later calls among them) keep the handler
/// cooling down until the same moment and send no notice, so no call is hung up or
/// reported until the cool-down ends or the line is released; a tick before the end
/// keeps it too.
pub proof fn lemma_cooldown_quiet(until: u64, lines: Seq<Seq<char>>, nows: Seq<u64>, now: u64)
    requires
        lines.len() == nows.len(),
        forall|i: int| 0 <= i < lines.len() ==> #[trigger] lines[i] != "NO CARRIER"@,
    ensures
        feed_urcs(SpecCallState::Cooldown { until }, lines, nows) == (SpecCallState::Cooldown { until }, 0nat),
        now < until ==> spec_tick(SpecCallState::Cooldown { until }, now) == (
            SpecCallState::Cooldown { until },
            None::<Seq<char>>,
        ),
    decreases lines.len(),
{
    if lines.len() > 0 {
        assert forall|i: int| 0 <= i < lines.drop_last().len() implies #[trigger] lines.drop_last()[i] != "NO CARRIER"@ by {
            assert(lines.drop_last()[i] == lines[i]);
        }
        lemma_cooldown_quiet(until, lines.drop_last(), nows.drop_last(), now);
        assert(lines.last() == lines[lines.len() - 1]);
    }
}

} // verus!
