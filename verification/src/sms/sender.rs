//! The outbound SMS queue: replies to forwarded messages and `/send` commands are
//! queued by the bridge and sent one at a time by the main loop, with a retry after a
//! doubling delay when the modem refuses a message, and a limit on `/send` commands.

use crate::modem::ModemPort;
use crate::sms::codec::{build_sms_submit_pdus, spec_submit_pdus};
use crate::sms::concat::{clock_start, nanos_since};
use crate::sms::{CmdSendResult, MAX_SMS_PARTS};
use crate::strutil::to_owned_string;
use vstd::prelude::*;

verus! {

/// Messages the queue holds at most.
pub const SEND_QUEUE_CAPACITY: usize = 8;

/// Attempts made at one message before it is dropped.
pub const MAX_SEND_ATTEMPTS: u8 = 3;

/// Delay before the first retry (2 s); each later retry waits twice as long.
pub const RETRY_BASE_MS: u64 = 2000;

/// `/send` commands accepted at most within `RATE_WINDOW_MS`.
pub const RATE_MAX_SENDS: usize = 5;

/// The window of the `/send` limit (one minute).
pub const RATE_WINDOW_MS: u64 = 60_000;

/// A queued message as the proofs see it.
pub struct SpecOutbound {
    pub phone: Seq<char>,
    pub body: Seq<char>,
    pub ticket: u32,
    pub attempts: u8,
    pub next_try_ms: u64,
}

struct Outbound {
    phone: String,
    body: String,
    ticket: u32,
    attempts: u8,
    next_try_ms: u64,
}

impl Outbound {
    spec fn view(&self) -> SpecOutbound {
        SpecOutbound {
            phone: self.phone@,
            body: self.body@,
            ticket: self.ticket,
            attempts: self.attempts,
            next_try_ms: self.next_try_ms,
        }
    }
}

/// What one drain step did.
#[derive(Debug)]
pub enum DrainOutcome {
    /// Nothing was due.
    Idle,
    /// The first message was sent and left the queue.
    Sent { phone: String },
    /// The modem refused the first message; it stays for a later attempt.
    Retrying,
    /// The first message was given up (it cannot be encoded, or its attempts are used
    /// up) and left the queue.
    Dropped { phone: String },
}

impl DrainOutcome {
    /// Whether the step talked to the modem or changed the queue.
    pub fn attempted(&self) -> (r: bool)
        ensures
            r == !(self is Idle),
    {
        match self {
            DrainOutcome::Idle => false,
            _ => true,
        }
    }
}

/// The delay before the retry that follows failed attempt number `attempts`:
/// `RETRY_BASE_MS`, doubled for each earlier failure.
pub open spec fn retry_delay_ms(attempts: u8) -> u64 {
    if attempts <= 1 {
        2000
    } else {
        4000
    }
}

/// Whether a `/send` at `now` exceeds the limit, given the times of the last accepted
/// ones (oldest first, at most `RATE_MAX_SENDS`).
pub open spec fn spec_rate_limited(times: Seq<u64>, now: u64) -> bool {
    times.len() >= RATE_MAX_SENDS && now < times[0] + RATE_WINDOW_MS
}

/// The times kept after a `/send` is accepted at `now`: the newest `RATE_MAX_SENDS`.
pub open spec fn record_time(times: Seq<u64>, now: u64) -> Seq<u64> {
    if times.len() >= RATE_MAX_SENDS {
        times.skip(1).push(now)
    } else {
        times.push(now)
    }
}

/// The outbound SMS queue.
pub struct SmsSender {
    queue: Vec<Outbound>,
    next_ticket: u32,
    cmd_times: Vec<u64>,
    epoch: std::time::Instant,
}

impl SmsSender {
    /// The queued messages, oldest first.
    pub closed spec fn pending(&self) -> Seq<SpecOutbound> {
        self.queue@.map_values(|o: Outbound| o.view())
    }

    /// The queued messages as (phone, body), oldest first.
    pub open spec fn queued(&self) -> Seq<(Seq<char>, Seq<char>)> {
        self.pending().map_values(|o: SpecOutbound| (o.phone, o.body))
    }

    /// The ticket the next queued message gets.
    pub closed spec fn next_ticket_value(&self) -> u32 {
        self.next_ticket
    }

    /// When the last accepted `/send` commands were accepted, oldest first.
    pub closed spec fn command_times(&self) -> Seq<u64> {
        self.cmd_times@
    }

    /// The queue is within its capacity and the limit keeps at most its window of times.
    pub closed spec fn wf(&self) -> bool {
        &&& self.queue@.len() <= SEND_QUEUE_CAPACITY
        &&& self.cmd_times@.len() <= RATE_MAX_SENDS
    }

    /// A well-formed sender holds at most its capacity and at most `RATE_MAX_SENDS` times.
    pub proof fn lemma_wf_bounds(&self)
        requires
            self.wf(),
        ensures
            self.pending().len() <= SEND_QUEUE_CAPACITY,
            self.queued().len() <= SEND_QUEUE_CAPACITY,
            self.command_times().len() <= RATE_MAX_SENDS,
    {
    }

    /// An empty queue; tickets start at 1.
    pub fn new() -> (r: Self)
        ensures
            r.wf(),
            r.pending().len() == 0,
            r.next_ticket_value() == 1,
            r.command_times().len() == 0,
    {
        let r = SmsSender { queue: Vec::new(), next_ticket: 1, cmd_times: Vec::new(), epoch: clock_start() };
        assert(r.pending() =~= Seq::<SpecOutbound>::empty());
        r
    }

    /// Number of messages waiting.
    pub fn len(&self) -> (r: usize)
        ensures
            r == self.pending().len(),
    {
        self.queue.len()
    }

    /// The phone and body of the message at `i`, oldest first.
    pub fn message_at(&self, i: usize) -> (r: Option<(&str, &str)>)
        ensures
            i < self.pending().len() ==> (r matches Some(m) && m.0@ == self.pending()[i as int].phone
                && m.1@ == self.pending()[i as int].body),
            i >= self.pending().len() ==> r is None,
    {
        if i < self.queue.len() {
            assert(self.pending()[i as int] == self.queue@[i as int].view());
            Some((self.queue[i].phone.as_str(), self.queue[i].body.as_str()))
        } else {
            None
        }
    }

    fn push_message(&mut self, phone: String, body: String) -> (r: u32)
        requires
            old(self).wf(),
            old(self).pending().len() < SEND_QUEUE_CAPACITY,
        ensures
            final(self).wf(),
            r == old(self).next_ticket_value(),
            final(self).pending() == old(self).pending().push(
                SpecOutbound { phone: phone@, body: body@, ticket: r, attempts: 0, next_try_ms: 0 },
            ),
            final(self).next_ticket_value() == (if r == u32::MAX { 1 } else { r + 1 }),
            final(self).command_times() == old(self).command_times(),
    {
        let ticket = self.next_ticket;
        self.next_ticket = if self.next_ticket == u32::MAX { 1 } else { self.next_ticket + 1 };
        let ghost before = self.pending();
        let o = Outbound { phone, body, ticket, attempts: 0, next_try_ms: 0 };
        let ghost ov = o.view();
        self.queue.push(o);
        assert(self.pending() =~= before.push(ov));
        ticket
    }

    /// Queue a reply SMS; `None` when the queue is full.
    pub fn enqueue(&mut self, phone: String, body: String) -> (r: Option<u32>)
        requires
            old(self).wf(),
        ensures
            final(self).wf(),
            final(self).command_times() == old(self).command_times(),
            old(self).pending().len() >= SEND_QUEUE_CAPACITY <==> r is None,
            r is None ==> final(self).pending() == old(self).pending() && final(self).next_ticket_value()
                == old(self).next_ticket_value(),
            r matches Some(t) ==> t == old(self).next_ticket_value() && final(self).pending() == old(
                self,
            ).pending().push(SpecOutbound { phone: phone@, body: body@, ticket: t, attempts: 0, next_try_ms: 0 }),
            r is Some ==> final(self).queued() == old(self).queued().push((phone@, body@)),
            r is None ==> final(self).queued() == old(self).queued(),
    {
        if self.queue.len() >= SEND_QUEUE_CAPACITY {
            return None;
        }
        let ghost pv = phone@;
        let ghost bv = body@;
        let t = self.push_message(phone, body);
        assert(self.queued() =~= old(self).queued().push((pv, bv)));
        Some(t)
    }

    /// Queue an SMS requested by `/send` at `now_ms`: refused when `RATE_MAX_SENDS`
    /// commands were accepted within the last `RATE_WINDOW_MS`, or when the queue is full.
    pub fn enqueue_command_send_at(&mut self, phone: String, body: String, now_ms: u64) -> (r: CmdSendResult)
        requires
            old(self).wf(),
        ensures
            final(self).wf(),
            spec_rate_limited(old(self).command_times(), now_ms) ==> r is RateLimited && final(self).pending()
                == old(self).pending() && final(self).command_times() == old(self).command_times(),
            !spec_rate_limited(old(self).command_times(), now_ms) && old(self).pending().len()
                >= SEND_QUEUE_CAPACITY ==> r is QueueFull && final(self).pending() == old(self).pending()
                && final(self).command_times() == old(self).command_times(),
            !spec_rate_limited(old(self).command_times(), now_ms) && old(self).pending().len()
                < SEND_QUEUE_CAPACITY ==> r == CmdSendResult::Enqueued(old(self).next_ticket_value())
                && final(self).pending() == old(self).pending().push(
                SpecOutbound {
                    phone: phone@,
                    body: body@,
                    ticket: old(self).next_ticket_value(),
                    attempts: 0,
                    next_try_ms: 0,
                },
            ) && final(self).command_times() == record_time(old(self).command_times(), now_ms),
    {
        if self.cmd_times.len() >= RATE_MAX_SENDS {
            let t0 = self.cmd_times[0];
            if now_ms < t0 || now_ms - t0 < RATE_WINDOW_MS {
                return CmdSendResult::RateLimited;
            }
        }
        if self.queue.len() >= SEND_QUEUE_CAPACITY {
            return CmdSendResult::QueueFull;
        }
        let ticket = self.push_message(phone, body);
        let ghost before = self.cmd_times@;
        if self.cmd_times.len() >= RATE_MAX_SENDS {
            self.cmd_times.remove(0);
        }
        self.cmd_times.push(now_ms);
        assert(self.cmd_times@ =~= record_time(before, now_ms));
        CmdSendResult::Enqueued(ticket)
    }

    /// Milliseconds on the queue's clock.
    fn now_ms(&self) -> u64 {
        nanos_since(&self.epoch) / 1_000_000
    }

    /// Queue an SMS requested by `/send`, reading the clock; as
    /// `enqueue_command_send_at` at some time.
    pub fn enqueue_command_send(&mut self, phone: String, body: String) -> (r: CmdSendResult)
        requires
            old(self).wf(),
        ensures
            final(self).wf(),
            r is Enqueued ==> final(self).queued() == old(self).queued().push((phone@, body@)),
            !(r is Enqueued) ==> final(self).pending() == old(self).pending(),
            old(self).pending().len() >= SEND_QUEUE_CAPACITY ==> !(r is Enqueued),
            exists|now: u64| {
                &&& (#[trigger] spec_rate_limited(old(self).command_times(), now)) <==> r is RateLimited
                &&& !spec_rate_limited(old(self).command_times(), now) && old(self).pending().len()
                    < SEND_QUEUE_CAPACITY ==> r is Enqueued
                &&& r is Enqueued ==> final(self).command_times() == record_time(old(self).command_times(), now)
            },
            !(r is Enqueued) ==> final(self).command_times() == old(self).command_times(),
    {
        let now = self.now_ms();
        let ghost pv = phone@;
        let ghost bv = body@;
        let ghost old_pending = self.pending();
        let r = self.enqueue_command_send_at(phone, body, now);
        proof {
            if r is Enqueued {
                let o = SpecOutbound { phone: pv, body: bv, ticket: old(self).next_ticket_value(), attempts: 0, next_try_ms: 0 };
                assert(self.pending() == old_pending.push(o));
                assert(self.queued() =~= old(self).queued().push((pv, bv)));
            }
            assert(spec_rate_limited(old(self).command_times(), now) ==> r is RateLimited);
        }
        r
    }

    /// One send step at `now_ms`: nothing when the queue is empty or its first message
    /// is not due; else the first message is sent as SMS-SUBMIT PDUs (ticket as
    /// concatenation reference). All sent: it leaves the queue. Refused: it is retried
    /// after `retry_delay_ms`, or dropped once `MAX_SEND_ATTEMPTS` attempts failed. A
    /// message that cannot be encoded is dropped.
    pub fn drain_at<M: ModemPort + ?Sized>(&mut self, modem: &mut M, now_ms: u64) -> (r: DrainOutcome)
        requires
            old(self).wf(),
        ensures
            final(self).wf(),
            final(self).command_times() == old(self).command_times(),
            final(self).next_ticket_value() == old(self).next_ticket_value(),
            old(self).pending().len() == 0 ==> r is Idle && final(self).pending() == old(self).pending(),
            old(self).pending().len() > 0 && now_ms < old(self).pending()[0].next_try_ms ==> r is Idle
                && final(self).pending() == old(self).pending(),
            old(self).pending().len() > 0 && now_ms >= old(self).pending()[0].next_try_ms ==> {
                let f = old(self).pending()[0];
                let pdus = if f.body.len() < 0x0800_0000 {
                    spec_submit_pdus(f.phone, f.body, MAX_SMS_PARTS as int, false, f.ticket as u8)
                } else {
                    Seq::empty()
                };
                &&& !(r is Idle)
                &&& pdus.len() == 0 ==> r is Dropped
                &&& r matches DrainOutcome::Sent { phone } ==> phone@ == f.phone && pdus.len() > 0
                    && final(self).pending() == old(self).pending().skip(1)
                &&& r matches DrainOutcome::Dropped { phone } ==> phone@ == f.phone && (pdus.len() == 0
                    || f.attempts + 1 >= MAX_SEND_ATTEMPTS) && final(self).pending() == old(self).pending().skip(1)
                &&& r is Retrying ==> pdus.len() > 0 && f.attempts + 1 < MAX_SEND_ATTEMPTS
                    && final(self).pending() == old(self).pending().update(
                    0,
                    SpecOutbound {
                        phone: f.phone,
                        body: f.body,
                        ticket: f.ticket,
                        attempts: (f.attempts + 1) as u8,
                        next_try_ms: if now_ms > u64::MAX - retry_delay_ms((f.attempts + 1) as u8) {
                            u64::MAX
                        } else {
                            (now_ms + retry_delay_ms((f.attempts + 1) as u8)) as u64
                        },
                    },
                )
            },
    {
        if self.queue.len() == 0 {
            return DrainOutcome::Idle;
        }
        let ghost before = self.pending();
        assert(before[0] == self.queue@[0].view());
        if now_ms < self.queue[0].next_try_ms {
            return DrainOutcome::Idle;
        }
        let fits = self.queue[0].body.unicode_len() < 0x0800_0000;
        let pdus = if fits {
            build_sms_submit_pdus(
                self.queue[0].phone.as_str(),
                self.queue[0].body.as_str(),
                MAX_SMS_PARTS,
                false,
                self.queue[0].ticket as u8,
            )
        } else {
            Vec::new()
        };
        let mut ok = pdus.len() > 0;
        let mut i: usize = 0;
        while i < pdus.len() && ok
            invariant
                i <= pdus@.len(),
                ok ==> pdus@.len() > 0,
            decreases pdus@.len() - i,
        {
            match modem.send_pdu_sms(pdus[i].hex.as_str(), pdus[i].tpdu_len) {
                Ok(_) => {},
                Err(_) => {
                    ok = false;
                },
            }
            i = i + 1;
        }
        if ok {
            let o = self.queue.remove(0);
            assert(self.pending() =~= before.skip(1));
            return DrainOutcome::Sent { phone: o.phone };
        }
        let attempts = self.queue[0].attempts;
        let attempts_now: u8 = if attempts < 255 { attempts + 1 } else { 255 };
        if pdus.len() == 0 || attempts_now >= MAX_SEND_ATTEMPTS {
            let o = self.queue.remove(0);
            assert(self.pending() =~= before.skip(1));
            return DrainOutcome::Dropped { phone: o.phone };
        }
        let delay: u64 = if attempts_now <= 1 { RETRY_BASE_MS } else { RETRY_BASE_MS * 2 };
        let next = if now_ms > u64::MAX - delay { u64::MAX } else { now_ms + delay };
        let front = self.queue.remove(0);
        let updated = Outbound {
            phone: front.phone,
            body: front.body,
            ticket: front.ticket,
            attempts: attempts_now,
            next_try_ms: next,
        };
        let ghost uv = updated.view();
        self.queue.insert(0, updated);
        assert(self.pending() =~= before.update(0, uv));
        DrainOutcome::Retrying
    }

    /// One send step, reading the clock; as `drain_at` at some time.
    pub fn drain_once<M: ModemPort + ?Sized>(&mut self, modem: &mut M) -> (r: DrainOutcome)
        requires
            old(self).wf(),
        ensures
            final(self).wf(),
            old(self).pending().len() == 0 ==> r is Idle && final(self).pending() == old(self).pending(),
            r matches DrainOutcome::Sent { phone } ==> old(self).pending().len() > 0 && phone@ == old(
                self,
            ).pending()[0].phone && final(self).pending() == old(self).pending().skip(1),
            r matches DrainOutcome::Dropped { phone } ==> old(self).pending().len() > 0 && phone@ == old(
                self,
            ).pending()[0].phone && final(self).pending() == old(self).pending().skip(1),
            (r is Idle || r is Retrying) ==> final(self).queued() == old(self).queued(),
    {
        let now = self.now_ms();
        let ghost q0 = self.pending();
        let r = self.drain_at(modem, now);
        proof {
            if r is Retrying {
                assert(self.queued() =~= old(self).queued());
            }
        }
        r
    }
}

} // verus!
