//! Mock implementations of modem and message-sink boundaries.

use crate::im::{InlineKeyboard, MessageFormat, MessageId, MessageSink, MessengerError};
use crate::modem::a76xx::at::UartPort;
use crate::modem::{at_reply_view, AtResponse, AtTransport, ModemError, ModemPort};
use crate::strutil::{string_views, utf8_str, chars_contain, new_string, push_str, str_eq, str_to_chars, to_owned_string, spec_contains};
use core::time::Duration;
use std::collections::VecDeque;
use vstd::prelude::*;
use vstd::string::StringSliceAdditionalSpecFns;

verus! {

// ---------------------------------------------------------------------------
// MockUart
// ---------------------------------------------------------------------------

/// Byte-level UART mock for driving an `AtPort` without hardware.
///
/// On real hardware the modem answers only after it receives a command, and the port
/// drains the UART before writing one, so answers must not be visible early:
/// - `feed` / `feed_line`: bytes readable at once (URCs that precede a command);
/// - `queue_response` / `queue_response_line`: bytes that become readable on the next
///   `write_all` (one batch per write, in order; `finish_response` closes a batch).
pub struct MockUart {
    rx: VecDeque<u8>,
    /// Response batches, each released into `rx` by one `write_all`.
    write_responses: VecDeque<Vec<u8>>,
    /// The batch being built by `queue_response*`.
    pending_response: Vec<u8>,
    pub tx: Vec<u8>,
}

impl MockUart {
    /// The bytes readable now, in order.
    pub closed spec fn readable(&self) -> Seq<u8> {
        self.rx@
    }

    /// The closed response batches, in order.
    pub closed spec fn batches(&self) -> Seq<Seq<u8>> {
        self.write_responses@.map_values(|b: Vec<u8>| b@)
    }

    /// The batch still open.
    pub closed spec fn open_batch(&self) -> Seq<u8> {
        self.pending_response@
    }

    /// A mock with nothing to read and nothing written.
    pub fn new() -> (r: Self)
        ensures
            r.readable().len() == 0,
            r.batches().len() == 0,
            r.open_batch().len() == 0,
            r.written().len() == 0,
            r.never_fails(),
            r.obeys_model(),
    {
        let r = MockUart { rx: VecDeque::new(), write_responses: VecDeque::new(), pending_response: Vec::new(), tx: Vec::new() };
        assert(r.batches() =~= Seq::<Seq<u8>>::empty());
        r
    }

    /// Makes `data` readable at once.
    pub fn feed(&mut self, data: &[u8])
        ensures
            final(self).readable() == old(self).readable() + data@,
            final(self).batches() == old(self).batches(),
            final(self).open_batch() == old(self).open_batch(),
            final(self).written() == old(self).written(),
    {
        let mut i: usize = 0;
        while i < data.len()
            invariant
                i <= data@.len(),
                self.rx@ == old(self).rx@ + data@.take(i as int),
                self.write_responses@ == old(self).write_responses@,
                self.pending_response@ == old(self).pending_response@,
                self.tx@ == old(self).tx@,
            decreases data@.len() - i,
        {
            self.rx.push_back(data[i]);
            i = i + 1;
            assert(data@.take(i as int) =~= data@.take(i - 1).push(data@[i - 1]));
        }
        assert(data@.take(data@.len() as int) =~= data@);
    }

    /// Makes `line` and `\r\n` readable at once.
    pub fn feed_line(&mut self, line: &str)
        ensures
            final(self).readable() == old(self).readable() + line.spec_bytes() + seq![13u8, 10u8],
            final(self).batches() == old(self).batches(),
            final(self).open_batch() == old(self).open_batch(),
            final(self).written() == old(self).written(),
    {
        self.feed(line.as_bytes());
        self.feed(&[13u8, 10u8]);
    }

    /// Appends `data` to the open response batch.
    pub fn queue_response(&mut self, data: &[u8])
        ensures
            final(self).readable() == old(self).readable(),
            final(self).batches() == old(self).batches(),
            final(self).open_batch() == old(self).open_batch() + data@,
            final(self).written() == old(self).written(),
    {
        let mut i: usize = 0;
        while i < data.len()
            invariant
                i <= data@.len(),
                self.pending_response@ == old(self).pending_response@ + data@.take(i as int),
                self.rx@ == old(self).rx@,
                self.write_responses@ == old(self).write_responses@,
                self.tx@ == old(self).tx@,
            decreases data@.len() - i,
        {
            self.pending_response.push(data[i]);
            i = i + 1;
            assert(data@.take(i as int) =~= data@.take(i - 1).push(data@[i - 1]));
        }
        assert(data@.take(data@.len() as int) =~= data@);
    }

    /// Appends `line` and `\r\n` to the open response batch.
    pub fn queue_response_line(&mut self, line: &str)
        ensures
            final(self).readable() == old(self).readable(),
            final(self).batches() == old(self).batches(),
            final(self).open_batch() == old(self).open_batch() + line.spec_bytes() + seq![13u8, 10u8],
            final(self).written() == old(self).written(),
    {
        self.queue_response(line.as_bytes());
        self.queue_response(&[13u8, 10u8]);
    }

    /// Closes the open response batch (an empty one is dropped), so that later
    /// `queue_response*` calls build the batch for the write after.
    pub fn finish_response(&mut self)
        ensures
            final(self).readable() == old(self).readable(),
            final(self).open_batch().len() == 0,
            final(self).batches() == (if old(self).open_batch().len() == 0 {
                old(self).batches()
            } else {
                old(self).batches().push(old(self).open_batch())
            }),
            final(self).written() == old(self).written(),
    {
        let mut batch: Vec<u8> = Vec::new();
        std::mem::swap(&mut batch, &mut self.pending_response);
        if batch.len() > 0 {
            let ghost before = self.write_responses@;
            self.write_responses.push_back(batch);
            assert(self.batches() =~= before.map_values(|b: Vec<u8>| b@).push(batch@));
        }
    }

    /// What has been written, as text; the bytes must be valid UTF-8.
    pub fn sent_str(&self) -> (r: &str)
        requires
            vstd::utf8::valid_utf8(self.written()),
        ensures
            r@ == vstd::utf8::decode_utf8(self.written()),
    {
        match utf8_str(self.tx.as_slice()) {
            Some(s) => s,
            None => "",
        }
    }
}

impl UartPort for MockUart {
    closed spec fn obeys_model(&self) -> bool {
        true
    }

    closed spec fn written(&self) -> Seq<u8> {
        self.tx@
    }

    closed spec fn never_fails(&self) -> bool {
        true
    }

    closed spec fn rx(&self) -> Seq<u8> {
        self.rx@
    }

    /// The first closed batch, else the open one.
    closed spec fn next_reply(&self) -> Seq<u8> {
        if self.write_responses@.len() > 0 {
            self.write_responses@[0]@
        } else {
            self.pending_response@
        }
    }

    fn read_byte(&mut self, _ticks: u32) -> (r: Option<u8>) {
        self.rx.pop_front()
    }

    fn write_all(&mut self, data: &[u8]) -> (r: Result<(), ModemError>)
        ensures
            r is Ok,
    {
        let mut i: usize = 0;
        while i < data.len()
            invariant
                i <= data@.len(),
                self.tx@ == old(self).tx@ + data@.take(i as int),
                self.rx@ == old(self).rx@,
                self.write_responses@ == old(self).write_responses@,
                self.pending_response@ == old(self).pending_response@,
            decreases data@.len() - i,
        {
            self.tx.push(data[i]);
            i = i + 1;
            assert(data@.take(i as int) =~= data@.take(i - 1).push(data@[i - 1]));
        }
        assert(data@.take(data@.len() as int) =~= data@);
        let ghost wr0 = self.write_responses@;
        self.finish_response();
        proof {
            if wr0.len() > 0 {
                assert(self.batches()[0] == old(self).batches()[0]);
            }
        }
        let ghost wr1 = self.write_responses@;
        match self.write_responses.pop_front() {
            Some(batch) => {
                proof {
                    assert(batch == wr1[0]);
                    assert(self.batches().len() >= 0);
                    assert(wr1.map_values(|b: Vec<u8>| b@)[0] == wr1[0]@);
                    assert(batch@ == old(self).next_reply()) by {
                        if wr0.len() > 0 {
                            assert(wr0.map_values(|b: Vec<u8>| b@)[0] == wr0[0]@);
                            assert(old(self).batches()[0] == wr0[0]@);
                        } else {
                            assert(old(self).batches().len() == 0);
                            assert(old(self).open_batch().len() > 0);
                        }
                    }
                }
                let mut j: usize = 0;
                while j < batch.len()
                    invariant
                        j <= batch@.len(),
                        self.tx@ == old(self).tx@ + data@,
                        old(self).rx@.is_prefix_of(self.rx@),
                        self.rx@ == old(self).rx@ + batch@.take(j as int),
                    decreases batch@.len() - j,
                {
                    let ghost before = self.rx@;
                    self.rx.push_back(batch[j]);
                    assert(self.rx@.take(old(self).rx@.len() as int) =~= before.take(old(self).rx@.len() as int));
                    assert(batch@.take(j + 1) =~= batch@.take(j as int).push(batch@[j as int]));
                    j = j + 1;
                }
                assert(batch@.take(batch@.len() as int) =~= batch@);
            },
            None => {
                assert(wr1.len() == 0);
                assert(wr1.map_values(|b: Vec<u8>| b@).len() == 0);
                assert(old(self).open_batch().len() == 0);
                assert(old(self).batches().len() == 0);
                assert(wr0.len() == 0);
                assert(old(self).next_reply() =~= Seq::<u8>::empty());
                assert(self.rx@ =~= old(self).rx@ + Seq::<u8>::empty());
            },
        }
        Ok(())
    }
}

impl Default for MockUart {
    fn default() -> (r: Self)
        ensures
            r.readable().len() == 0,
            r.batches().len() == 0,
            r.open_batch().len() == 0,
            r.written().len() == 0,
    {
        Self::new()
    }
}

/// A scripted AT command/response pair.
pub struct AtScript {
    /// What comes after "AT" (without CRLF).
    pub command_suffix: String,
    pub response_body: String,
    pub ok: bool,
}

/// Programmable modem mock.
///
/// Feed it a script of (command, response) pairs; each `send_at` consumes the next
/// step. A command other than the scripted one is answered with an AT error naming
/// both. `check_consumed` reports unconsumed steps.
pub struct ScriptedModem {
    script: VecDeque<AtScript>,
    urc_queue: VecDeque<String>,
    /// The PDUs sent, as (hex, TPDU length).
    pub sent_pdus: Vec<(String, u8)>,
    pub hang_up_count: usize,
    /// The commands received, in order.
    issued: Vec<String>,
    /// What `send_at` answered, in order.
    answered: Ghost<Seq<Option<(bool, Seq<char>)>>>,
    /// The errors `send_at` handed back, in order.
    failed: Ghost<Seq<ModemError>>,
}

impl ScriptedModem {
    /// The scripted steps still to come, as (command, body, ok).
    pub closed spec fn script(&self) -> Seq<(Seq<char>, Seq<char>, bool)> {
        self.script@.map_values(|s: AtScript| (s.command_suffix@, s.response_body@, s.ok))
    }

    /// The URCs still to be polled.
    pub closed spec fn urcs(&self) -> Seq<Seq<char>> {
        self.urc_queue@.map_values(|s: String| s@)
    }

    /// The PDUs sent, as (hex, TPDU length).
    pub closed spec fn pdus(&self) -> Seq<(String, u8)> {
        self.sent_pdus@
    }

    /// The number of hang-ups.
    pub closed spec fn hangups(&self) -> usize {
        self.hang_up_count
    }

    /// A modem with an empty script.
    pub fn new() -> (r: Self)
        ensures
            r.script().len() == 0,
            r.urcs().len() == 0,
            r.pdus().len() == 0,
            r.hangups() == 0,
            r.commands().len() == 0,
            r.replies().len() == 0,
            r.obeys_model(),
    {
        let r = ScriptedModem {
            script: VecDeque::new(),
            urc_queue: VecDeque::new(),
            sent_pdus: Vec::new(),
            hang_up_count: 0,
            issued: Vec::new(),
            answered: Ghost(Seq::empty()),
            failed: Ghost(Seq::empty()),
        };
        assert(r.commands() =~= Seq::<Seq<char>>::empty());
        assert(r.script() =~= Seq::<(Seq<char>, Seq<char>, bool)>::empty());
        assert(r.urcs() =~= Seq::<Seq<char>>::empty());
        r
    }

    /// Push an expected (command_suffix, body, ok) interaction.
    pub fn expect(self, cmd: &str, body: &str, ok: bool) -> (r: Self)
        ensures
            r.script() == self.script().push((cmd@, body@, ok)),
            r.replies() == self.replies(),
            r.commands() == self.commands(),
            r.urcs() == self.urcs(),
            r.pdus() == self.pdus(),
            r.hangups() == self.hangups(),
    {
        let mut s = self;
        let ghost before = s.script@;
        s.script.push_back(AtScript { command_suffix: to_owned_string(cmd), response_body: to_owned_string(body), ok });
        assert(s.script() =~= self.script().push((cmd@, body@, ok))) by {
            assert(s.script@ == before.push(s.script@.last()));
        }
        s
    }

    /// Push a URC that will be returned by the next `poll_urc()`.
    pub fn push_urc(self, urc: &str) -> (r: Self)
        ensures
            r.urcs() == self.urcs().push(urc@),
            r.script() == self.script(),
            r.pdus() == self.pdus(),
            r.hangups() == self.hangups(),
    {
        let mut s = self;
        s.inject_urc(urc);
        s
    }

    /// Inject a URC at runtime (after construction).
    pub fn inject_urc(&mut self, urc: &str)
        ensures
            final(self).urcs() == old(self).urcs().push(urc@),
            final(self).script() == old(self).script(),
            final(self).pdus() == old(self).pdus(),
            final(self).hangups() == old(self).hangups(),
    {
        let ghost before = self.urc_queue@;
        self.urc_queue.push_back(to_owned_string(urc));
        assert(self.urcs() =~= old(self).urcs().push(urc@));
    }

    /// How many PDUs were sent.
    pub fn sent_pdu_count(&self) -> (r: usize)
        ensures
            r == self.pdus().len(),
    {
        self.sent_pdus.len()
    }

    /// How many times the modem hung up.
    pub fn hang_ups(&self) -> (r: usize)
        ensures
            r == self.hangups(),
    {
        self.hang_up_count
    }

    /// Whether every scripted step was consumed; otherwise the message lists how many
    /// remain.
    pub fn check_consumed(&self) -> (r: Result<(), String>)
        ensures
            r is Ok <==> self.script().len() == 0,
    {
        if self.script.len() == 0 {
            assert(self.script().len() == 0);
            Ok(())
        } else {
            let mut m = new_string();
            push_str(&mut m, "ScriptedModem: ");
            crate::strutil::push_decimal(&mut m, self.script.len() as u64);
            push_str(&mut m, " unconsumed script steps");
            Err(m)
        }
    }
}

impl ScriptedModem {
    /// The scripted answer to `cmd`, with `cmd` recorded as issued.
    fn scripted_reply(&mut self, cmd: &str) -> (r: Result<AtResponse, ModemError>)
        ensures
            string_views(final(self).issued@) == string_views(old(self).issued@).push(cmd@),
            final(self).answered == old(self).answered,
            final(self).failed == old(self).failed,
            final(self).urcs() == old(self).urcs(),
            final(self).pdus() == old(self).pdus(),
            final(self).hangups() == old(self).hangups(),
            old(self).script().len() == 0 ==> r is Err && final(self).script() == old(self).script(),
            old(self).script().len() > 0 ==> final(self).script() == old(self).script().drop_first(),
            old(self).script().len() > 0 && old(self).script()[0].0 == cmd@ ==> (r matches Ok(a) && a.body@
                == old(self).script()[0].1 && a.ok == old(self).script()[0].2),
            old(self).script().len() > 0 && old(self).script()[0].0 != cmd@ ==> r is Err,
    {
        let ghost sc = self.script@;
        let ghost before = self.issued@;
        self.issued.push(to_owned_string(cmd));
        assert(string_views(self.issued@) =~= string_views(before).push(cmd@));
        let popped = self.script.pop_front();
        proof {
            if sc.len() > 0 {
                assert(self.script@ =~= sc.drop_first());
                assert(self.script() =~= old(self).script().drop_first());
            }
        }
        match popped {
            None => {
                let mut m = new_string();
                push_str(&mut m, "unexpected AT command: AT");
                push_str(&mut m, cmd);
                Err(ModemError::AtError(m))
            },
            Some(step) => {
                if !str_eq(step.command_suffix.as_str(), cmd) {
                    let mut m = new_string();
                    push_str(&mut m, "ScriptedModem: expected AT");
                    push_str(&mut m, step.command_suffix.as_str());
                    push_str(&mut m, " but got AT");
                    push_str(&mut m, cmd);
                    Err(ModemError::AtError(m))
                } else {
                    Ok(AtResponse { body: step.response_body, ok: step.ok })
                }
            },
        }
    }

}

impl AtTransport for ScriptedModem {
    closed spec fn obeys_model(&self) -> bool {
        true
    }

    closed spec fn commands(&self) -> Seq<Seq<char>> {
        string_views(self.issued@)
    }

    closed spec fn replies(&self) -> Seq<Option<(bool, Seq<char>)>> {
        self.answered@
    }

    closed spec fn failures(&self) -> Seq<ModemError> {
        self.failed@
    }

    open spec fn scripted(&self) -> Seq<(Seq<char>, Seq<char>, bool)> {
        self.script()
    }

    /// Answers the next scripted step when it expects `cmd`, else fails; either way the
    /// step is used up.
    fn send_at(&mut self, cmd: &str) -> (r: Result<AtResponse, ModemError>)
        ensures
            final(self).urcs() == old(self).urcs(),
            final(self).pdus() == old(self).pdus(),
            final(self).hangups() == old(self).hangups(),
            old(self).script().len() == 0 ==> r is Err && final(self).script() == old(self).script(),
            old(self).script().len() > 0 ==> final(self).script() == old(self).script().drop_first(),
            old(self).script().len() > 0 && old(self).script()[0].0 == cmd@ ==> (r matches Ok(a) && a.body@
                == old(self).script()[0].1 && a.ok == old(self).script()[0].2),
            old(self).script().len() > 0 && old(self).script()[0].0 != cmd@ ==> r is Err,
    {
        let r = self.scripted_reply(cmd);
        self.answered = Ghost(self.answered@.push(at_reply_view(r)));
        self.failed = Ghost(
            match &r {
                Err(e) => self.failed@.push(*e),
                Ok(_) => self.failed@,
            },
        );
        r
    }

    fn poll_urc(&mut self) -> (r: Option<String>) {
        self.urc_queue.pop_front()
    }

    fn write_raw(&mut self, _data: &[u8]) -> (r: Result<(), ModemError>) {
        Err(ModemError::NotSupported)
    }

    fn wait_for_prompt(&mut self, _prompt: u8, _timeout: Duration) -> (r: bool) {
        false
    }
}

impl ModemPort for ScriptedModem {
    /// Records the PDU and answers message reference 1.
    fn send_pdu_sms(&mut self, hex: &str, tpdu_len: u8) -> (r: Result<u8, ModemError>)
        ensures
            final(self).pdus().len() == old(self).pdus().len() + 1,
            final(self).pdus().drop_last() == old(self).pdus(),
            final(self).pdus().last().0@ == hex@,
            final(self).pdus().last().1 == tpdu_len,
            final(self).script() == old(self).script(),
            final(self).urcs() == old(self).urcs(),
            final(self).hangups() == old(self).hangups(),
            r == Ok::<u8, ModemError>(1),
    {
        let ghost before = self.sent_pdus@;
        self.sent_pdus.push((to_owned_string(hex), tpdu_len));
        assert(self.sent_pdus@.drop_last() =~= before);
        Ok(1)
    }

    /// Counts the hang-up and logs it as the command `H`.
    fn hang_up(&mut self) -> (r: Result<(), ModemError>) {
        if self.hang_up_count < usize::MAX {
            self.hang_up_count = self.hang_up_count + 1;
        }
        let ghost before = self.issued@;
        self.issued.push(to_owned_string("H"));
        proof {
            reveal_strlit("H");
        }
        assert(string_views(self.issued@) =~= string_views(before).push("H"@));
        Ok(())
    }
}

impl Default for ScriptedModem {
    fn default() -> (r: Self)
        ensures
            r.script().len() == 0,
            r.urcs().len() == 0,
            r.pdus().len() == 0,
            r.hangups() == 0,
    {
        Self::new()
    }
}

/// Captured outbound message.
#[derive(Debug, Clone)]
pub struct SentMessage {
    pub text: String,
    pub id: MessageId,
    pub keyboard: Option<InlineKeyboard>,
    pub format: MessageFormat,
}

/// Captured edited message.
#[derive(Debug, Clone)]
pub struct EditedMessage {
    pub text: String,
    pub id: MessageId,
    pub keyboard: Option<InlineKeyboard>,
    pub format: MessageFormat,
}

/// Records sent and edited messages; message ids count up from 1000.
pub struct RecordingMessenger {
    pub sent: Vec<SentMessage>,
    edited: Vec<EditedMessage>,
    answered_callbacks: Vec<String>,
    next_id: i64,
}

impl RecordingMessenger {
    /// The sent messages, in order.
    pub closed spec fn sent_msgs(&self) -> Seq<SentMessage> {
        self.sent@
    }

    /// The edited messages, in order.
    pub closed spec fn edits(&self) -> Seq<EditedMessage> {
        self.edited@
    }

    /// Number of answered callbacks.
    pub closed spec fn answered(&self) -> nat {
        self.answered_callbacks@.len()
    }

    /// An empty recorder.
    pub fn new() -> (r: Self)
        ensures
            r.sent_msgs().len() == 0,
            r.edits().len() == 0,
            r.answered() == 0,
            r.never_fails(),
            r.obeys_model(),
    {
        RecordingMessenger { sent: Vec::new(), edited: Vec::new(), answered_callbacks: Vec::new(), next_id: 1000 }
    }

    /// The texts accepted for delivery are those of the sent messages.
    pub proof fn lemma_delivered_is_sent(&self)
        ensures
            self.delivered() == self.sent_msgs().map_values(|m: SentMessage| m.text@),
    {
    }

    pub fn sent_count(&self) -> (r: usize)
        ensures
            r == self.sent_msgs().len(),
    {
        self.sent.len()
    }

    pub fn last_sent(&self) -> (r: Option<&str>)
        ensures
            self.sent_msgs().len() == 0 ==> r is None,
            self.sent_msgs().len() > 0 ==> (r matches Some(t) && t@ == self.sent_msgs().last().text@),
    {
        if self.sent.len() == 0 {
            None
        } else {
            Some(self.sent[self.sent.len() - 1].text.as_str())
        }
    }

    pub fn last_sent_format(&self) -> (r: Option<MessageFormat>)
        ensures
            self.sent_msgs().len() == 0 ==> r is None,
            self.sent_msgs().len() > 0 ==> r == Some(self.sent_msgs().last().format),
    {
        if self.sent.len() == 0 {
            None
        } else {
            Some(self.sent[self.sent.len() - 1].format)
        }
    }

    pub fn last_sent_keyboard(&self) -> (r: Option<&InlineKeyboard>)
        ensures
            self.sent_msgs().len() == 0 ==> r is None,
            self.sent_msgs().len() > 0 ==> r == (match &self.sent_msgs().last().keyboard {
                Some(k) => Some(k),
                None => None::<&InlineKeyboard>,
            }),
    {
        if self.sent.len() == 0 {
            None
        } else {
            match &self.sent[self.sent.len() - 1].keyboard {
                Some(k) => Some(k),
                None => None,
            }
        }
    }

    pub fn contains_sent(&self, substr: &str) -> (r: bool)
        ensures
            r == exists|i: int| 0 <= i < self.sent_msgs().len() && spec_contains(#[trigger] self.sent_msgs()[i].text@, substr@),
    {
        let needle = str_to_chars(substr);
        let mut i: usize = 0;
        while i < self.sent.len()
            invariant
                i <= self.sent@.len(),
                needle@ == substr@,
                forall|k: int| 0 <= k < i ==> !spec_contains(#[trigger] self.sent@[k].text@, substr@),
            decreases self.sent@.len() - i,
        {
            let hay = str_to_chars(self.sent[i].text.as_str());
            if chars_contain(hay.as_slice(), needle.as_slice()) {
                return true;
            }
            i = i + 1;
        }
        false
    }

    pub fn edited_count(&self) -> (r: usize)
        ensures
            r == self.edits().len(),
    {
        self.edited.len()
    }

    pub fn last_edited(&self) -> (r: Option<&EditedMessage>)
        ensures
            self.edits().len() == 0 ==> r is None,
            self.edits().len() > 0 ==> r == Some(&self.edits().last()),
    {
        if self.edited.len() == 0 {
            None
        } else {
            Some(&self.edited[self.edited.len() - 1])
        }
    }

    pub fn answered_callback_count(&self) -> (r: usize)
        ensures
            r == self.answered(),
    {
        self.answered_callbacks.len()
    }

    fn record_send(&mut self, text: &str, keyboard: Option<InlineKeyboard>, format: MessageFormat) -> (r: Result<MessageId, MessengerError>)
        ensures
            final(self).sent_msgs().len() == old(self).sent_msgs().len() + 1,
            final(self).sent_msgs().drop_last() == old(self).sent_msgs(),
            final(self).sent_msgs().last().text@ == text@,
            final(self).sent_msgs().last().format == format,
            final(self).edits() == old(self).edits(),
            final(self).answered() == old(self).answered(),
            r matches Ok(id) && id == final(self).sent_msgs().last().id,
    {
        let id = self.next_id;
        if self.next_id < i64::MAX {
            self.next_id = self.next_id + 1;
        }
        let ghost before = self.sent@;
        self.sent.push(SentMessage { text: to_owned_string(text), id, keyboard, format });
        assert(self.sent@.drop_last() =~= before);
        assert(self.sent@.map_values(|m: SentMessage| m.text@) =~= before.map_values(|m: SentMessage| m.text@).push(text@));
        Ok(id)
    }

    fn record_edit(&mut self, message_id: MessageId, text: &str, keyboard: Option<InlineKeyboard>, format: MessageFormat) -> (r: Result<(), MessengerError>)
        ensures
            final(self).edits().len() == old(self).edits().len() + 1,
            final(self).edits().last().text@ == text@,
            final(self).edits().last().id == message_id,
            final(self).edits().last().format == format,
            final(self).edits().drop_last() == old(self).edits(),
            final(self).sent_msgs() == old(self).sent_msgs(),
            final(self).answered() == old(self).answered(),
            r is Ok,
    {
        let ghost before = self.edited@;
        self.edited.push(EditedMessage { text: to_owned_string(text), id: message_id, keyboard, format });
        assert(self.edited@.drop_last() =~= before);
        Ok(())
    }
}

impl MessageSink for RecordingMessenger {
    closed spec fn obeys_model(&self) -> bool {
        true
    }

    closed spec fn delivered(&self) -> Seq<Seq<char>> {
        self.sent@.map_values(|m: SentMessage| m.text@)
    }

    closed spec fn formats(&self) -> Seq<MessageFormat> {
        self.sent@.map_values(|m: SentMessage| m.format)
    }

    closed spec fn never_fails(&self) -> bool {
        true
    }

    fn send_message(&mut self, text: &str) -> (r: Result<MessageId, MessengerError>) {
        self.record_send(text, None, MessageFormat::Plain)
    }

    fn send_message_with_format(&mut self, text: &str, format: MessageFormat) -> (r: Result<MessageId, MessengerError>) {
        self.record_send(text, None, format)
    }

    fn send_message_with_keyboard(&mut self, text: &str, keyboard: &InlineKeyboard) -> (r: Result<MessageId, MessengerError>) {
        self.record_send(text, Some(keyboard.clone()), MessageFormat::Plain)
    }

    fn send_message_with_keyboard_and_format(
        &mut self,
        text: &str,
        keyboard: &InlineKeyboard,
        format: MessageFormat,
    ) -> (r: Result<MessageId, MessengerError>) {
        self.record_send(text, Some(keyboard.clone()), format)
    }

    fn edit_message(&mut self, message_id: MessageId, text: &str) -> (r: Result<(), MessengerError>)
        ensures
            final(self).edits().len() == old(self).edits().len() + 1,
            final(self).edits().last().text@ == text@,
            final(self).edits().last().id == message_id,
            final(self).edits().last().format == MessageFormat::Plain,
            final(self).edits().drop_last() == old(self).edits(),
            final(self).sent_msgs() == old(self).sent_msgs(),
            final(self).answered() == old(self).answered(),
            r is Ok,
    {
        self.record_edit(message_id, text, None, MessageFormat::Plain)
    }

    fn edit_message_with_format(&mut self, message_id: MessageId, text: &str, format: MessageFormat) -> (r: Result<(), MessengerError>)
        ensures
            final(self).edits().len() == old(self).edits().len() + 1,
            final(self).edits().last().text@ == text@,
            final(self).edits().last().id == message_id,
            final(self).edits().last().format == format,
            final(self).edits().drop_last() == old(self).edits(),
            final(self).sent_msgs() == old(self).sent_msgs(),
            final(self).answered() == old(self).answered(),
            r is Ok,
    {
        self.record_edit(message_id, text, None, format)
    }

    fn edit_message_with_keyboard(
        &mut self,
        message_id: MessageId,
        text: &str,
        keyboard: &InlineKeyboard,
    ) -> (r: Result<(), MessengerError>)
        ensures
            final(self).edits().len() == old(self).edits().len() + 1,
            final(self).edits().last().text@ == text@,
            final(self).edits().last().id == message_id,
            final(self).edits().last().format == MessageFormat::Plain,
            final(self).edits().drop_last() == old(self).edits(),
            final(self).sent_msgs() == old(self).sent_msgs(),
            final(self).answered() == old(self).answered(),
            r is Ok,
    {
        self.record_edit(message_id, text, Some(keyboard.clone()), MessageFormat::Plain)
    }

    fn edit_message_with_keyboard_and_format(
        &mut self,
        message_id: MessageId,
        text: &str,
        keyboard: &InlineKeyboard,
        format: MessageFormat,
    ) -> (r: Result<(), MessengerError>)
        ensures
            final(self).edits().len() == old(self).edits().len() + 1,
            final(self).edits().last().text@ == text@,
            final(self).edits().last().id == message_id,
            final(self).edits().last().format == format,
            final(self).edits().drop_last() == old(self).edits(),
            final(self).sent_msgs() == old(self).sent_msgs(),
            final(self).answered() == old(self).answered(),
            r is Ok,
    {
        self.record_edit(message_id, text, Some(keyboard.clone()), format)
    }

    fn answer_callback_query(&mut self, callback_query_id: &str, _text: Option<&str>) -> (r: Result<(), MessengerError>) {
        self.answered_callbacks.push(to_owned_string(callback_query_id));
        Ok(())
    }
}

impl Default for RecordingMessenger {
    fn default() -> (r: Self)
        ensures
            r.sent_msgs().len() == 0,
            r.edits().len() == 0,
            r.answered() == 0,
    {
        Self::new()
    }
}

/// A messenger that always returns an HTTP error on `send_message`.
pub struct FailingMessenger;

impl MessageSink for FailingMessenger {
    closed spec fn obeys_model(&self) -> bool {
        true
    }

    closed spec fn delivered(&self) -> Seq<Seq<char>> {
        Seq::empty()
    }

    closed spec fn never_fails(&self) -> bool {
        false
    }

    fn send_message(&mut self, _text: &str) -> (r: Result<MessageId, MessengerError>)
        ensures
            r matches Err(MessengerError::Http(m)) && m@ == "simulated failure"@,
    {
        Err(MessengerError::Http(to_owned_string("simulated failure")))
    }

    fn send_message_with_format(&mut self, _text: &str, _format: MessageFormat) -> (r: Result<MessageId, MessengerError>)
        ensures
            r matches Err(MessengerError::Http(m)) && m@ == "simulated failure"@,
    {
        Err(MessengerError::Http(to_owned_string("simulated failure")))
    }

    fn send_message_with_keyboard_and_format(
        &mut self,
        _text: &str,
        _keyboard: &InlineKeyboard,
        _format: MessageFormat,
    ) -> (r: Result<MessageId, MessengerError>)
        ensures
            r matches Err(MessengerError::Http(m)) && m@ == "simulated failure"@,
    {
        Err(MessengerError::Http(to_owned_string("simulated failure")))
    }
}

} // verus!
