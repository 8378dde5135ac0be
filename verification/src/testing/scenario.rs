//! Declarative scenarios for end-to-end tests: SMS PDUs are forwarded through the
//! bridge to a recording messenger, then the expectations are checked.

use crate::bridge::forwarder::{
    can_display, forward_sms, forward_text_of, parts_displayable, spec_blocklist, spec_forward_text, spec_is_blocked,
};
use crate::bridge::reply_router::ReplyRouter;
use crate::log_ring::LogRing;
use crate::persist::keys;
use crate::persist::mem::MemStore;
use crate::persist::{spec_load_bool, Store};
use crate::im::MessageSink;
use crate::sms::codec::{parse_sms_pdu, spec_parse_sms_pdu_hex};
use crate::sms::SmsMessage;
use crate::strutil::{new_string, push_decimal, push_str, spec_contains, spec_decimal, string_views, to_owned_string};
use crate::testing::mocks::{RecordingMessenger, ScriptedModem, SentMessage};
use vstd::prelude::*;

verus! {

/// An expectation checked after a scenario runs.
#[derive(Debug, Clone)]
pub enum Expectation {
    /// Some sent IM message contains the text.
    ImSentContains(String),
    /// Exactly this many IM messages were sent.
    ImSentCount(usize),
    /// No IM message was sent.
    ImSentNone,
    /// Exactly this many PDUs were sent through the modem.
    PdusSentCount(usize),
    /// The modem hung up exactly this many times.
    HangUpCount(usize),
}

/// An end-to-end test scenario.
pub struct Scenario {
    name: String,
    modem: ScriptedModem,
    messenger: RecordingMessenger,
    store: MemStore,
    expectations: Vec<Expectation>,
    sms_pdu_inputs: Vec<String>,
}

/// Whether the expectations on the modem hold of it.
pub open spec fn modem_expectations_hold(es: Seq<Expectation>, modem: ScriptedModem) -> bool {
    forall|i: int|
        0 <= i < es.len() ==> match #[trigger] es[i] {
            Expectation::PdusSentCount(n) => modem.pdus().len() == n,
            Expectation::HangUpCount(n) => modem.hangups() == n,
            _ => true,
        }
}

/// Whether one expectation holds of the modem and the messages sent.
pub open spec fn expectation_holds(e: Expectation, modem: ScriptedModem, sent: Seq<Seq<char>>) -> bool {
    match e {
        Expectation::ImSentContains(t) => exists|i: int| 0 <= i < sent.len() && spec_contains(#[trigger] sent[i], t@),
        Expectation::ImSentCount(n) => sent.len() == n,
        Expectation::ImSentNone => sent.len() == 0,
        Expectation::PdusSentCount(n) => modem.pdus().len() == n,
        Expectation::HangUpCount(n) => modem.hangups() == n,
    }
}

/// The failure message of an expectation in the scenario named `name`.
pub open spec fn expectation_failure(name: Seq<char>, e: Expectation, modem: ScriptedModem, sent: Seq<Seq<char>>) -> Seq<char> {
    "["@ + name + "] "@ + match e {
        Expectation::ImSentContains(t) => "expected an IM message containing "@ + t@,
        Expectation::ImSentCount(n) => "expected "@ + spec_decimal(n as nat) + " IM messages, got "@ + spec_decimal(
            sent.len(),
        ),
        Expectation::ImSentNone => "expected no IM messages, got "@ + spec_decimal(sent.len()),
        Expectation::PdusSentCount(n) => "expected "@ + spec_decimal(n as nat) + " PDUs sent, got "@ + spec_decimal(
            modem.pdus().len(),
        ),
        Expectation::HangUpCount(n) => "expected "@ + spec_decimal(n as nat) + " hang_ups, got "@ + spec_decimal(
            modem.hangups() as nat,
        ),
    }
}

/// Whether an input PDU parses and its sender and time stamp can be displayed.
pub open spec fn input_forwardable(hex: Seq<char>) -> bool {
    match spec_parse_sms_pdu_hex(hex) {
        Ok(p) => parts_displayable(p.sender, p.timestamp),
        Err(_) => false,
    }
}

/// The IM text forwarded for an input PDU.
pub open spec fn input_text(hex: Seq<char>) -> Seq<char> {
    match spec_parse_sms_pdu_hex(hex) {
        Ok(p) => forward_text_of(p.sender, p.timestamp, p.content),
        Err(_) => Seq::empty(),
    }
}

/// The IM texts forwarded for a list of input PDUs.
pub open spec fn forwarded_texts(inputs: Seq<Seq<char>>) -> Seq<Seq<char>> {
    inputs.map_values(|h: Seq<char>| input_text(h))
}

/// A store that neither pauses forwarding nor blocks anyone forwards every SMS.
proof fn lemma_fresh_forwards(stored: Map<Seq<char>, Seq<u8>>, sender: Seq<char>)
    requires
        !stored.contains_key(keys::FWD_ENABLED@),
        !stored.contains_key(keys::BLOCK_LIST@),
    ensures
        !(spec_load_bool(stored, keys::FWD_ENABLED@) == Some(false) || spec_is_blocked(stored, sender)),
{
    assert(spec_blocklist(stored) =~= Seq::<Seq<char>>::empty());
}

/// Saving the reply table keeps a store fresh.
proof fn lemma_fresh_kept(a: Map<Seq<char>, Seq<u8>>, b: Map<Seq<char>, Seq<u8>>)
    requires
        !a.contains_key(keys::FWD_ENABLED@),
        !a.contains_key(keys::BLOCK_LIST@),
        b.remove(keys::REPLY_MAP@) == a.remove(keys::REPLY_MAP@),
    ensures
        !b.contains_key(keys::FWD_ENABLED@),
        !b.contains_key(keys::BLOCK_LIST@),
{
    lemma_keys_distinct();
    assert(!b.remove(keys::REPLY_MAP@).contains_key(keys::FWD_ENABLED@));
    assert(!b.remove(keys::REPLY_MAP@).contains_key(keys::BLOCK_LIST@));
}

/// The store keys that pause forwarding and block senders are different from the one
/// that holds the reply table.
proof fn lemma_keys_distinct()
    ensures
        keys::REPLY_MAP@ != keys::FWD_ENABLED@,
        keys::REPLY_MAP@ != keys::BLOCK_LIST@,
{
    reveal_strlit("reply_map");
    reveal_strlit("fwd_enabled");
    reveal_strlit("block_list");
    assert(keys::REPLY_MAP@.len() != keys::FWD_ENABLED@.len());
    assert(keys::REPLY_MAP@.len() != keys::BLOCK_LIST@.len());
}

impl Scenario {
    /// The texts of the IM messages sent so far.
    pub closed spec fn sent_texts(&self) -> Seq<Seq<char>> {
        self.messenger.sent_msgs().map_values(|m: SentMessage| m.text@)
    }

    /// The messenger and the store never fail, and the store neither pauses forwarding
    /// nor blocks a sender: what every scenario starts from.
    pub closed spec fn fresh(&self) -> bool {
        &&& self.store.never_fails()
        &&& self.store.obeys_model()
        &&& self.messenger.never_fails()
        &&& self.messenger.obeys_model()
        &&& !self.store.stored().contains_key(keys::FWD_ENABLED@)
        &&& !self.store.stored().contains_key(keys::BLOCK_LIST@)
    }

    /// The scenario's name.
    pub closed spec fn name(&self) -> Seq<char> {
        self.name@
    }

    /// The PDUs to forward, in order.
    pub closed spec fn inputs(&self) -> Seq<Seq<char>> {
        string_views(self.sms_pdu_inputs@)
    }

    /// The expectations, in order.
    pub closed spec fn expectations(&self) -> Seq<Expectation> {
        self.expectations@
    }

    /// The scripted modem.
    pub closed spec fn modem(&self) -> ScriptedModem {
        self.modem
    }

    /// An empty scenario named `name`.
    pub fn new(name: &str) -> (r: Self)
        ensures
            r.name() == name@,
            r.fresh(),
            r.sent_texts().len() == 0,
            r.inputs().len() == 0,
            r.expectations().len() == 0,
            r.modem().script().len() == 0,
            r.modem().urcs().len() == 0,
            r.modem().pdus().len() == 0,
            r.modem().hangups() == 0,
    {
        let r = Scenario {
            name: to_owned_string(name),
            modem: ScriptedModem::new(),
            messenger: RecordingMessenger::new(),
            store: MemStore::new(),
            expectations: Vec::new(),
            sms_pdu_inputs: Vec::new(),
        };
        assert(r.inputs() =~= Seq::<Seq<char>>::empty());
        r
    }

    /// Adds a URC that the modem will report.
    pub fn modem_urc(self, urc: &str) -> (r: Self)
        ensures
            r.fresh() == self.fresh(),
            r.sent_texts() == self.sent_texts(),
            r.name() == self.name(),
            r.modem().urcs() == self.modem().urcs().push(urc@),
            r.modem().script() == self.modem().script(),
            r.modem().pdus() == self.modem().pdus(),
            r.modem().hangups() == self.modem().hangups(),
            r.inputs() == self.inputs(),
            r.expectations() == self.expectations(),
    {
        let mut s = self;
        s.modem.inject_urc(urc);
        s
    }

    /// Adds a raw PDU (hex) to forward.
    pub fn with_pdu(self, hex: &str) -> (r: Self)
        ensures
            r.fresh() == self.fresh(),
            r.sent_texts() == self.sent_texts(),
            r.name() == self.name(),
            r.inputs() == self.inputs().push(hex@),
            r.expectations() == self.expectations(),
            r.modem() == self.modem(),
    {
        let mut s = self;
        let ghost before = s.sms_pdu_inputs@;
        s.sms_pdu_inputs.push(to_owned_string(hex));
        assert(s.inputs() =~= string_views(before).push(hex@));
        s
    }

    fn expect(self, e: Expectation) -> (r: Self)
        ensures
            r.fresh() == self.fresh(),
            r.sent_texts() == self.sent_texts(),
            r.name() == self.name(),
            r.expectations() == self.expectations().push(e),
            r.inputs() == self.inputs(),
            r.modem() == self.modem(),
    {
        let mut s = self;
        s.expectations.push(e);
        s
    }

    /// Expects some sent IM message to contain `substr`.
    pub fn expect_im_sent_contains(self, substr: &str) -> (r: Self)
        ensures
            r.fresh() == self.fresh(),
            r.sent_texts() == self.sent_texts(),
            r.name() == self.name(),
            r.expectations().len() == self.expectations().len() + 1,
            r.expectations().last() matches Expectation::ImSentContains(t) && t@ == substr@,
            r.expectations().drop_last() == self.expectations(),
            r.inputs() == self.inputs(),
            r.modem() == self.modem(),
    {
        let r = self.expect(Expectation::ImSentContains(to_owned_string(substr)));
        assert(r.expectations().drop_last() =~= self.expectations());
        r
    }

    /// Expects exactly `n` IM messages.
    pub fn expect_im_sent_count(self, n: usize) -> (r: Self)
        ensures
            r.fresh() == self.fresh(),
            r.sent_texts() == self.sent_texts(),
            r.name() == self.name(),
            r.expectations() == self.expectations().push(Expectation::ImSentCount(n)),
            r.inputs() == self.inputs(),
            r.modem() == self.modem(),
    {
        self.expect(Expectation::ImSentCount(n))
    }

    /// Expects no IM message.
    pub fn expect_im_sent_none(self) -> (r: Self)
        ensures
            r.fresh() == self.fresh(),
            r.sent_texts() == self.sent_texts(),
            r.name() == self.name(),
            r.expectations() == self.expectations().push(Expectation::ImSentNone),
            r.inputs() == self.inputs(),
            r.modem() == self.modem(),
    {
        self.expect(Expectation::ImSentNone)
    }

    /// Expects exactly `n` PDUs sent through the modem.
    pub fn expect_pdus_sent(self, n: usize) -> (r: Self)
        ensures
            r.fresh() == self.fresh(),
            r.sent_texts() == self.sent_texts(),
            r.name() == self.name(),
            r.expectations() == self.expectations().push(Expectation::PdusSentCount(n)),
            r.inputs() == self.inputs(),
            r.modem() == self.modem(),
    {
        self.expect(Expectation::PdusSentCount(n))
    }

    /// Expects exactly `n` hang-ups.
    pub fn expect_hangup_count(self, n: usize) -> (r: Self)
        ensures
            r.fresh() == self.fresh(),
            r.sent_texts() == self.sent_texts(),
            r.name() == self.name(),
            r.expectations() == self.expectations().push(Expectation::HangUpCount(n)),
            r.inputs() == self.inputs(),
            r.modem() == self.modem(),
    {
        self.expect(Expectation::HangUpCount(n))
    }

    /// The failure message of one expectation, `None` when it holds.
    fn check(&self, e: &Expectation) -> (r: Option<String>)
        ensures
            r is None <==> expectation_holds(*e, self.modem, self.sent_texts()),
            r matches Some(t) ==> t@ == expectation_failure(self.name@, *e, self.modem, self.sent_texts()),
    {
        let mut m = new_string();
        push_str(&mut m, "[");
        push_str(&mut m, self.name.as_str());
        push_str(&mut m, "] ");
        match e {
            Expectation::ImSentContains(s) => {
                let found = self.messenger.contains_sent(s.as_str());
                proof {
                    let st = self.sent_texts();
                    let ms = self.messenger.sent_msgs();
                    assert forall|i: int| 0 <= i < st.len() implies #[trigger] st[i] == ms[i].text@ by {}
                    if found {
                        let i = choose|i: int| 0 <= i < ms.len() && spec_contains(#[trigger] ms[i].text@, s@);
                        assert(st[i] == ms[i].text@);
                    } else {
                        assert forall|i: int| 0 <= i < st.len() implies !spec_contains(#[trigger] st[i], s@) by {
                            assert(st[i] == ms[i].text@);
                        }
                    }
                }
                if found {
                    return None;
                }
                push_str(&mut m, "expected an IM message containing ");
                push_str(&mut m, s.as_str());
            },
            Expectation::ImSentCount(n) => {
                let got = self.messenger.sent_count();
                if got == *n {
                    return None;
                }
                push_str(&mut m, "expected ");
                push_decimal(&mut m, *n as u64);
                push_str(&mut m, " IM messages, got ");
                push_decimal(&mut m, got as u64);
            },
            Expectation::ImSentNone => {
                let got = self.messenger.sent_count();
                if got == 0 {
                    return None;
                }
                push_str(&mut m, "expected no IM messages, got ");
                push_decimal(&mut m, got as u64);
            },
            Expectation::PdusSentCount(n) => {
                let got = self.modem.sent_pdu_count();
                if got == *n {
                    return None;
                }
                push_str(&mut m, "expected ");
                push_decimal(&mut m, *n as u64);
                push_str(&mut m, " PDUs sent, got ");
                push_decimal(&mut m, got as u64);
            },
            Expectation::HangUpCount(n) => {
                let got = self.modem.hang_ups();
                if got == *n {
                    return None;
                }
                push_str(&mut m, "expected ");
                push_decimal(&mut m, *n as u64);
                push_str(&mut m, " hang_ups, got ");
                push_decimal(&mut m, got as u64);
            },
        }
        Some(m)
    }

    /// Forwards the PDUs, then checks the expectations in order and that the modem
    /// script was used up. `Err` names the first failure: a PDU that does not parse
    /// or cannot be displayed, an unmet expectation, or unconsumed script steps.
    #[verifier::rlimit(60)]
    pub fn run(self) -> (r: Result<(), String>)
        ensures
            r is Ok ==> forall|i: int| 0 <= i < self.inputs().len() ==> #[trigger] spec_parse_sms_pdu_hex(
                self.inputs()[i],
            ) is Ok,
            r is Ok ==> modem_expectations_hold(self.expectations(), self.modem()),
            r is Ok ==> self.modem().script().len() == 0,
            self.fresh() ==> (r is Ok <==> {
                &&& forall|i: int| 0 <= i < self.inputs().len() ==> #[trigger] input_forwardable(self.inputs()[i])
                &&& forall|j: int|
                    0 <= j < self.expectations().len() ==> #[trigger] expectation_holds(
                        self.expectations()[j],
                        self.modem(),
                        self.sent_texts() + forwarded_texts(self.inputs()),
                    )
                &&& self.modem().script().len() == 0
            }),
    {
        let mut s = self;
        let mut router = ReplyRouter::new();
        let mut log = LogRing::new();
        let mut i: usize = 0;
        while i < s.sms_pdu_inputs.len()
            invariant
                i <= s.sms_pdu_inputs@.len(),
                s.sms_pdu_inputs@ == self.sms_pdu_inputs@,
                s.expectations@ == self.expectations@,
                s.modem == self.modem,
                router.wf(),
                log.wf(),
                s.name@ == self.name@,
                forall|k: int| 0 <= k < i ==> #[trigger] spec_parse_sms_pdu_hex(self.inputs()[k]) is Ok,
                forall|k: int| 0 <= k < i ==> #[trigger] input_forwardable(self.inputs()[k]),
                self.fresh() ==> s.fresh() && s.sent_texts() == self.sent_texts() + forwarded_texts(
                    self.inputs().take(i as int),
                ),
            decreases s.sms_pdu_inputs@.len() - i,
        {
            assert(self.inputs()[i as int] == s.sms_pdu_inputs@[i as int]@);
            let pdu = match parse_sms_pdu(s.sms_pdu_inputs[i].as_str()) {
                Ok(p) => p,
                Err(_) => {
                    assert(!input_forwardable(self.inputs()[i as int]));
                    let mut m = new_string();
                    push_str(&mut m, "[");
                    push_str(&mut m, s.name.as_str());
                    push_str(&mut m, "] invalid PDU in scenario");
                    return Err(m);
                },
            };
            let sms = SmsMessage { sender: pdu.sender, body: pdu.content, timestamp: pdu.timestamp, slot: 0 };
            if !can_display(&sms) {
                assert(!input_forwardable(self.inputs()[i as int]));
                let mut m = new_string();
                push_str(&mut m, "[");
                push_str(&mut m, s.name.as_str());
                push_str(&mut m, "] PDU sender or time stamp cannot be displayed");
                return Err(m);
            }
            let ghost st0 = s.store.stored();
            let ghost sent0 = s.sent_texts();
            let ghost fresh0 = s.fresh();
            proof {
                s.messenger.lemma_delivered_is_sent();
                if fresh0 {
                    lemma_fresh_forwards(st0, sms.sender@);
                }
            }
            let fwd = forward_sms(&sms, &mut s.messenger, &mut router, &mut log, &mut s.store, "");
            proof {
                s.messenger.lemma_delivered_is_sent();
                let hex = self.inputs()[i as int];
                assert(input_forwardable(hex));
                assert(input_text(hex) == spec_forward_text(&sms));
                if self.fresh() {
                    lemma_fresh_kept(st0, s.store.stored());
                    assert(s.sent_texts() =~= sent0.push(input_text(hex)));
                    assert(forwarded_texts(self.inputs().take(i + 1)) =~= forwarded_texts(
                        self.inputs().take(i as int),
                    ).push(input_text(hex)));
                }
            }
            i = i + 1;
        }
        proof {
            assert(self.inputs().take(i as int) =~= self.inputs());
        }
        let mut j: usize = 0;
        while j < s.expectations.len()
            invariant
                j <= s.expectations@.len(),
                s.expectations@ == self.expectations@,
                s.modem == self.modem,
                s.name@ == self.name@,
                forall|k: int| 0 <= k < self.inputs().len() ==> #[trigger] input_forwardable(self.inputs()[k]),
                self.fresh() ==> s.sent_texts() == self.sent_texts() + forwarded_texts(self.inputs()),
                forall|k: int|
                    0 <= k < j ==> #[trigger] expectation_holds(self.expectations@[k], self.modem, s.sent_texts()),
                forall|k: int| 0 <= k < j ==> match #[trigger] self.expectations@[k] {
                    Expectation::PdusSentCount(n) => self.modem.pdus().len() == n,
                    Expectation::HangUpCount(n) => self.modem.hangups() == n,
                    _ => true,
                },
            decreases s.expectations@.len() - j,
        {
            match s.check(&s.expectations[j]) {
                Some(m) => {
                    assert(self.fresh() ==> !expectation_holds(
                        self.expectations()[j as int],
                        self.modem(),
                        self.sent_texts() + forwarded_texts(self.inputs()),
                    ));
                    return Err(m);
                },
                None => {},
            }
            assert(expectation_holds(self.expectations@[j as int], self.modem, s.sent_texts()));
            j = j + 1;
        }
        s.modem.check_consumed()
    }
}

} // verus!
