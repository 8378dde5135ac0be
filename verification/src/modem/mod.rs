//! Modem abstraction layer.
//!
//! Two-tier design:
//!
//! - `AtTransport` — the wire protocol seam.  Implement this for each new modem
//!   (four methods: `send_at`, `poll_urc`, `write_raw`, `wait_for_prompt`).
//!
//! - `ModemPort: AtTransport` — SMS and voice operations built on top.
//!   `hang_up` and `update_status` have standard AT default implementations,
//!   so a new modem gets them for free; only `post_telegram_https` needs an
//!   override for modems with a built-in HTTP stack (e.g. the A7670G).
//!
//! The reply parsing that the defaults use is verified here; what the modem answers
//! is its own business, so the traits promise nothing of it.

pub mod a76xx;
pub mod init;
pub mod urc;

use crate::strutil::{
    chars_range_string, chars_start_with, find_char_at, find_char_from, lemma_find_char_range,
    new_string, parse_unsigned_max, spec_contains, spec_parse_unsigned, spec_trim, str_contains,
    str_to_chars, to_owned_string, trim_chars, chars_to_string,
};
use core::time::Duration;
use vstd::prelude::*;

verus! {

/// Raw AT command response.
#[derive(Debug, Clone)]
pub struct AtResponse {
    /// All lines before the final status line, joined.
    pub body: String,
    /// True if the response ended with OK; false for ERROR / CME ERROR.
    pub ok: bool,
}

/// Errors from the modem layer.
#[derive(Debug)]
pub enum ModemError {
    Timeout,
    AtError(String),
    Io,
    NotReady,
    NotSupported,
}

impl ModemError {
    /// The text shown for the error.
    pub fn message(&self) -> (r: String)
        ensures
            r@ == (match self {
                ModemError::Timeout => "timeout waiting for response"@,
                ModemError::AtError(e) => "modem returned ERROR: "@ + e@,
                ModemError::Io => "UART write failed"@,
                ModemError::NotReady => "modem not ready"@,
                ModemError::NotSupported => "feature not supported on this modem"@,
            }),
    {
        let mut out = new_string();
        match self {
            ModemError::Timeout => crate::strutil::push_str(&mut out, "timeout waiting for response"),
            ModemError::AtError(e) => {
                crate::strutil::push_str(&mut out, "modem returned ERROR: ");
                crate::strutil::push_str(&mut out, e.as_str());
            },
            ModemError::Io => crate::strutil::push_str(&mut out, "UART write failed"),
            ModemError::NotReady => crate::strutil::push_str(&mut out, "modem not ready"),
            ModemError::NotSupported => crate::strutil::push_str(
                &mut out,
                "feature not supported on this modem",
            ),
        }
        out
    }
}

/// Signal strength snapshot.
#[derive(Debug, Clone)]
pub struct ModemStatus {
    /// CSQ value (0–31), 99 = unknown.
    pub csq: u8,
    /// Operator name.
    pub operator: String,
    /// Registration status: true = registered.
    pub registered: bool,
}

/// CSQ value representing "unknown signal".
pub const CSQ_UNKNOWN: u8 = 99;

impl Default for ModemStatus {
    fn default() -> (r: Self)
        ensures
            r.csq == CSQ_UNKNOWN,
            r.operator@ == Seq::<char>::empty(),
            !r.registered,
    {
        ModemStatus { csq: CSQ_UNKNOWN, operator: new_string(), registered: false }
    }
}

/// Registration status in a `+CREG?` reply: stat 1 (home) or 5 (roaming).
pub open spec fn spec_creg_registered(body: Seq<char>) -> bool {
    spec_contains(body, ",1"@) || spec_contains(body, ",5"@)
}

/// Parse a +CREG? response body for registration status.
/// Returns true when stat is 1 (home) or 5 (roaming).
pub fn creg_registered(body: &str) -> (r: bool)
    ensures
        r == spec_creg_registered(body@),
{
    str_contains(body, ",1") || str_contains(body, ",5")
}

/// The signal quality in a `+CSQ` reply body: the first comma-separated field after
/// `+CSQ: `, trimmed, as a `u8`; unknown when the prefix is missing or the field is not
/// a number in range.
pub open spec fn spec_csq(body: Seq<char>) -> u8 {
    let p = "+CSQ: "@;
    if p.len() <= body.len() && body.take(p.len() as int) == p {
        let v = body.skip(p.len() as int);
        let i = find_char_from(v, ',', 0);
        let f = if i < 0 { v } else { v.take(i) };
        match spec_parse_unsigned(spec_trim(f)) {
            Some(n) => if n <= 255 { n as u8 } else { CSQ_UNKNOWN },
            None => CSQ_UNKNOWN,
        }
    } else {
        CSQ_UNKNOWN
    }
}

/// Signal quality from a `+CSQ` reply body.
pub fn csq_from_reply(body: &str) -> (r: u8)
    ensures
        r == spec_csq(body@),
{
    let cs = str_to_chars(body);
    let p = str_to_chars("+CSQ: ");
    if !chars_start_with(cs.as_slice(), p.as_slice()) {
        return CSQ_UNKNOWN;
    }
    let v = vstd::slice::slice_subrange(cs.as_slice(), p.len(), cs.len());
    assert(v@ =~= body@.skip(p@.len() as int));
    let f = match find_char_at(v, ',', 0) {
        Some(i) => {
            proof {
                lemma_find_char_range(v@, ',', 0);
            }
            vstd::slice::slice_subrange(v, 0, i)
        },
        None => v,
    };
    proof {
        if find_char_from(v@, ',', 0) >= 0 {
            assert(f@ =~= v@.take(find_char_from(v@, ',', 0)));
        }
    }
    let t = trim_chars(f);
    let ts = chars_to_string(t.as_slice());
    match parse_unsigned_max(ts.as_str(), 255) {
        Some(n) => n as u8,
        None => CSQ_UNKNOWN,
    }
}

/// The operator name in a `+COPS?` reply body: the text between the first two double
/// quotes; empty when there are not two.
pub open spec fn spec_operator(body: Seq<char>) -> Seq<char> {
    let s = find_char_from(body, '"', 0);
    if s < 0 {
        Seq::<char>::empty()
    } else {
        let e = find_char_from(body, '"', s + 1);
        if e < 0 {
            Seq::<char>::empty()
        } else {
            body.subrange(s + 1, e)
        }
    }
}

/// Operator name from a `+COPS?` reply body.
pub fn operator_from_reply(body: &str) -> (r: String)
    ensures
        r@ == spec_operator(body@),
{
    let cs = str_to_chars(body);
    match find_char_at(cs.as_slice(), '"', 0) {
        None => new_string(),
        Some(s) => {
            proof {
                lemma_find_char_range(cs@, '"', 0);
            }
            assert(s < cs.len());
            match find_char_at(cs.as_slice(), '"', s + 1) {
                None => new_string(),
                Some(e) => {
                    proof {
                        lemma_find_char_range(cs@, '"', s + 1);
                    }
                    chars_range_string(cs.as_slice(), s + 1, e)
                },
            }
        },
    }
}

/// The status that `update_status` reports from the three reply bodies it got (`None`
/// where the command failed).
pub open spec fn spec_status(
    csq: Option<Seq<char>>,
    cops: Option<Seq<char>>,
    creg: Option<Seq<char>>,
) -> (u8, Seq<char>, bool) {
    (
        match csq {
            Some(b) => spec_csq(b),
            None => CSQ_UNKNOWN,
        },
        match cops {
            Some(b) => spec_operator(b),
            None => Seq::<char>::empty(),
        },
        match creg {
            Some(b) => spec_creg_registered(b),
            None => false,
        },
    )
}

/// Builds the status snapshot from the replies to `AT+CSQ`, `AT+COPS?` and `AT+CREG?`.
pub fn status_from_replies(csq: Option<&str>, cops: Option<&str>, creg: Option<&str>) -> (r: ModemStatus)
    ensures
        (r.csq, r.operator@, r.registered) == spec_status(
            match csq {
                Some(b) => Some(b@),
                None => None,
            },
            match cops {
                Some(b) => Some(b@),
                None => None,
            },
            match creg {
                Some(b) => Some(b@),
                None => None,
            },
        ),
{
    let mut s = ModemStatus::default();
    if let Some(b) = csq {
        s.csq = csq_from_reply(b);
    }
    if let Some(b) = cops {
        s.operator = operator_from_reply(b);
    }
    if let Some(b) = creg {
        s.registered = creg_registered(b);
    }
    s
}

// ── Tier 1: wire protocol ─────────────────────────────────────────────────────

/// What an AT exchange handed back, as the contracts see it: the final-result flag and
/// the body of a response, or nothing for an error.
pub open spec fn at_reply_view(r: Result<AtResponse, ModemError>) -> Option<(bool, Seq<char>)> {
    match r {
        Ok(a) => Some((a.ok, a.body@)),
        Err(_) => None,
    }
}

/// What a modem answers to `cmd` when its next known steps are `s` (each the command it
/// expects, the body and the final result): the first step's result and body when it
/// names `cmd`, else nothing, an error.
pub open spec fn scripted_answer(s: Seq<(Seq<char>, Seq<char>, bool)>, cmd: Seq<char>) -> Option<(bool, Seq<char>)> {
    if s.len() > 0 && s[0].0 == cmd {
        Some((s[0].2, s[0].1))
    } else {
        None
    }
}

/// The known steps after one command: the first is used up.
pub open spec fn after_step(s: Seq<(Seq<char>, Seq<char>, bool)>) -> Seq<(Seq<char>, Seq<char>, bool)> {
    if s.len() > 0 {
        s.drop_first()
    } else {
        s
    }
}

/// The body of a reply, whatever its final result; nothing for an error.
pub open spec fn reply_body(x: Option<(bool, Seq<char>)>) -> Option<Seq<char>> {
    match x {
        Some((_, b)) => Some(b),
        None => None,
    }
}

/// Raw AT transport seam.
///
/// Implement the four methods below for any new modem. What a modem answers is
/// outside this crate's control, so nothing is promised of it; a modem that keeps the
/// models records it in `replies`, and the bridge's contracts say what it makes of it.
pub trait AtTransport {
    /// The commands handed to `send_at` so far (what follows `AT`), oldest first: the
    /// model the contracts speak of, kept by every modem for which `obeys_model` holds.
    closed spec fn commands(&self) -> Seq<Seq<char>> {
        Seq::empty()
    }

    /// What `send_at` handed back so far, oldest first (see `at_reply_view`): the second
    /// model the contracts speak of.
    closed spec fn replies(&self) -> Seq<Option<(bool, Seq<char>)>> {
        Seq::empty()
    }

    /// The errors `send_at` handed back so far, oldest first: kept beside `replies`,
    /// which records an error only as `None`.
    closed spec fn failures(&self) -> Seq<ModemError> {
        Seq::empty()
    }

    /// The steps the modem is known to answer next, oldest first (see `scripted_answer`):
    /// the third model, kept by the scripted modem.
    closed spec fn scripted(&self) -> Seq<(Seq<char>, Seq<char>, bool)> {
        Seq::empty()
    }

    /// Whether the modem keeps the models `commands`, `replies`, `failures` and `scripted` (true of
    /// the scripted modem). A modem that leaves it at its default, false, is promised nothing about
    /// the commands it was sent or what it answered.
    closed spec fn obeys_model(&self) -> bool {
        false
    }

    /// Send `AT<cmd>\r` and collect the response lines until OK/ERROR/timeout.
    fn send_at(&mut self, cmd: &str) -> (r: Result<AtResponse, ModemError>)
        ensures
            final(self).obeys_model() == old(self).obeys_model(),
            old(self).obeys_model() ==> final(self).commands() == old(self).commands().push(cmd@),
            old(self).obeys_model() ==> final(self).replies() == old(self).replies().push(at_reply_view(r)),
            old(self).obeys_model() ==> final(self).failures() == match r {
                Err(e) => old(self).failures().push(e),
                Ok(_) => old(self).failures(),
            },
            old(self).obeys_model() ==> at_reply_view(r) == scripted_answer(old(self).scripted(), cmd@)
                && final(self).scripted() == after_step(old(self).scripted()),
    ;

    /// Non-blocking poll: return a URC line if one is available.
    fn poll_urc(&mut self) -> (r: Option<String>)
        ensures
            final(self).obeys_model() == old(self).obeys_model(),
            old(self).obeys_model() ==> final(self).commands() == old(self).commands(),
    ;

    /// Write raw bytes to the modem UART (used for PDU body in `AT+CMGS`).
    fn write_raw(&mut self, data: &[u8]) -> (r: Result<(), ModemError>)
        ensures
            final(self).obeys_model() == old(self).obeys_model(),
            old(self).obeys_model() ==> final(self).commands() == old(self).commands(),
    ;

    /// Block until `prompt` byte is received or `timeout` elapses.
    /// Used for the `>` prompt in the `AT+CMGS` PDU send sequence.
    fn wait_for_prompt(&mut self, prompt: u8, timeout: Duration) -> (r: bool)
        ensures
            final(self).obeys_model() == old(self).obeys_model(),
            old(self).obeys_model() ==> final(self).commands() == old(self).commands(),
    ;
}

// ── Tier 2: SMS + voice + optional HTTP ──────────────────────────────────────

/// High-level SMS, voice, and (optionally) HTTP operations.
pub trait ModemPort: AtTransport {
    /// Send an SMS in PDU mode; return the message reference number.
    fn send_pdu_sms(&mut self, hex: &str, tpdu_len: u8) -> Result<u8, ModemError>;

    /// Hang up the current call; the hang-up counts as the command `H`.
    ///
    /// Default: `ATH`.
    fn hang_up(&mut self) -> (r: Result<(), ModemError>)
        ensures
            final(self).obeys_model() == old(self).obeys_model(),
            old(self).obeys_model() ==> final(self).commands() == old(self).commands().push("H"@),
    {
        proof {
            reveal_strlit("H");
        }
        match self.send_at("H") {
            Ok(r) => hang_up_outcome(&r),
            Err(e) => Err(e),
        }
    }

    /// HTTPS POST JSON via the modem's built-in HTTP stack (Quectel `AT+QHTTP*`).
    /// Used when the ESP32 has no WiFi and IM traffic goes over cellular PDP.
    ///
    /// Default: `NotSupported` — override for modems with a built-in HTTP stack.
    fn post_telegram_https(&mut self, path: &str, json: &str) -> Result<String, ModemError> {
        Err(ModemError::NotSupported)
    }

    /// Query CSQ, operator name, and registration status from the modem: `AT+CSQ`,
    /// `AT+COPS?` and `AT+CREG?` in order; the status is what `spec_status` makes of
    /// their reply bodies (none for a command that failed).
    fn update_status(&mut self) -> (r: ModemStatus)
        ensures
            final(self).obeys_model() == old(self).obeys_model(),
            old(self).obeys_model() ==> final(self).commands() == old(self).commands() + seq!["+CSQ"@, "+COPS?"@, "+CREG?"@],
            exists|a: Option<Seq<char>>, b: Option<Seq<char>>, c: Option<Seq<char>>|
                (r.csq, r.operator@, r.registered) == #[trigger] spec_status(a, b, c),
            old(self).obeys_model() ==> {
                let n = old(self).replies().len() as int;
                let rs = final(self).replies();
                &&& rs.len() == n + 3
                &&& rs.take(n) == old(self).replies()
                &&& (r.csq, r.operator@, r.registered) == spec_status(reply_body(rs[n]), reply_body(rs[n + 1]), reply_body(rs[n + 2]))
                &&& rs[n] == scripted_answer(old(self).scripted(), "+CSQ"@)
                &&& rs[n + 1] == scripted_answer(after_step(old(self).scripted()), "+COPS?"@)
                &&& rs[n + 2] == scripted_answer(after_step(after_step(old(self).scripted())), "+CREG?"@)
                &&& final(self).scripted() == after_step(after_step(after_step(old(self).scripted())))
            },
    {
        let ghost c0 = self.commands();
        let ghost r0 = self.replies();
        let csq = self.send_at("+CSQ");
        let cops = self.send_at("+COPS?");
        let creg = self.send_at("+CREG?");
        proof {
            reveal_strlit("+CSQ");
            reveal_strlit("+COPS?");
            reveal_strlit("+CREG?");
        }
        assert(old(self).obeys_model() ==> self.commands() =~= c0 + seq!["+CSQ"@, "+COPS?"@, "+CREG?"@]);
        let a = match &csq {
            Ok(r) => Some(r.body.as_str()),
            Err(_) => None,
        };
        let b = match &cops {
            Ok(r) => Some(r.body.as_str()),
            Err(_) => None,
        };
        let c = match &creg {
            Ok(r) => Some(r.body.as_str()),
            Err(_) => None,
        };
        let st = status_from_replies(a, b, c);
        let ghost sa = match a {
            Some(x) => Some(x@),
            None => None,
        };
        let ghost sb = match b {
            Some(x) => Some(x@),
            None => None,
        };
        let ghost sc = match c {
            Some(x) => Some(x@),
            None => None,
        };
        assert((st.csq, st.operator@, st.registered) == spec_status(sa, sb, sc));
        proof {
            if old(self).obeys_model() {
                let n = r0.len() as int;
                assert(self.replies().take(n) =~= r0);
                assert(self.replies()[n] == at_reply_view(csq));
                assert(self.replies()[n + 1] == at_reply_view(cops));
                assert(self.replies()[n + 2] == at_reply_view(creg));
            }
        }
        st
    }
}

/// What `hang_up` makes of the reply to `ATH`: success on OK, else an AT error.
pub fn hang_up_outcome(r: &AtResponse) -> (out: Result<(), ModemError>)
    ensures
        r.ok ==> out is Ok,
        !r.ok ==> (out matches Err(ModemError::AtError(m)) && m@ == "ATH failed"@),
{
    if r.ok {
        Ok(())
    } else {
        Err(ModemError::AtError(to_owned_string("ATH failed")))
    }
}

} // verus!
