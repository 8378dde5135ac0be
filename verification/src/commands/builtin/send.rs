//! /send <number> <text>
//!
//! Returns a sentinel line for the poller to parse + a user-visible confirmation.

use crate::log_ring::LogRing;
use crate::commands::{
    first_ws_from, push_encoded_sentinel_body, sentinel_escape_char, spec_encode_sentinel_body, Command,
    CommandContext, SEND_SENTINEL,
};
use crate::i18n::en::{desc_send, send_empty_body, send_invalid_number, send_queued, send_too_long, send_usage};
use crate::sms::codec::{count_sms_parts, normalize_phone, spec_normalize_phone, spec_submit_pdus};
use crate::sms::MAX_SMS_PARTS;
use crate::bridge::forwarder::{is_phone_char, lemma_normalized_phone_chars};
use crate::strutil::{
    chars_to_string, is_white_space_exec, new_string, push_char, push_str, spec_decimal, spec_trim, starts_with,
    str_to_chars, to_owned_string, trim_chars,
};
use crate::text::char_prefix;
use vstd::prelude::*;

verus! {

/// `/send <number> <text>`: validates and asks the poller to queue an SMS.
pub struct SendCommand;

/// The number of SMS parts a body needs, 0 when it needs more than ten.
pub open spec fn spec_send_parts(body: Seq<char>) -> int {
    spec_submit_pdus("+1"@, body, 10, false, 0).len() as int
}

/// The reply to `/send` with the given arguments: usage, invalid number, empty body or
/// too long; else the `__SEND__:` sentinel line (number, `|`, encoded body) and the
/// confirmation.
pub open spec fn spec_send_reply(args: Seq<char>) -> Seq<char> {
    let a = spec_trim(args);
    let i = first_ws_from(a, 0);
    if i < 0 {
        "Usage: /send <number> <message text>"@
    } else {
        let phone = spec_normalize_phone(a.take(i));
        let body = spec_trim(a.skip(i + 1));
        if phone.len() == 0 {
            "Invalid phone number"@
        } else if body.len() == 0 {
            "Message body is empty"@
        } else if body.len() >= 0x0800_0000 || spec_send_parts(body) == 0 {
            "Message too long (> 10 SMS parts)"@
        } else {
            let preview = spec_one_line(if body.len() > 50 { body.take(50) } else { body });
            SEND_SENTINEL@ + phone + "|"@ + spec_encode_sentinel_body(body) + "\n"@ + "Queued: "@ + phone
                + " → \""@ + preview + "…\" ("@ + spec_decimal(spec_send_parts(body) as nat) + " part(s))"@
        }
    }
}

/// `s` with each line break (`\n` or `\r`) shown as a space, so that a preview stays
/// on the confirmation line.
pub open spec fn spec_one_line(s: Seq<char>) -> Seq<char> {
    s.map_values(|c: char| if c == '\n' || c == '\r' { ' ' } else { c })
}

fn one_line(s: &str) -> (r: String)
    ensures
        r@ == spec_one_line(s@),
{
    let cs = str_to_chars(s);
    let mut out = new_string();
    let mut i: usize = 0;
    while i < cs.len()
        invariant
            i <= cs@.len(),
            cs@ == s@,
            out@ == spec_one_line(cs@.take(i as int)),
        decreases cs@.len() - i,
    {
        let c = cs[i];
        let d = if c == '\n' || c == '\r' { ' ' } else { c };
        push_char(&mut out, d);
        i = i + 1;
        assert(spec_one_line(cs@.take(i as int)) =~= spec_one_line(cs@.take(i - 1)).push(d));
    }
    assert(cs@.take(cs@.len() as int) =~= cs@);
    out
}

/// The reply to `/send`.
pub fn send_reply(args: &str) -> (r: String)
    ensures
        r@ == spec_send_reply(args@),
{
    let cs = str_to_chars(args);
    let a = trim_chars(cs.as_slice());
    let mut k: usize = 0;
    while k < a.len() && !is_white_space_exec(a[k])
        invariant
            k <= a@.len(),
            first_ws_from(a@, 0) == first_ws_from(a@, k as int),
        decreases a@.len() - k,
    {
        k = k + 1;
    }
    if k >= a.len() {
        return to_owned_string(send_usage());
    }
    let phone_raw = chars_to_string(vstd::slice::slice_subrange(a.as_slice(), 0, k));
    let phone = normalize_phone(phone_raw.as_str());
    let rest = vstd::slice::slice_subrange(a.as_slice(), k + 1, a.len());
    assert(phone_raw@ =~= a@.take(k as int));
    assert(rest@ =~= a@.skip(k + 1));
    let body_cs = trim_chars(rest);
    if phone.as_str().is_empty() {
        return to_owned_string(send_invalid_number());
    }
    let body = chars_to_string(body_cs.as_slice());
    if body_cs.len() == 0 {
        return to_owned_string(send_empty_body());
    }
    if body_cs.len() >= 0x0800_0000 {
        return to_owned_string(send_too_long());
    }
    let parts = count_sms_parts(body.as_str(), MAX_SMS_PARTS);
    if parts == 0 {
        return to_owned_string(send_too_long());
    }
    let (raw_preview, _truncated) = char_prefix(body.as_str(), 50);
    let preview_line = one_line(raw_preview);
    let preview = preview_line.as_str();
    let mut out = new_string();
    push_str(&mut out, SEND_SENTINEL);
    push_str(&mut out, phone.as_str());
    push_char(&mut out, '|');
    push_encoded_sentinel_body(&mut out, body.as_str());
    push_char(&mut out, '\n');
    push_str(&mut out, send_queued(phone.as_str(), preview, parts).as_str());
    proof {
        reveal_strlit("|");
        reveal_strlit("\n");
    }
    out
}

impl Command for SendCommand {
    open spec fn spec_name(&self) -> Seq<char> {
        "send"@
    }

    open spec fn spec_description(&self) -> Seq<char> {
        "Send an SMS: /send <number> <text>"@
    }

    open spec fn replies(&self, args: Seq<char>, ctx: &CommandContext, log: LogRing, reply: Seq<char>) -> bool {
        reply == spec_send_reply(args)
    }

    fn name(&self) -> (r: &'static str) {
        "send"
    }

    fn description(&self) -> (r: &'static str) {
        desc_send()
    }

    fn handle(&self, args: &str, _ctx: &CommandContext, _log_ring: &mut LogRing) -> (r: String)
        ensures
            r@ == spec_send_reply(args@),
    {
        send_reply(args)
    }
}


/// `s` holds no line feed.
pub open spec fn no_line_break(s: Seq<char>) -> bool {
    forall|i: int| 0 <= i < s.len() ==> #[trigger] s[i] != '\n'
}

proof fn lemma_encoded_body_one_line(s: Seq<char>)
    ensures
        no_line_break(spec_encode_sentinel_body(s)),
    decreases s.len(),
{
    if s.len() > 0 {
        lemma_encoded_body_one_line(s.skip(1));
        let e = sentinel_escape_char(s[0]);
        let t = spec_encode_sentinel_body(s.skip(1));
        assert forall|i: int| 0 <= i < (e + t).len() implies #[trigger] (e + t)[i] != '\n' by {
            if i >= e.len() {
                assert((e + t)[i] == t[i - e.len()]);
            }
        }
    }
}

proof fn lemma_decimal_one_line(n: nat)
    ensures
        no_line_break(spec_decimal(n)),
    decreases n,
{
    if n >= 10 {
        lemma_decimal_one_line(n / 10);
        let d = n % 10;
        assert(((d + 48) as u8) as char != '\n') by {
            assert(d + 48 >= 48 && d + 48 < 58);
        }
    } else {
        assert(((n + 48) as u8) as char != '\n') by {
            assert(n + 48 >= 48 && n + 48 < 58);
        }
    }
}

proof fn lemma_concat_one_line(a: Seq<char>, b: Seq<char>)
    requires
        no_line_break(a),
        no_line_break(b),
    ensures
        no_line_break(a + b),
{
    assert forall|i: int| 0 <= i < (a + b).len() implies #[trigger] (a + b)[i] != '\n' by {
        if i >= a.len() {
            assert((a + b)[i] == b[i - a.len()]);
        } else {
            assert((a + b)[i] == a[i]);
        }
    }
}

/// A `/send` reply holds at most one sentinel line: it is a single line (usage or an
/// error), or the `__SEND__:` line, a line feed, and one confirmation line that starts
/// with `Queued: `, whatever the body holds.
pub proof fn lemma_send_reply_lines(args: Seq<char>)
    ensures
        no_line_break(spec_send_reply(args)) || exists|l1: Seq<char>, l2: Seq<char>|
            spec_send_reply(args) == l1 + seq!['\n'] + l2 && no_line_break(l1) && no_line_break(l2)
                && #[trigger] starts_with(l1, SEND_SENTINEL@) && #[trigger] starts_with(l2, "Queued: "@),
{
    reveal_strlit("Usage: /send <number> <message text>");
    reveal_strlit("Invalid phone number");
    reveal_strlit("Message body is empty");
    reveal_strlit("Message too long (> 10 SMS parts)");
    reveal_strlit("__SEND__:");
    reveal_strlit("|");
    reveal_strlit("Queued: ");
    reveal_strlit(" → \"");
    reveal_strlit("…\" (");
    reveal_strlit(" part(s))");
    reveal_strlit("\n");
    let a = spec_trim(args);
    let i = first_ws_from(a, 0);
    if i >= 0 {
        let phone = spec_normalize_phone(a.take(i));
        let body = spec_trim(a.skip(i + 1));
        if phone.len() > 0 && body.len() > 0 && !(body.len() >= 0x0800_0000 || spec_send_parts(body) == 0) {
            let raw = if body.len() > 50 { body.take(50) } else { body };
            let preview = spec_one_line(raw);
            lemma_normalized_phone_chars(a.take(i));
            assert(no_line_break(phone)) by {
                assert forall|k: int| 0 <= k < phone.len() implies #[trigger] phone[k] != '\n' by {
                    assert(is_phone_char(phone[k]));
                }
            }
            lemma_encoded_body_one_line(body);
            lemma_decimal_one_line(spec_send_parts(body) as nat);
            assert(no_line_break(preview));
            let l1 = SEND_SENTINEL@ + phone + "|"@ + spec_encode_sentinel_body(body);
            let l2 = "Queued: "@ + phone + " → \""@ + preview + "…\" ("@ + spec_decimal(spec_send_parts(body) as nat)
                + " part(s))"@;
            lemma_concat_one_line(SEND_SENTINEL@, phone);
            lemma_concat_one_line(SEND_SENTINEL@ + phone, "|"@);
            lemma_concat_one_line(SEND_SENTINEL@ + phone + "|"@, spec_encode_sentinel_body(body));
            lemma_concat_one_line("Queued: "@, phone);
            lemma_concat_one_line("Queued: "@ + phone, " → \""@);
            lemma_concat_one_line("Queued: "@ + phone + " → \""@, preview);
            lemma_concat_one_line("Queued: "@ + phone + " → \""@ + preview, "…\" ("@);
            lemma_concat_one_line(
                "Queued: "@ + phone + " → \""@ + preview + "…\" ("@,
                spec_decimal(spec_send_parts(body) as nat),
            );
            lemma_concat_one_line(
                "Queued: "@ + phone + " → \""@ + preview + "…\" ("@ + spec_decimal(spec_send_parts(body) as nat),
                " part(s))"@,
            );
            let full = SEND_SENTINEL@ + phone + "|"@ + spec_encode_sentinel_body(body) + "\n"@ + "Queued: "@ + phone
                + " → \""@ + preview + "…\" ("@ + spec_decimal(spec_send_parts(body) as nat) + " part(s))"@;
            assert(spec_send_reply(args) == full);
            assert("\n"@ =~= seq!['\n']);
            let q1 = "Queued: "@ + phone;
            let q2 = q1 + " → \""@;
            let q3 = q2 + preview;
            let q4 = q3 + "…\" ("@;
            let q5 = q4 + spec_decimal(spec_send_parts(body) as nat);
            assert(l2 == q5 + " part(s))"@);
            assert(full =~= l1 + seq!['\n'] + l2);
            assert(starts_with(l1, SEND_SENTINEL@)) by {
                assert(l1.take(SEND_SENTINEL@.len() as int) =~= SEND_SENTINEL@);
            }
            assert(starts_with(l2, "Queued: "@)) by {
                assert(l2.take("Queued: "@.len() as int) =~= "Queued: "@);
            }
        }
    }
}

} // verus!
