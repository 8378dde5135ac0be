//! IM message dispatch: commands, log pages, and replies routed to SMS.
//!
//! Command replies may carry sentinel lines (`__SEND__:`, `__BLOCK__:`, …); they are
//! stripped from what the user sees and their side effects applied here.

use crate::bridge::forwarder::{
    add_to_blocklist, lemma_normalized_phone_chars, lemma_without_absent, remove_from_blocklist, spec_blocklist, with_number,
    without,
};
use crate::bridge::reply_router::{lemma_lookup_after_put, spec_lookup, spec_put, table_shape, ReplyRouter};
use vstd::utf8::encode_utf8;
use crate::commands::builtin::log_cmd::{
    page_shows, parse_log_callback, parse_log_offset, render_log_page, spec_log_callback, spec_log_offset, spec_log_page_text,
    spec_page_entries,
};
use crate::commands::{
    first_ws_from, before_at, Command, CommandContext, CommandRegistry, BLOCK_SENTINEL, PAUSE_SENTINEL,
    RESTART_SENTINEL, RESUME_SENTINEL, SEND_SENTINEL, UNBLOCK_SENTINEL, sentinel_escape_char,
    spec_command_name, spec_encode_sentinel_body, decode_sentinel_body, spec_decode_sentinel_body,
    lemma_sentinel_body_roundtrip,
};
use crate::i18n::en::send_rate_limited;
use crate::im::{InboundMessage, MessageFormat, MessageSink, MessengerError};
use crate::log_ring::{headers_upto, LogEvent, LogKind, LogRing, SpecLogEvent};
use crate::modem::ModemStatus;
use crate::persist::{keys, save_bool, spec_load_bool, Store};
use crate::sms::CmdSendResult;
use crate::sms::sender::{SmsSender, SEND_QUEUE_CAPACITY, RATE_MAX_SENDS, record_time};
use crate::strutil::{
    chars_start_with, chars_to_string, find_char_at, find_char_from, lemma_find_char_range, new_string,
    parse_unsigned_max, push_char, push_decimal, push_str, spec_parse_unsigned, spec_trim, starts_with,
    str_to_chars, string_views, to_owned_string, trim_chars, trim_str, is_white_space_exec, spec_decimal,
};
use crate::commands::builtin::send::{spec_one_line, spec_send_parts, spec_send_reply};
use crate::sms::codec::{is_ascii_digit, spec_normalize_phone};
use crate::text::char_prefix;
use vstd::prelude::*;

verus! {

/// Result of processing a batch of inbound messages.
#[derive(Debug, Clone, Default)]
pub struct DispatchOutcome {
    pub restart_requested: bool,
    pub pause_mins: Option<u32>,
    pub events: Vec<LogEvent>,
}

// ---------------------------------------------------------------------------
// Lines of a reply
// ---------------------------------------------------------------------------

/// `l` without one trailing carriage return.
pub open spec fn strip_cr(l: Seq<char>) -> Seq<char> {
    if l.len() > 0 && l.last() == '\r' {
        l.drop_last()
    } else {
        l
    }
}

/// The lines of a text as `str::lines` gives them: split after each `\n` (a final
/// empty piece is not a line), and a `\r` before the `\n` dropped.
pub open spec fn spec_str_lines(s: Seq<char>) -> Seq<Seq<char>>
    decreases s.len(),
{
    if s.len() == 0 {
        Seq::empty()
    } else {
        let i = find_char_from(s, '\n', 0);
        if i < 0 {
            seq![s]
        } else {
            proof {
                lemma_find_char_range(s, '\n', 0);
            }
            seq![strip_cr(s.take(i))] + spec_str_lines(s.skip(i + 1))
        }
    }
}

/// The lines of `s` (`str::lines`).
pub fn str_lines(s: &str) -> (r: Vec<String>)
    ensures
        string_views(r@) == spec_str_lines(s@),
{
    let cs = str_to_chars(s);
    let mut out: Vec<String> = Vec::new();
    let mut start: usize = 0;
    let mut j: usize = 0;
    assert(cs@.skip(0) =~= cs@);
    while j < cs.len()
        invariant
            cs@ == s@,
            start <= j <= cs@.len(),
            forall|k: int| start <= k < j ==> cs@[k] != '\n',
            string_views(out@) + spec_str_lines(cs@.skip(start as int)) == spec_str_lines(s@),
        decreases cs@.len() - j,
    {
        if cs[j] == '\n' {
            let ghost rest = cs@.skip(start as int);
            proof {
                assert(rest[j - start] == cs@[j as int]);
                assert forall|k: int| 0 <= k < j - start implies rest[k] != '\n' by {
                    assert(rest[k] == cs@[start + k]);
                }
                lemma_find_char_range(rest, '\n', 0);
                assert(rest.take(j - start) =~= cs@.subrange(start as int, j as int));
                assert(rest.skip(j - start + 1) =~= cs@.skip(j + 1));
            }
            let mut end = j;
            if end > start && cs[end - 1] == '\r' {
                end = end - 1;
            }
            let line = chars_to_string(vstd::slice::slice_subrange(cs.as_slice(), start, end));
            let ghost before = out@;
            out.push(line);
            assert(line@ =~= strip_cr(cs@.subrange(start as int, j as int)));
            assert(string_views(out@) =~= string_views(before).push(line@));
            assert(string_views(before).push(line@) + spec_str_lines(cs@.skip(j + 1)) =~= string_views(before) + (seq![line@] + spec_str_lines(cs@.skip(j + 1))));
            start = j + 1;
        }
        j = j + 1;
    }
    let ghost rest = cs@.skip(start as int);
    if start < cs.len() {
        proof {
            lemma_find_char_range(rest, '\n', 0);
            if find_char_from(rest, '\n', 0) >= 0 {
                let f = find_char_from(rest, '\n', 0);
                assert(rest[f] == cs@[start + f]);
            }
        }
        let line = chars_to_string(vstd::slice::slice_subrange(cs.as_slice(), start, cs.len()));
        assert(line@ =~= rest);
        let ghost before = out@;
        out.push(line);
        assert(string_views(out@) =~= string_views(before).push(line@));
    } else {
        assert(rest.len() == 0);
    }
    assert(string_views(out@) =~= spec_str_lines(s@));
    out
}

/// Lines joined with `\n`.
pub open spec fn spec_join(ls: Seq<Seq<char>>) -> Seq<char>
    decreases ls.len(),
{
    if ls.len() == 0 {
        Seq::empty()
    } else if ls.len() == 1 {
        ls[0]
    } else {
        spec_join(ls.drop_last()) + seq!['\n'] + ls.last()
    }
}

pub(crate) fn join_lines(ls: &Vec<String>) -> (r: String)
    ensures
        r@ == spec_join(string_views(ls@)),
{
    let mut out = new_string();
    let mut i: usize = 0;
    while i < ls.len()
        invariant
            i <= ls@.len(),
            out@ == spec_join(string_views(ls@).take(i as int)),
        decreases ls@.len() - i,
    {
        let ghost v = string_views(ls@);
        assert(v.take(i + 1).drop_last() =~= v.take(i as int));
        assert(v.take(i + 1).last() == ls@[i as int]@);
        if i > 0 {
            push_char(&mut out, '\n');
        } else {
            assert(v.take(1) =~= seq![ls@[0]@]);
        }
        push_str(&mut out, ls[i].as_str());
        i = i + 1;
    }
    assert(string_views(ls@).take(ls@.len() as int) =~= string_views(ls@));
    out
}

// ---------------------------------------------------------------------------
// Replacing
// ---------------------------------------------------------------------------

/// A `/send` body as the poller decodes it: the exact inverse of the sentinel encoding
/// (`\n`, `\r` and `\\` unescaped in one pass).
pub open spec fn spec_poller_body(enc: Seq<char>) -> Seq<char> {
    spec_decode_sentinel_body(enc)
}

fn poller_body(enc: &str) -> (r: String)
    ensures
        r@ == spec_poller_body(enc@),
{
    decode_sentinel_body(enc)
}

// ---------------------------------------------------------------------------
// Sentinels
// ---------------------------------------------------------------------------

/// What a line of a command reply asks for.
pub enum SentinelLine {
    /// Queue an SMS; the text after the prefix (`<phone>|<encoded body>`).
    Send(Seq<char>),
    /// Block the number after the prefix.
    Block(Seq<char>),
    /// Unblock the number after the prefix.
    Unblock(Seq<char>),
    /// Pause forwarding for the given minutes.
    Pause(u32),
    Resume,
    Restart,
    /// An ordinary line, shown to the user.
    Display,
}

/// The meaning of a reply line, by its prefix.
pub open spec fn line_kind(l: Seq<char>) -> SentinelLine {
    if starts_with(l, SEND_SENTINEL@) {
        SentinelLine::Send(l.skip(SEND_SENTINEL@.len() as int))
    } else if starts_with(l, BLOCK_SENTINEL@) {
        SentinelLine::Block(l.skip(BLOCK_SENTINEL@.len() as int))
    } else if starts_with(l, UNBLOCK_SENTINEL@) {
        SentinelLine::Unblock(l.skip(UNBLOCK_SENTINEL@.len() as int))
    } else if starts_with(l, PAUSE_SENTINEL@) {
        SentinelLine::Pause(crate::commands::builtin::pause::spec_pause_minutes(l.skip(PAUSE_SENTINEL@.len() as int)))
    } else if starts_with(l, RESUME_SENTINEL@) {
        SentinelLine::Resume
    } else if starts_with(l, RESTART_SENTINEL@) {
        SentinelLine::Restart
    } else {
        SentinelLine::Display
    }
}

/// The SMS a reply line asks for: a send line holding `|` names the phone before the
/// first `|` and the decoded body after it.
pub open spec fn send_request(l: Seq<char>) -> Option<(Seq<char>, Seq<char>)> {
    match line_kind(l) {
        SentinelLine::Send(rest) => {
            let bar = find_char_from(rest, '|', 0);
            if bar >= 0 {
                Some((rest.take(bar), spec_poller_body(rest.skip(bar + 1))))
            } else {
                None
            }
        },
        _ => None,
    }
}

/// The SMS the lines of a reply ask for, in order.
pub open spec fn send_requests(ls: Seq<Seq<char>>) -> Seq<(Seq<char>, Seq<char>)>
    decreases ls.len(),
{
    if ls.len() == 0 {
        Seq::empty()
    } else {
        match send_request(ls.last()) {
            Some(m) => send_requests(ls.drop_last()).push(m),
            None => send_requests(ls.drop_last()),
        }
    }
}

/// The smaller of two integers.
pub open spec fn min_int(a: int, b: int) -> int {
    if a <= b {
        a
    } else {
        b
    }
}

/// The SMS queue after the send lines of a reply, from `q0`: each request is queued
/// when `limited` does not mark it as refused by the rate limit and the queue has room.
pub open spec fn sends_applied(
    ls: Seq<Seq<char>>,
    limited: Seq<bool>,
    q0: Seq<(Seq<char>, Seq<char>)>,
) -> Seq<(Seq<char>, Seq<char>)>
    decreases ls.len(),
{
    if ls.len() == 0 {
        q0
    } else {
        let q = sends_applied(ls.drop_last(), limited.drop_last(), q0);
        match send_request(ls.last()) {
            Some(m) => if !limited.last() && q.len() < SEND_QUEUE_CAPACITY {
                q.push(m)
            } else {
                q
            },
            None => q,
        }
    }
}

/// The rate limit refuses only send requests, and only once `RATE_MAX_SENDS` `/send`
/// commands are recorded: `t0` before the reply, one more for each request queued
/// before.
pub open spec fn limits_fair(ls: Seq<Seq<char>>, limited: Seq<bool>, q0: Seq<(Seq<char>, Seq<char>)>, t0: int) -> bool {
    forall|k: int|
        0 <= k < ls.len() && #[trigger] limited[k] ==> send_request(ls[k]) is Some && t0 + sends_applied(
            ls.take(k),
            limited.take(k),
            q0,
        ).len() - q0.len() >= RATE_MAX_SENDS
}

/// The block list after the block and unblock lines of a reply, from `l0`.
pub open spec fn blocklist_after(ls: Seq<Seq<char>>, l0: Seq<Seq<char>>) -> Seq<Seq<char>>
    decreases ls.len(),
{
    if ls.len() == 0 {
        l0
    } else {
        let l = blocklist_after(ls.drop_last(), l0);
        match line_kind(ls.last()) {
            SentinelLine::Block(p) => with_number(l, spec_normalize_phone(p)),
            SentinelLine::Unblock(p) => without(l, spec_normalize_phone(p)),
            _ => l,
        }
    }
}

/// Whether a line kind changes stored settings.
pub open spec fn touches_store(k: SentinelLine) -> bool {
    k is Block || k is Unblock || k is Pause || k is Resume
}

/// The forwarding flag after the lines of a reply, from `prior`: the last pause line
/// turns it off and the last resume line on.
pub open spec fn forwarding_after(ls: Seq<Seq<char>>, prior: Option<bool>) -> Option<bool>
    decreases ls.len(),
{
    if ls.len() == 0 {
        prior
    } else {
        match line_kind(ls.last()) {
            SentinelLine::Pause(_) => Some(false),
            SentinelLine::Resume => Some(true),
            _ => forwarding_after(ls.drop_last(), prior),
        }
    }
}

/// The ordinary lines, in order.
pub open spec fn display_lines(ls: Seq<Seq<char>>) -> Seq<Seq<char>>
    decreases ls.len(),
{
    if ls.len() == 0 {
        Seq::empty()
    } else if line_kind(ls.last()) is Display {
        display_lines(ls.drop_last()).push(ls.last())
    } else {
        display_lines(ls.drop_last())
    }
}

/// The lines a reply shows: its ordinary lines, with the rate-limit notice in place of
/// each send line that `limited` marks as refused by the rate limit.
pub open spec fn shown_lines(ls: Seq<Seq<char>>, limited: Seq<bool>) -> Seq<Seq<char>>
    decreases ls.len(),
{
    if ls.len() == 0 {
        Seq::empty()
    } else {
        let prev = shown_lines(ls.drop_last(), limited.drop_last());
        if line_kind(ls.last()) is Display {
            prev.push(ls.last())
        } else if line_kind(ls.last()) is Send && limited.last() {
            prev.push("Rate limit: at most 5 /send commands per minute."@)
        } else {
            prev
        }
    }
}

/// Every line a reply shows is an ordinary line of the reply or the rate-limit notice,
/// never a sentinel line.
pub proof fn lemma_shown_lines_plain(ls: Seq<Seq<char>>, limited: Seq<bool>)
    requires
        limited.len() == ls.len(),
    ensures
        forall|i: int| 0 <= i < shown_lines(ls, limited).len() ==> #[trigger] shown_lines(ls, limited)[i]
            == "Rate limit: at most 5 /send commands per minute."@ || (ls.contains(shown_lines(ls, limited)[i])
            && line_kind(shown_lines(ls, limited)[i]) is Display),
    decreases ls.len(),
{
    if ls.len() > 0 {
        lemma_shown_lines_plain(ls.drop_last(), limited.drop_last());
        let prev = shown_lines(ls.drop_last(), limited.drop_last());
        assert forall|i: int| 0 <= i < shown_lines(ls, limited).len() implies #[trigger] shown_lines(ls, limited)[i]
            == "Rate limit: at most 5 /send commands per minute."@ || (ls.contains(shown_lines(ls, limited)[i])
            && line_kind(shown_lines(ls, limited)[i]) is Display) by {
            if i < prev.len() {
                assert(shown_lines(ls, limited)[i] == prev[i]);
                if ls.drop_last().contains(prev[i]) {
                    let k = choose|k: int| 0 <= k < ls.drop_last().len() && ls.drop_last()[k] == prev[i];
                    assert(ls[k] == prev[i]);
                }
            } else {
                assert(ls[ls.len() - 1] == ls.last());
            }
        }
    }
}

/// The minutes of the last pause line, if any.
pub open spec fn last_pause(ls: Seq<Seq<char>>) -> Option<u32>
    decreases ls.len(),
{
    if ls.len() == 0 {
        None
    } else {
        match line_kind(ls.last()) {
            SentinelLine::Pause(m) => Some(m),
            _ => last_pause(ls.drop_last()),
        }
    }
}

fn str_with(prefix: &str, a: &str) -> (r: String)
    ensures
        r@ == prefix@ + a@,
{
    let mut out = new_string();
    push_str(&mut out, prefix);
    push_str(&mut out, a);
    out
}

fn strip_prefix_chars(cs: &Vec<char>, p: &str) -> (r: Option<Vec<char>>)
    ensures
        starts_with(cs@, p@) ==> (r matches Some(v) && v@ == cs@.skip(p@.len() as int)),
        !starts_with(cs@, p@) ==> r is None,
{
    let pc = str_to_chars(p);
    if chars_start_with(cs.as_slice(), pc.as_slice()) {
        let v = vstd::slice::slice_to_vec(vstd::slice::slice_subrange(cs.as_slice(), pc.len(), cs.len()));
        assert(v@ =~= cs@.skip(p@.len() as int));
        Some(v)
    } else {
        None
    }
}

/// Parse sentinel lines from a command reply and apply their side effects. Returns the
/// text to show, whether a restart was asked for, the minutes of the last pause, and
/// the events to log.
///
/// A `__SEND__:` line without `|` is dropped; a rate-limited send adds the rate-limit
/// notice to the shown text.
pub fn apply_sentinels<S: Store + ?Sized>(
    reply: &str,
    sender: &mut SmsSender,
    store: &mut S,
) -> (r: (String, bool, Option<u32>, Vec<LogEvent>))
    requires
        old(sender).wf(),
    ensures
        final(sender).wf(),
        old(sender).queued().is_prefix_of(final(sender).queued()),
        r.1 == exists|i: int| 0 <= i < spec_str_lines(reply@).len() && #[trigger] line_kind(spec_str_lines(reply@)[i]) is Restart,
        r.2 == last_pause(spec_str_lines(reply@)),
        (forall|i: int| 0 <= i < spec_str_lines(reply@).len() ==> !touches_store(#[trigger] line_kind(spec_str_lines(reply@)[i])))
            ==> final(store).stored() == old(store).stored(),
        (forall|i: int| 0 <= i < spec_str_lines(reply@).len() ==> !(#[trigger] line_kind(spec_str_lines(reply@)[i]) is Send))
            ==> r.0@ == spec_join(display_lines(spec_str_lines(reply@))) && final(sender).queued()
            == old(sender).queued(),
        send_requests(spec_str_lines(reply@)).len() == 0 ==> final(sender).queued() == old(sender).queued(),
        send_requests(spec_str_lines(reply@)).len() == 1 ==> (final(sender).queued() == old(sender).queued().push(
            send_requests(spec_str_lines(reply@))[0],
        ) || final(sender).queued() == old(sender).queued()),
        exists|limited: Seq<bool>|
            {
                &&& limited.len() == spec_str_lines(reply@).len()
                &&& r.0@ == spec_join(#[trigger] shown_lines(spec_str_lines(reply@), limited))
                &&& final(sender).queued() == sends_applied(spec_str_lines(reply@), limited, old(sender).queued())
                &&& limits_fair(spec_str_lines(reply@), limited, old(sender).queued(), old(sender).command_times().len() as int)
                &&& final(sender).command_times().len() == min_int(
                    RATE_MAX_SENDS as int,
                    old(sender).command_times().len() + sends_applied(spec_str_lines(reply@), limited, old(sender).queued()).len()
                        - old(sender).queued().len(),
                )
            },
        old(store).obeys_model() && old(store).never_fails() ==> spec_blocklist(final(store).stored()) == blocklist_after(
            spec_str_lines(reply@),
            spec_blocklist(old(store).stored()),
        ),
        final(store).obeys_model() == old(store).obeys_model(),
        final(store).never_fails() == old(store).never_fails(),
        old(store).obeys_model() && old(store).never_fails() ==> spec_load_bool(final(store).stored(), keys::FWD_ENABLED@)
            == forwarding_after(spec_str_lines(reply@), spec_load_bool(old(store).stored(), keys::FWD_ENABLED@)),
{
    let lines = str_lines(reply);
    let ghost ls = string_views(lines@);
    let mut display: Vec<String> = Vec::new();
    let mut restart = false;
    let mut pause_mins: Option<u32> = None;
    let mut events: Vec<LogEvent> = Vec::new();
    let mut i: usize = 0;
    let ghost mut lim: Seq<bool> = Seq::empty();
    proof {
        sender.lemma_wf_bounds();
    }
    assert(display_lines(ls.take(0)) =~= Seq::<Seq<char>>::empty());
    assert(string_views(display@) =~= shown_lines(ls.take(0), lim));
    while i < lines.len()
        invariant
            i <= lines@.len(),
            ls == string_views(lines@),
            ls == spec_str_lines(reply@),
            sender.wf(),
            old(sender).queued().is_prefix_of(sender.queued()),
            restart == exists|k: int| 0 <= k < i && #[trigger] line_kind(ls[k]) is Restart,
            pause_mins == last_pause(ls.take(i as int)),
            (forall|k: int| 0 <= k < i ==> !touches_store(#[trigger] line_kind(ls[k]))) ==> store.stored() == old(store).stored(),
            (forall|k: int| 0 <= k < i ==> !(#[trigger] line_kind(ls[k]) is Send)) ==> string_views(display@) == display_lines(ls.take(i as int))
                && sender.queued() == old(sender).queued(),
            send_requests(ls.take(i as int)).len() == 0 ==> sender.queued() == old(sender).queued(),
            send_requests(ls.take(i as int)).len() == 1 ==> (sender.queued() == old(sender).queued().push(
                send_requests(ls.take(i as int))[0],
            ) || sender.queued() == old(sender).queued()),
            store.obeys_model() == old(store).obeys_model(),
            store.never_fails() == old(store).never_fails(),
            old(store).obeys_model() && old(store).never_fails() ==> spec_load_bool(store.stored(), keys::FWD_ENABLED@)
                == forwarding_after(ls.take(i as int), spec_load_bool(old(store).stored(), keys::FWD_ENABLED@)),
            lim.len() == i,
            string_views(display@) == shown_lines(ls.take(i as int), lim),
            sender.queued() == sends_applied(ls.take(i as int), lim, old(sender).queued()),
            limits_fair(ls.take(i as int), lim, old(sender).queued(), old(sender).command_times().len() as int),
            sender.command_times().len() == min_int(
                RATE_MAX_SENDS as int,
                old(sender).command_times().len() + sends_applied(ls.take(i as int), lim, old(sender).queued()).len()
                    - old(sender).queued().len(),
            ),
            old(store).obeys_model() && old(store).never_fails() ==> spec_blocklist(store.stored()) == blocklist_after(
                ls.take(i as int),
                spec_blocklist(old(store).stored()),
            ),
        decreases lines@.len() - i,
    {
        let ghost before_display = display@;
        let ghost before_store = store.stored();
        let ghost mut limited_now = false;
        let ghost lim0 = lim;
        let ghost tb = sender.command_times();
        let line = &lines[i];
        assert(ls[i as int] == line@);
        assert(ls.take(i + 1).drop_last() =~= ls.take(i as int));
        assert(ls.take(i + 1).last() == line@);
        let cs = str_to_chars(line.as_str());
        if let Some(rest) = strip_prefix_chars(&cs, SEND_SENTINEL) {
            match find_char_at(rest.as_slice(), '|', 0) {
                Some(bar) => {
                    proof {
                        lemma_find_char_range(rest@, '|', 0);
                    }
                    let phone = chars_to_string(vstd::slice::slice_subrange(rest.as_slice(), 0, bar));
                    let enc = chars_to_string(vstd::slice::slice_subrange(rest.as_slice(), bar + 1, rest.len()));
                    let body = poller_body(enc.as_str());
                    let (preview, _) = char_prefix(body.as_str(), 50);
                    let preview_owned = to_owned_string(preview);
                    match sender.enqueue_command_send(phone.clone(), body) {
                        CmdSendResult::Enqueued(_) => {
                            let mut d = str_with("queued SMS to ", phone.as_str());
                            push_str(&mut d, ": ");
                            push_str(&mut d, preview_owned.as_str());
                            events.push(LogEvent::user("/send", d.as_str(), true));
                        },
                        CmdSendResult::QueueFull => {
                            events.push(LogEvent::user("/send", "SMS queue full", false));
                        },
                        CmdSendResult::RateLimited => {
                            proof {
                                limited_now = true;
                                assert(tb.len() >= RATE_MAX_SENDS);
                            }
                            display.push(to_owned_string(send_rate_limited()));
                            events.push(LogEvent::user("/send", "rate limited", false));
                        },
                    }
                },
                None => {},
            }
        } else if let Some(rest) = strip_prefix_chars(&cs, BLOCK_SENTINEL) {
            let phone = chars_to_string(rest.as_slice());
            let ok = add_to_blocklist(phone.as_str(), store).is_ok();
            proof {
                assert(line_kind(line@) == SentinelLine::Block(phone@));
            }
            events.push(LogEvent::user("/block", str_with("blocked ", phone.as_str()).as_str(), ok));
        } else if let Some(rest) = strip_prefix_chars(&cs, UNBLOCK_SENTINEL) {
            let phone = chars_to_string(rest.as_slice());
            let ok = remove_from_blocklist(phone.as_str(), store);
            proof {
                assert(line_kind(line@) == SentinelLine::Unblock(phone@));
                if old(store).obeys_model() && old(store).never_fails() && !ok {
                    lemma_without_absent(spec_blocklist(before_store), spec_normalize_phone(phone@));
                }
            }
            events.push(LogEvent::user("/unblock", str_with("unblocked ", phone.as_str()).as_str(), ok));
        } else if let Some(rest) = strip_prefix_chars(&cs, PAUSE_SENTINEL) {
            let mins = crate::commands::builtin::pause::pause_minutes(chars_to_string(rest.as_slice()).as_str());
            let ok = save_bool(store, keys::FWD_ENABLED, false).is_ok();
            pause_mins = Some(mins);
            let mut d = str_with("paused forwarding for ", "");
            push_decimal(&mut d, mins as u64);
            push_str(&mut d, " min");
            events.push(LogEvent::user("/pause", d.as_str(), ok));
        } else if strip_prefix_chars(&cs, RESUME_SENTINEL).is_some() {
            let ok = save_bool(store, keys::FWD_ENABLED, true).is_ok();
            events.push(LogEvent::user("/resume", "resumed forwarding", ok));
        } else if strip_prefix_chars(&cs, RESTART_SENTINEL).is_some() {
            restart = true;
            events.push(LogEvent::user("/restart", "restart requested", true));
        } else {
            display.push(line.clone());
            proof {
                assert(string_views(display@) =~= string_views(before_display).push(line@));
            }
        }
        proof {
            lim = lim.push(limited_now);
            assert(lim.drop_last() =~= lim0);
            let t0 = old(sender).command_times().len() as int;
            let q0 = old(sender).queued();
            assert forall|k: int| 0 <= k < ls.take(i + 1).len() && #[trigger] lim[k] implies send_request(ls.take(i + 1)[k]) is Some
                && t0 + sends_applied(ls.take(i + 1).take(k), lim.take(k), q0).len() - q0.len() >= RATE_MAX_SENDS by {
                if k < i {
                    assert(ls.take(i + 1).take(k) =~= ls.take(i as int).take(k));
                    assert(lim.take(k) =~= lim0.take(k));
                    assert(lim[k] == lim0[k]);
                    assert(ls.take(i + 1)[k] == ls.take(i as int)[k]);
                } else {
                    assert(ls.take(i + 1).take(k) =~= ls.take(i as int));
                    assert(lim.take(k) =~= lim0);
                }
            }
            if old(store).obeys_model() && old(store).never_fails() {
                reveal_strlit("fwd_enabled");
                reveal_strlit("block_list");
                assert(keys::FWD_ENABLED@ != keys::BLOCK_LIST@) by {
                    assert(keys::FWD_ENABLED@[0] != keys::BLOCK_LIST@[0]);
                }
                let l0 = spec_blocklist(old(store).stored());
                assert(blocklist_after(ls.take(i + 1), l0) == match line_kind(line@) {
                    SentinelLine::Block(p) => with_number(blocklist_after(ls.take(i as int), l0), spec_normalize_phone(p)),
                    SentinelLine::Unblock(p) => without(blocklist_after(ls.take(i as int), l0), spec_normalize_phone(p)),
                    _ => blocklist_after(ls.take(i as int), l0),
                });
                if line_kind(line@) is Pause || line_kind(line@) is Resume {
                    assert(store.stored().dom().contains(keys::BLOCK_LIST@) == before_store.dom().contains(keys::BLOCK_LIST@));
                    assert(spec_blocklist(store.stored()) == spec_blocklist(before_store));
                }
            }
            if line_kind(line@) is Display {
                assert(string_views(display@) =~= string_views(before_display).push(line@));
            } else if line_kind(line@) is Send && limited_now {
                assert(string_views(display@) =~= string_views(before_display).push(
                    "Rate limit: at most 5 /send commands per minute."@,
                ));
            } else {
                assert(display@ == before_display);
            }
            assert(string_views(display@) == shown_lines(ls.take(i + 1), lim));
            if !touches_store(line_kind(line@)) {
                assert(store.stored() == before_store);
            }
            if old(store).obeys_model() && old(store).never_fails() {
                reveal_strlit("fwd_enabled");
                reveal_strlit("block_list");
                assert(keys::FWD_ENABLED@ != keys::BLOCK_LIST@) by {
                    assert(keys::FWD_ENABLED@[0] != keys::BLOCK_LIST@[0]);
                }
                let prior = spec_load_bool(old(store).stored(), keys::FWD_ENABLED@);
                assert(forwarding_after(ls.take(i + 1), prior) == match line_kind(line@) {
                    SentinelLine::Pause(_) => Some(false),
                    SentinelLine::Resume => Some(true),
                    _ => forwarding_after(ls.take(i as int), prior),
                });
                if line_kind(line@) is Block || line_kind(line@) is Unblock {
                    assert(spec_load_bool(store.stored(), keys::FWD_ENABLED@) == spec_load_bool(
                        before_store,
                        keys::FWD_ENABLED@,
                    ));
                }
            }
            if !(line_kind(line@) is Send) {
                if !(line_kind(line@) is Display) {
                    assert(display@ == before_display);
                }
            }
            if restart {
                if !(exists|k: int| 0 <= k < i && #[trigger] line_kind(ls[k]) is Restart) {
                    assert(line_kind(ls[i as int]) is Restart);
                }
            }
        }
        i = i + 1;
    }
    assert(ls.take(lines@.len() as int) =~= ls);
    let text = join_lines(&display);
    assert(text@ == spec_join(shown_lines(ls, lim)));
    (text, restart, pause_mins, events)
}

// ---------------------------------------------------------------------------
// Dispatch
// ---------------------------------------------------------------------------

/// A `/`-command text split into name (without `@bot`) and trimmed arguments; `None`
/// without the leading `/`.
pub open spec fn spec_split_command(text: Seq<char>) -> Option<(Seq<char>, Seq<char>)> {
    if text.len() > 0 && text[0] == '/' {
        let t = text.skip(1);
        let i = first_ws_from(t, 0);
        let (name, args) = if i < 0 { (t, Seq::<char>::empty()) } else { (t.take(i), t.skip(i + 1)) };
        Some((before_at(name), spec_trim(args)))
    } else {
        None
    }
}

/// Splits a `/`-command into name and arguments.
pub fn split_command(text: &str) -> (r: Option<(String, String)>)
    ensures
        match spec_split_command(text@) {
            Some((n, a)) => r matches Some(x) && x.0@ == n && x.1@ == a,
            None => r is None,
        },
{
    let cs = str_to_chars(text);
    if cs.len() == 0 || cs[0] != '/' {
        return None;
    }
    let t = vstd::slice::slice_subrange(cs.as_slice(), 1, cs.len());
    assert(t@ =~= text@.skip(1));
    let mut k: usize = 0;
    while k < t.len() && !is_white_space_exec(t[k])
        invariant
            k <= t@.len(),
            first_ws_from(t@, 0) == first_ws_from(t@, k as int),
        decreases t@.len() - k,
    {
        k = k + 1;
    }
    let name_cs = vstd::slice::slice_subrange(t, 0, k);
    let args_cs = if k < t.len() {
        vstd::slice::slice_subrange(t, k + 1, t.len())
    } else {
        vstd::slice::slice_subrange(t, k, k)
    };
    proof {
        if k >= t@.len() {
            assert(name_cs@ =~= t@);
            assert(args_cs@ =~= Seq::<char>::empty());
        } else {
            assert(name_cs@ =~= t@.take(k as int));
            assert(args_cs@ =~= t@.skip(k + 1));
        }
    }
    let name = match find_char_at(name_cs, '@', 0) {
        Some(j) => {
            proof {
                lemma_find_char_range(name_cs@, '@', 0);
            }
            chars_to_string(vstd::slice::slice_subrange(name_cs, 0, j))
        },
        None => chars_to_string(name_cs),
    };
    proof {
        lemma_find_char_range(name_cs@, '@', 0);
        if find_char_from(name_cs@, '@', 0) >= 0 {
            assert(name@ =~= before_at(name_cs@));
        }
    }
    let args = chars_to_string(trim_chars(args_cs).as_slice());
    Some((name, args))
}

/// The log page at `offset`, rendered with a command context over the given state.
fn log_page(
    store: &dyn Store,
    modem_status: &ModemStatus,
    log: &mut LogRing,
    sender: &SmsSender,
    uptime_ms: u32,
    free_heap_bytes: u32,
    wifi_info: &str,
    build_commit: &str,
    offset: usize,
) -> (r: crate::commands::builtin::log_cmd::LogPage)
    requires
        old(log).wf(),
    ensures
        final(log).wf(),
        final(log).flash() == old(log).flash(),
        final(log).never_fails() == old(log).never_fails(),
        ({
            let flash = old(log).flash();
            let slots = old(log).slot_count();
            ||| exists|total: usize| (total == 0 || total == headers_upto(flash, slots).len()) && #[trigger] page_shows(
                &r,
                total,
                offset,
                spec_page_entries(flash, slots, offset),
            )
            ||| (exists|m: Seq<char>| r.text@ == "Log read failed: "@ + m) && r.keyboard is None && r.format
                == MessageFormat::Plain
        }),
        old(log).never_fails() ==> exists|total: usize|
            total == headers_upto(old(log).flash(), old(log).slot_count()).len() && #[trigger] page_shows(
                &r,
                total,
                offset,
                spec_page_entries(old(log).flash(), old(log).slot_count(), offset),
            ),
{
    let ctx = CommandContext {
        store,
        modem_status,
        send_queue: sender,
        uptime_ms,
        free_heap_bytes,
        min_free_heap_bytes: 0,
        wifi_info,
        build_commit,
    };
    render_log_page(&ctx, log, offset)
}



/// Queues a reply to a forwarded SMS for its sender, and the event to log.
/// The event logged for a reply routed to `phone`: queued, or refused by a full queue.
pub open spec fn reply_event(queued: bool, phone: Seq<char>) -> SpecLogEvent {
    if queued {
        SpecLogEvent { kind: LogKind::User, sender: "/reply"@, body_preview: "queued SMS reply to "@ + phone, forwarded: true }
    } else {
        SpecLogEvent { kind: LogKind::User, sender: "/reply"@, body_preview: "SMS reply queue full"@, forwarded: false }
    }
}

/// What routing a reply does: nothing when `reply_to` names no forwarded message;
/// else the text is queued as an SMS to its sender when the queue has room, or refused
/// when it is full, and one event says which.
pub open spec fn routed(
    slots: Seq<(i64, Seq<u8>)>,
    reply_to: i64,
    text: Seq<char>,
    q0: Seq<(Seq<char>, Seq<char>)>,
    q1: Seq<(Seq<char>, Seq<char>)>,
    e0: Seq<LogEvent>,
    e1: Seq<LogEvent>,
) -> bool {
    match spec_lookup(slots, reply_to) {
        None => q1 == q0 && e1 == e0,
        Some(p) => {
            &&& e1.len() == e0.len() + 1
            &&& e1.drop_last() == e0
            &&& if q0.len() < SEND_QUEUE_CAPACITY {
                q1 == q0.push((p, text)) && e1.last()@ == reply_event(true, p)
            } else {
                q1 == q0 && e1.last()@ == reply_event(false, p)
            }
        },
    }
}

fn route_reply(router: &ReplyRouter, reply_to: i64, text: &str, sender: &mut SmsSender, events: &mut Vec<LogEvent>)
    requires
        router.wf(),
        old(sender).wf(),
    ensures
        final(sender).wf(),
        final(sender).command_times() == old(sender).command_times(),
        routed(router.view_slots(), reply_to, text@, old(sender).queued(), final(sender).queued(), old(events)@, final(events)@),
{
    if let Some(phone) = router.lookup(reply_to) {
        match sender.enqueue(to_owned_string(phone), to_owned_string(text)) {
            None => {
                let ghost e0 = events@;
                events.push(LogEvent::user("/reply", "SMS reply queue full", false));
                proof {
                    reveal_strlit("/reply");
                    reveal_strlit("SMS reply queue full");
                }
                assert(events@.drop_last() =~= e0);
            },
            Some(_) => {
                let ghost e0 = events@;
                events.push(LogEvent::user("/reply", str_with("queued SMS reply to ", phone).as_str(), true));
                proof {
                    reveal_strlit("/reply");
                    reveal_strlit("queued SMS reply to ");
                }
                assert(events@.drop_last() =~= e0);
            },
        }
    }
}

/// A batch of one plain message (no button press, not a command) that replies to an
/// earlier message.
pub open spec fn single_reply(messages: Seq<InboundMessage>) -> bool {
    &&& messages.len() == 1
    &&& messages[0].callback is None
    &&& !starts_with(spec_trim(messages[0].text@), "/"@)
    &&& messages[0].reply_to is Some
}

/// A button press that asks for a log page.
pub open spec fn is_log_callback(m: InboundMessage) -> bool {
    m.callback matches Some(cb) && spec_log_callback(cb.data@) is Some
}

/// A `/` command, other than a log button press.
pub open spec fn is_command(m: InboundMessage) -> bool {
    !is_log_callback(m) && starts_with(spec_trim(m.text@), "/"@)
}

/// The `/log` command.
pub open spec fn is_log_command(m: InboundMessage) -> bool {
    is_command(m) && (spec_split_command(spec_trim(m.text@)) matches Some(p) && p.0 == "log"@)
}

/// Whether a reply holds a restart line.
pub open spec fn has_restart(t: Seq<char>) -> bool {
    exists|i: int| 0 <= i < spec_str_lines(t).len() && #[trigger] line_kind(spec_str_lines(t)[i]) is Restart
}

/// Whether `reply` is what the registry answers to the command text `text`, in a
/// context with the given device figures, for some state of the store, the send queue
/// and the log at the time of the command.
pub open spec fn answered_with<C: Command>(
    registry: &CommandRegistry<C>,
    text: Seq<char>,
    modem_status: ModemStatus,
    uptime_ms: u32,
    free_heap_bytes: u32,
    wifi_info: Seq<char>,
    build_commit: Seq<char>,
    reply: Seq<char>,
) -> bool {
    exists|ctx: CommandContext, lg: LogRing|
        #[trigger] registry.answers(text, &ctx, lg, reply) && *ctx.modem_status == modem_status && ctx.uptime_ms
            == uptime_ms && ctx.free_heap_bytes == free_heap_bytes && ctx.wifi_info@ == wifi_info
            && ctx.build_commit@ == build_commit
}

proof fn lemma_answered_with<C: Command>(
    registry: &CommandRegistry<C>,
    text: Seq<char>,
    ctx: &CommandContext,
    lg: LogRing,
    reply: Seq<char>,
)
    requires
        registry.answers(text, ctx, lg, reply),
    ensures
        answered_with(
            registry,
            text,
            *ctx.modem_status,
            ctx.uptime_ms,
            ctx.free_heap_bytes,
            ctx.wifi_info@,
            ctx.build_commit@,
            reply,
        ),
{
    let c = *ctx;
    assert(registry.answers(text, &c, lg, reply));
}

/// Whether any of the command replies holds a restart line.
pub open spec fn restart_in(rs: Seq<Option<Seq<char>>>) -> bool
    decreases rs.len(),
{
    if rs.len() == 0 {
        false
    } else {
        (rs.last() matches Some(t) && has_restart(t)) || restart_in(rs.drop_last())
    }
}

/// The minutes of the last pause line over the command replies, in order.
pub open spec fn pause_over(rs: Seq<Option<Seq<char>>>) -> Option<u32>
    decreases rs.len(),
{
    if rs.len() == 0 {
        None
    } else {
        match rs.last() {
            Some(t) => match last_pause(spec_str_lines(t)) {
                Some(m) => Some(m),
                None => pause_over(rs.drop_last()),
            },
            None => pause_over(rs.drop_last()),
        }
    }
}

/// The forwarding flag after the command replies, in order, from `prior`.
pub open spec fn forwarding_over(rs: Seq<Option<Seq<char>>>, prior: Option<bool>) -> Option<bool>
    decreases rs.len(),
{
    if rs.len() == 0 {
        prior
    } else {
        match rs.last() {
            Some(t) => forwarding_after(spec_str_lines(t), forwarding_over(rs.drop_last(), prior)),
            None => forwarding_over(rs.drop_last(), prior),
        }
    }
}

/// The offset a `/log` command asks for.
pub open spec fn log_command_offset(m: InboundMessage) -> usize {
    match spec_split_command(spec_trim(m.text@)) {
        Some((_, a)) => spec_log_offset(a),
        None => 0,
    }
}

/// The text of the log page at `offset` over the log `lg`.
pub open spec fn log_page_text(lg: LogRing, offset: usize) -> Seq<char> {
    spec_log_page_text(
        headers_upto(lg.flash(), lg.slot_count()).len() as usize,
        offset,
        spec_page_entries(lg.flash(), lg.slot_count(), offset),
    )
}

/// What a command reply shows the user: its ordinary lines, with the rate-limit notice
/// for each send line that `limited` marks, joined and trimmed.
pub open spec fn reply_shown(t: Seq<char>, limited: Seq<bool>) -> Seq<char> {
    spec_trim(spec_join(shown_lines(spec_str_lines(t), limited)))
}

/// What handling one message delivers through the messenger (`db` to `da`), with `rep`
/// the registry's reply, `limited` the send lines of that reply refused by the rate
/// limit, and `lg` the log before the message: a log button edits a message, which the
/// model does not follow; `/log` sends one message, the log page at its offset (for a
/// log that never fails to read); a command with a reply sends the reply as shown
/// (`reply_shown`) unless that is empty; anything else sends nothing. A sink that never
/// fails delivers each such message.
pub open spec fn messenger_step(
    m: InboundMessage,
    db: Seq<Seq<char>>,
    da: Seq<Seq<char>>,
    rep: Option<Seq<char>>,
    limited: Seq<bool>,
    lg: LogRing,
    never_fails: bool,
) -> bool {
    if is_log_callback(m) {
        true
    } else if is_log_command(m) {
        &&& da == db || (da.len() == db.len() + 1 && da.drop_last() == db && (lg.never_fails() ==> da.last()
            == log_page_text(lg, log_command_offset(m))))
        &&& never_fails ==> da.len() == db.len() + 1
    } else if is_command(m) {
        match rep {
            None => da == db,
            Some(t) => if reply_shown(t, limited).len() == 0 {
                da == db
            } else {
                &&& da == db || da == db.push(reply_shown(t, limited))
                &&& never_fails ==> da == db.push(reply_shown(t, limited))
            },
        }
    } else {
        da == db
    }
}

/// What the sentinel lines of one message's reply do to the SMS queue (`qb` to `qa`),
/// the number of recorded `/send` commands (`tb` to `ta`) and the saved block list
/// (`blb` to `bla`, followed for a store that keeps its model and never fails):
/// each send request is queued unless `limited` marks it as refused by the rate limit
/// or the queue is full; the rate limit refuses only once `RATE_MAX_SENDS` commands are
/// recorded; block and unblock lines apply in order. Without a reply none of them
/// changes.
pub open spec fn sentinel_step(
    rep: Option<Seq<char>>,
    limited: Seq<bool>,
    qb: Seq<(Seq<char>, Seq<char>)>,
    qa: Seq<(Seq<char>, Seq<char>)>,
    tb: int,
    ta: int,
    blb: Seq<Seq<char>>,
    bla: Seq<Seq<char>>,
    store_obeys: bool,
    store_never_fails: bool,
) -> bool {
    match rep {
        Some(t) => {
            &&& limited.len() == spec_str_lines(t).len()
            &&& qa == sends_applied(spec_str_lines(t), limited, qb)
            &&& limits_fair(spec_str_lines(t), limited, qb, tb)
            &&& ta == min_int(RATE_MAX_SENDS as int, tb + qa.len() - qb.len())
            &&& store_obeys && store_never_fails ==> bla == blocklist_after(spec_str_lines(t), blb)
        },
        None => ta == tb && (store_obeys && store_never_fails ==> bla == blb),
    }
}

/// What handling one message does to the SMS queue (`qb` to `qa`) and the events (`eb`
/// to `ea`), with `rep` the registry's reply to it: a log page changes neither; a
/// command is answered exactly when the registry knows its name, and its reply's send
/// lines only add to the queue; a reply to a forwarded SMS is routed to its sender;
/// anything else changes nothing.
pub open spec fn dispatch_step(
    m: InboundMessage,
    slots: Seq<(i64, Seq<u8>)>,
    names: Seq<Seq<char>>,
    qb: Seq<(Seq<char>, Seq<char>)>,
    qa: Seq<(Seq<char>, Seq<char>)>,
    eb: Seq<LogEvent>,
    ea: Seq<LogEvent>,
    rep: Option<Seq<char>>,
) -> bool {
    if is_log_callback(m) || is_log_command(m) {
        rep is None && qa == qb && ea == eb
    } else if is_command(m) {
        &&& (rep is Some <==> names.contains(spec_command_name(spec_trim(m.text@))))
        &&& qb.is_prefix_of(qa)
        &&& eb.is_prefix_of(ea)
        &&& rep is None ==> qa == qb && ea == eb
        &&& (rep matches Some(t) ==> (send_requests(spec_str_lines(t)).len() == 0 ==> qa == qb))
    } else {
        &&& rep is None
        &&& match m.reply_to {
            Some(id) => routed(slots, id, spec_trim(m.text@), qb, qa, eb, ea),
            None => qa == qb && ea == eb,
        }
    }
}

/// Process a batch of inbound IM messages: dispatch commands and route replies to SMS.
/// Returns command side effects plus machine-log events.
///
/// A `log:<n>` button callback edits its message to show that log page; `/log [n]`
/// sends the page; another `/`-command goes to the registry, and its reply's sentinel
/// lines are applied before the rest is sent; a reply to a forwarded SMS is queued as
/// an SMS to its sender. Anything else is ignored. Delivery failures are not errors of
/// the batch.
///
/// The contract follows the batch message by message (`dispatch_step`,
/// `sentinel_step`, `messenger_step`): each command reply is what the registry answers
/// (`answered_with`); its send lines are queued unless refused by the rate limit or a
/// full queue, its block and unblock lines change the saved block list in order, and
/// the restart request, the pause and the stored forwarding flag follow the sentinel
/// lines of the replies in order; what a command sends to the chat is its reply without
/// them, and `/log` sends the log page it names.
#[verifier::rlimit(100)]
#[verifier::spinoff_prover]
pub fn poll_and_dispatch<K: MessageSink + ?Sized, C: Command>(
    messages: &[InboundMessage],
    messenger: &mut K,
    sender: &mut SmsSender,
    router: &ReplyRouter,
    registry: &CommandRegistry<C>,
    store: &mut dyn Store,
    log: &mut LogRing,
    modem_status: &ModemStatus,
    uptime_ms: u32,
    free_heap_bytes: u32,
    wifi_info: &str,
    build_commit: &str,
) -> (r: Result<DispatchOutcome, MessengerError>)
    requires
        router.wf(),
        old(log).wf(),
        old(sender).wf(),
    ensures
        final(log).wf(),
        final(sender).wf(),
        r is Ok,
        (forall|i: int| 0 <= i < messages@.len() ==> !starts_with(spec_trim(#[trigger] messages@[i].text@), "/"@))
            ==> (r matches Ok(o) && !o.restart_requested && o.pause_mins is None && final(store).stored()
            == old(store).stored()),
        single_reply(messages@) ==> (r matches Ok(o) && routed(
            router.view_slots(),
            messages@[0].reply_to->0,
            spec_trim(messages@[0].text@),
            old(sender).queued(),
            final(sender).queued(),
            Seq::empty(),
            o.events@,
        )),
        final(messenger).obeys_model() == old(messenger).obeys_model(),
        final(messenger).never_fails() == old(messenger).never_fails(),
        final(store).obeys_model() == old(store).obeys_model(),
        final(store).never_fails() == old(store).never_fails(),
        r matches Ok(o) ==> exists|
            qs: Seq<Seq<(Seq<char>, Seq<char>)>>,
            es: Seq<int>,
            rs: Seq<Option<Seq<char>>>,
            ds: Seq<Seq<Seq<char>>>,
            lims: Seq<Seq<bool>>,
            ts: Seq<int>,
            bls: Seq<Seq<Seq<char>>>,
            lgs: Seq<LogRing>,
        |
            #![trigger qs.len(), es.len(), rs.len(), ds.len(), lims.len(), ts.len(), bls.len(), lgs.len()]
            {
            &&& ds.len() == messages@.len() + 1
            &&& ds[0] == old(messenger).delivered()
            &&& ds[messages@.len() as int] == final(messenger).delivered()
            &&& lims.len() == messages@.len()
            &&& lgs.len() == messages@.len() + 1
            &&& lgs[0] == *old(log)
            &&& lgs[messages@.len() as int] == *final(log)
            &&& forall|i: int|
                0 <= i < messages@.len() ==> (#[trigger] lgs[i + 1]).flash() == lgs[i].flash() && lgs[i + 1].never_fails()
                    == lgs[i].never_fails() && lgs[i + 1].slot_count() == lgs[i].slot_count()
            &&& old(messenger).obeys_model() ==> forall|i: int|
                0 <= i < messages@.len() ==> #[trigger] messenger_step(
                    messages@[i],
                    ds[i],
                    ds[i + 1],
                    rs[i],
                    lims[i],
                    lgs[i],
                    old(messenger).never_fails(),
                )
            &&& ts.len() == messages@.len() + 1
            &&& bls.len() == messages@.len() + 1
            &&& ts[0] == old(sender).command_times().len()
            &&& ts[messages@.len() as int] == final(sender).command_times().len()
            &&& bls[0] == spec_blocklist(old(store).stored())
            &&& bls[messages@.len() as int] == spec_blocklist(final(store).stored())
            &&& forall|i: int|
                0 <= i < messages@.len() ==> #[trigger] sentinel_step(
                    rs[i],
                    lims[i],
                    qs[i],
                    qs[i + 1],
                    ts[i],
                    ts[i + 1],
                    bls[i],
                    bls[i + 1],
                    old(store).obeys_model(),
                    old(store).never_fails(),
                )
            &&& qs.len() == messages@.len() + 1
            &&& es.len() == messages@.len() + 1
            &&& rs.len() == messages@.len()
            &&& qs[0] == old(sender).queued()
            &&& qs[messages@.len() as int] == final(sender).queued()
            &&& es[0] == 0
            &&& es[messages@.len() as int] == o.events@.len()
            &&& forall|i: int| 0 <= i <= messages@.len() ==> 0 <= #[trigger] es[i] <= o.events@.len()
            &&& forall|i: int|
                0 <= i < messages@.len() ==> #[trigger] dispatch_step(
                    messages@[i],
                    router.view_slots(),
                    registry.names(),
                    qs[i],
                    qs[i + 1],
                    o.events@.take(es[i]),
                    o.events@.take(es[i + 1]),
                    rs[i],
                )
            &&& o.restart_requested == restart_in(rs)
            &&& o.pause_mins == pause_over(rs)
            &&& old(store).obeys_model() && old(store).never_fails() ==> spec_load_bool(
                final(store).stored(),
                keys::FWD_ENABLED@,
            ) == forwarding_over(rs, spec_load_bool(old(store).stored(), keys::FWD_ENABLED@))
            &&& forall|i: int|
                0 <= i < messages@.len() ==> (#[trigger] rs[i] matches Some(t) ==> answered_with(
                    registry,
                    spec_trim(messages@[i].text@),
                    *modem_status,
                    uptime_ms,
                    free_heap_bytes,
                    wifi_info@,
                    build_commit@,
                    t,
                ))
        },
{
    let mut restart_requested = false;
    let mut pause_mins: Option<u32> = None;
    let mut events: Vec<LogEvent> = Vec::new();
    let ghost mut qs: Seq<Seq<(Seq<char>, Seq<char>)>> = seq![sender.queued()];
    let ghost mut es: Seq<int> = seq![0int];
    let ghost mut rs: Seq<Option<Seq<char>>> = Seq::empty();
    let ghost mut ds: Seq<Seq<Seq<char>>> = seq![messenger.delivered()];
    let ghost mut lims: Seq<Seq<bool>> = Seq::empty();
    let ghost mut ts: Seq<int> = seq![sender.command_times().len() as int];
    let ghost mut bls: Seq<Seq<Seq<char>>> = seq![spec_blocklist(store.stored())];
    let ghost mut lgs: Seq<LogRing> = seq![*log];
    let mut idx: usize = 0;
    while idx < messages.len()
        invariant
            idx <= messages@.len(),
            router.wf(),
            log.wf(),
            sender.wf(),
            (forall|i: int| 0 <= i < messages@.len() ==> !starts_with(spec_trim(#[trigger] messages@[i].text@), "/"@))
                ==> (!restart_requested && pause_mins is None && store.stored() == old(store).stored()),
            single_reply(messages@) && idx == 0 ==> sender.queued() == old(sender).queued() && events@.len() == 0,
            single_reply(messages@) && idx == 1 ==> routed(
                router.view_slots(),
                messages@[0].reply_to->0,
                spec_trim(messages@[0].text@),
                old(sender).queued(),
                sender.queued(),
                Seq::empty(),
                events@,
            ),
            qs.len() == idx + 1,
            es.len() == idx + 1,
            rs.len() == idx,
            qs[0] == old(sender).queued(),
            qs[idx as int] == sender.queued(),
            es[0] == 0,
            es[idx as int] == events@.len(),
            forall|i: int| 0 <= i <= idx ==> 0 <= #[trigger] es[i] <= events@.len(),
            forall|i: int|
                0 <= i < idx ==> #[trigger] dispatch_step(
                    messages@[i],
                    router.view_slots(),
                    registry.names(),
                    qs[i],
                    qs[i + 1],
                    events@.take(es[i]),
                    events@.take(es[i + 1]),
                    rs[i],
                ),
            restart_requested == restart_in(rs),
            pause_mins == pause_over(rs),
            messenger.obeys_model() == old(messenger).obeys_model(),
            messenger.never_fails() == old(messenger).never_fails(),
            ds.len() == idx + 1,
            ds[0] == old(messenger).delivered(),
            ds[idx as int] == messenger.delivered(),
            old(messenger).obeys_model() ==> forall|i: int|
                0 <= i < idx ==> #[trigger] messenger_step(
                    messages@[i],
                    ds[i],
                    ds[i + 1],
                    rs[i],
                    lims[i],
                    lgs[i],
                    old(messenger).never_fails(),
                ),
            lims.len() == idx,
            lgs.len() == idx + 1,
            lgs[0] == *old(log),
            lgs[idx as int] == *log,
            forall|i: int|
                0 <= i < idx ==> (#[trigger] lgs[i + 1]).flash() == lgs[i].flash() && lgs[i + 1].never_fails()
                    == lgs[i].never_fails() && lgs[i + 1].slot_count() == lgs[i].slot_count(),
            ts.len() == idx + 1,
            bls.len() == idx + 1,
            ts[0] == old(sender).command_times().len(),
            ts[idx as int] == sender.command_times().len(),
            bls[0] == spec_blocklist(old(store).stored()),
            bls[idx as int] == spec_blocklist(store.stored()),
            forall|i: int|
                0 <= i < idx ==> #[trigger] sentinel_step(
                    rs[i],
                    lims[i],
                    qs[i],
                    qs[i + 1],
                    ts[i],
                    ts[i + 1],
                    bls[i],
                    bls[i + 1],
                    old(store).obeys_model(),
                    old(store).never_fails(),
                ),
            store.obeys_model() == old(store).obeys_model(),
            store.never_fails() == old(store).never_fails(),
            old(store).obeys_model() && old(store).never_fails() ==> spec_load_bool(store.stored(), keys::FWD_ENABLED@)
                == forwarding_over(rs, spec_load_bool(old(store).stored(), keys::FWD_ENABLED@)),
            forall|i: int|
                0 <= i < idx ==> (#[trigger] rs[i] matches Some(t) ==> answered_with(
                    registry,
                    spec_trim(messages@[i].text@),
                    *modem_status,
                    uptime_ms,
                    free_heap_bytes,
                    wifi_info@,
                    build_commit@,
                    t,
                )),
        decreases messages@.len() - idx,
    {
        let msg = &messages[idx];
        let ghost qb = sender.queued();
        let ghost db = messenger.delivered();
        let ghost ev0 = events@;
        let ghost m = messages@[idx as int];
        let ghost mut rep: Option<Seq<char>> = None;
        let ghost mut lim: Seq<bool> = Seq::empty();
        let ghost lg0 = *log;
        let ghost tb = sender.command_times().len() as int;
        let ghost blb = spec_blocklist(store.stored());
        idx = idx + 1;
        assert(*msg == messages@[idx - 1]);
        let text = trim_str(msg.text.as_str());
        let log_callback = match &msg.callback {
            Some(callback) => parse_log_callback(callback.data.as_str()),
            None => None,
        };
        if let (Some(offset), Some(callback)) = (log_callback, &msg.callback) {
            let page = log_page(&*store, modem_status, log, &*sender, uptime_ms, free_heap_bytes, wifi_info, build_commit, offset);
            match &page.keyboard {
                Some(keyboard) => {
                    let _ = messenger.edit_message_with_keyboard_and_format(
                        callback.message_id,
                        page.text.as_str(),
                        keyboard,
                        page.format,
                    );
                },
                None => {
                    let _ = messenger.edit_message_with_format(callback.message_id, page.text.as_str(), page.format);
                },
            }
            let _ = messenger.answer_callback_query(callback.id.as_str(), None);
            proof {
                assert(is_log_callback(m));
            }
        } else {
            proof {
                assert(!is_log_callback(m));
            }
            let tc = str_to_chars(text.as_str());
            if tc.len() > 0 && tc[0] == '/' {
                proof {
                    reveal_strlit("/");
                    assert(text@.take(1) =~= "/"@);
                    assert(msg == messages@[idx - 1]);
                    assert(starts_with(spec_trim(messages@[idx - 1].text@), "/"@));
                    assert(is_command(m));
                }
                let split = split_command(text.as_str());
                let is_log = match &split {
                    Some((name, _)) => crate::strutil::str_eq(name.as_str(), "log"),
                    None => false,
                };
                if is_log {
                    proof {
                        reveal_strlit("log");
                        assert(is_log_command(m));
                    }
                    let args = match &split {
                        Some((_, a)) => a.as_str(),
                        None => "",
                    };
                    let offset = parse_log_offset(args);
                    proof {
                        assert(offset == log_command_offset(m));
                    }
                    let page = log_page(&*store, modem_status, log, &*sender, uptime_ms, free_heap_bytes, wifi_info, build_commit, offset);
                    proof {
                        if lg0.never_fails() {
                            let total = choose|total: usize|
                                total == headers_upto(lg0.flash(), lg0.slot_count()).len() && #[trigger] page_shows(
                                    &page,
                                    total,
                                    offset,
                                    spec_page_entries(lg0.flash(), lg0.slot_count(), offset),
                                );
                            assert(page.text@ == log_page_text(lg0, offset));
                        }
                    }
                    match &page.keyboard {
                        Some(keyboard) => {
                            let _ = messenger.send_message_with_keyboard_and_format(page.text.as_str(), keyboard, page.format);
                        },
                        None => {
                            let _ = messenger.send_message_with_format(page.text.as_str(), page.format);
                        },
                    }
                    proof {
                        if old(messenger).obeys_model() && messenger.delivered() != db {
                            assert(messenger.delivered().drop_last() =~= db);
                        }
                    }
                } else {
                    proof {
                        reveal_strlit("log");
                        assert(!is_log_command(m));
                    }
                    let ctx = CommandContext {
                        store: &*store,
                        modem_status,
                        send_queue: &*sender,
                        uptime_ms,
                        free_heap_bytes,
                        min_free_heap_bytes: 0,
                        wifi_info,
                        build_commit,
                    };
                    let ghost log0 = *log;
                    let reply = registry.dispatch(text.as_str(), &ctx, log);
                    if let Some(reply) = reply {
                        proof {
                            rep = Some(reply@);
                            assert(text@ == spec_trim(m.text@));
                            assert(*ctx.modem_status == *modem_status);
                            lemma_answered_with(registry, text@, &ctx, log0, reply@);
                            assert(answered_with(
                                registry,
                                spec_trim(m.text@),
                                *modem_status,
                                uptime_ms,
                                free_heap_bytes,
                                wifi_info@,
                                build_commit@,
                                reply@,
                            ));
                        }
                        let (clean, should_restart, maybe_pause, mut new_events) = apply_sentinels(reply.as_str(), sender, store);
                        if should_restart {
                            restart_requested = true;
                        }
                        if maybe_pause.is_some() {
                            pause_mins = maybe_pause;
                        }
                        let ghost ne = new_events@;
                        events.append(&mut new_events);
                        assert(events@ == ev0 + ne);
                        assert(ev0.is_prefix_of(events@)) by {
                            assert(events@.take(ev0.len() as int) =~= ev0);
                        }
                        let display = trim_str(clean.as_str());
                        proof {
                            lim = choose|limited: Seq<bool>|
                                {
                                    &&& limited.len() == spec_str_lines(reply@).len()
                                    &&& clean@ == spec_join(#[trigger] shown_lines(spec_str_lines(reply@), limited))
                                    &&& sender.queued() == sends_applied(spec_str_lines(reply@), limited, qb)
                                    &&& limits_fair(spec_str_lines(reply@), limited, qb, tb)
                                    &&& sender.command_times().len() == min_int(
                                        RATE_MAX_SENDS as int,
                                        tb + sends_applied(spec_str_lines(reply@), limited, qb).len() - qb.len(),
                                    )
                                };
                            assert(display@ == reply_shown(reply@, lim));
                        }
                        if !display.as_str().is_empty() {
                            let _ = messenger.send_message(display.as_str());
                            proof {
                                if old(messenger).obeys_model() && messenger.delivered() != db {
                                    assert(messenger.delivered() == db.push(display@));
                                    assert(messenger.delivered().drop_last() =~= db);
                                }
                            }
                        }
                    }
                }
            } else {
                proof {
                    reveal_strlit("/");
                    if starts_with(text@, "/"@) {
                        assert(text@[0] == "/"@[0]);
                    }
                    assert(!is_command(m));
                }
                let ghost e_before = events@;
                proof {
                    if single_reply(messages@) && idx == 1 {
                        assert(e_before =~= Seq::<LogEvent>::empty());
                    }
                }
                if let Some(reply_to) = msg.reply_to {
                    route_reply(router, reply_to, text.as_str(), sender, &mut events);
                }
                assert(single_reply(messages@) && idx == 1 ==> routed(
                    router.view_slots(),
                    messages@[0].reply_to->0,
                    spec_trim(messages@[0].text@),
                    old(sender).queued(),
                    sender.queued(),
                    Seq::empty(),
                    events@,
                ));
            }
        }
        proof {
            let k = idx - 1;
            let ghost_old_qs = qs;
            let ghost_old_es = es;
            let ghost_old_rs = rs;
            let ghost_old_ds = ds;
            assert(ev0.is_prefix_of(events@)) by {
                if events@.len() >= ev0.len() {
                    if events@.take(ev0.len() as int) =~= ev0 {
                    }
                }
            }
            let ghost_old_lims = lims;
            let ghost_old_ts = ts;
            let ghost_old_bls = bls;
            let ghost_old_lgs = lgs;
            qs = qs.push(sender.queued());
            es = es.push(events@.len() as int);
            rs = rs.push(rep);
            ds = ds.push(messenger.delivered());
            lims = lims.push(lim);
            ts = ts.push(sender.command_times().len() as int);
            bls = bls.push(spec_blocklist(store.stored()));
            lgs = lgs.push(*log);
            lg0.lemma_slots_of_flash();
            log.lemma_slots_of_flash();
            assert(sentinel_step(rep, lim, qb, sender.queued(), tb, sender.command_times().len() as int, blb, spec_blocklist(store.stored()), old(store).obeys_model(), old(store).never_fails()));
            assert forall|i: int| 0 <= i < idx implies #[trigger] sentinel_step(
                rs[i],
                lims[i],
                qs[i],
                qs[i + 1],
                ts[i],
                ts[i + 1],
                bls[i],
                bls[i + 1],
                old(store).obeys_model(),
                old(store).never_fails(),
            ) by {
                if i < k {
                    assert(rs[i] == ghost_old_rs[i]);
                    assert(lims[i] == ghost_old_lims[i]);
                    assert(qs[i] == ghost_old_qs[i]);
                    assert(qs[i + 1] == ghost_old_qs[i + 1]);
                    assert(ts[i] == ghost_old_ts[i]);
                    assert(ts[i + 1] == ghost_old_ts[i + 1]);
                    assert(bls[i] == ghost_old_bls[i]);
                    assert(bls[i + 1] == ghost_old_bls[i + 1]);
                }
            }
            assert forall|i: int|
                0 <= i < idx implies (#[trigger] lgs[i + 1]).flash() == lgs[i].flash() && lgs[i + 1].never_fails()
                    == lgs[i].never_fails() && lgs[i + 1].slot_count() == lgs[i].slot_count() by {
                if i < k {
                    assert(lgs[i] == ghost_old_lgs[i]);
                    assert(lgs[i + 1] == ghost_old_lgs[i + 1]);
                }
            }
            assert(events@.take(ev0.len() as int) =~= ev0);
            assert forall|i: int| 0 <= i < k implies #[trigger] dispatch_step(
                messages@[i],
                router.view_slots(),
                registry.names(),
                qs[i],
                qs[i + 1],
                events@.take(es[i]),
                events@.take(es[i + 1]),
                rs[i],
            ) by {
                assert(qs[i] == ghost_old_qs[i]);
                assert(qs[i + 1] == ghost_old_qs[i + 1]);
                assert(es[i] == ghost_old_es[i]);
                assert(es[i + 1] == ghost_old_es[i + 1]);
                assert(rs[i] == ghost_old_rs[i]);
                assert(events@.take(es[i]) =~= ev0.take(es[i]));
                assert(events@.take(es[i + 1]) =~= ev0.take(es[i + 1]));
            }
            assert(events@.take(es[k]) =~= ev0);
            assert(events@.take(es[k + 1]) =~= events@);
            assert(rs.drop_last() =~= ghost_old_rs);
            assert(rs.last() == rep);
            if old(messenger).obeys_model() {
                assert(messenger_step(m, db, messenger.delivered(), rep, lim, lg0, old(messenger).never_fails()));
            }
            assert forall|i: int| 0 <= i < idx implies (old(messenger).obeys_model() ==> #[trigger] messenger_step(
                messages@[i],
                ds[i],
                ds[i + 1],
                rs[i],
                lims[i],
                lgs[i],
                old(messenger).never_fails(),
            )) by {
                if i < k {
                    assert(ds[i] == ghost_old_ds[i]);
                    assert(ds[i + 1] == ghost_old_ds[i + 1]);
                    assert(rs[i] == ghost_old_rs[i]);
                    assert(lims[i] == ghost_old_lims[i]);
                    assert(lgs[i] == ghost_old_lgs[i]);
                }
            }
            assert forall|i: int| 0 <= i < idx implies (#[trigger] rs[i] matches Some(t) ==> answered_with(
                registry,
                spec_trim(messages@[i].text@),
                *modem_status,
                uptime_ms,
                free_heap_bytes,
                wifi_info@,
                build_commit@,
                t,
            )) by {
                if i < k {
                    assert(rs[i] == ghost_old_rs[i]);
                }
            }
            assert(dispatch_step(m, router.view_slots(), registry.names(), qb, sender.queued(), ev0, events@, rep));
        }
    }
    proof {
        assert(idx == messages@.len());
    }
    let o = DispatchOutcome { restart_requested, pause_mins, events };
    proof {
        assert(o.events@.take(es[idx as int]) =~= o.events@);
    }
    Ok(o)
}

/// Replies reach the sender: once an SMS from `sender` has been forwarded as message
/// `id` (its sender recorded under `id`), a plain reply to `id` with text `text` is
/// queued as an SMS to `sender` with that text when the queue has room, and refused
/// when it is full; one event says which. Senders longer than the router's 22-byte slot, or holding a NUL,
/// are not covered.
pub proof fn lemma_reply_reaches_sender(
    slots: Seq<(i64, Seq<u8>)>,
    id: i64,
    sender: Seq<char>,
    text: Seq<char>,
    q0: Seq<(Seq<char>, Seq<char>)>,
    q1: Seq<(Seq<char>, Seq<char>)>,
    events: Seq<LogEvent>,
)
    requires
        table_shape(slots),
        id != 0,
        sender.len() > 0,
        encode_utf8(sender).len() <= 22,
        forall|k: int| 0 <= k < encode_utf8(sender).len() ==> encode_utf8(sender)[k] != 0,
        routed(spec_put(slots, id, encode_utf8(sender)), id, text, q0, q1, Seq::empty(), events),
    ensures
        events.len() == 1,
        q0.len() < SEND_QUEUE_CAPACITY ==> q1 == q0.push((sender, text)) && events[0]@ == reply_event(true, sender),
        q0.len() >= SEND_QUEUE_CAPACITY ==> q1 == q0 && events[0]@ == reply_event(false, sender),
{
    lemma_lookup_after_put(slots, id, sender);
    assert(events.last() == events[0]);
}

proof fn lemma_encode_unfold(s: Seq<char>)
    requires
        s.len() > 0,
    ensures
        spec_encode_sentinel_body(s) == sentinel_escape_char(s[0]) + spec_encode_sentinel_body(s.skip(1)),
{
}

/// A `/send` body survives the trip through the sentinel line: decoding its encoding
/// gives it back, whatever it holds.
pub proof fn lemma_send_body_survives(body: Seq<char>)
    ensures
        spec_poller_body(spec_encode_sentinel_body(body)) == body,
{
    lemma_sentinel_body_roundtrip(body);
}

/// `c` does not occur in `s`.
pub open spec fn lacks(s: Seq<char>, c: char) -> bool {
    forall|i: int| 0 <= i < s.len() ==> s[i] != c
}

proof fn lemma_lacks_concat(a: Seq<char>, b: Seq<char>, c: char)
    requires
        lacks(a, c),
        lacks(b, c),
    ensures
        lacks(a + b, c),
{
    assert forall|i: int| 0 <= i < (a + b).len() implies (a + b)[i] != c by {
        if i >= a.len() {
            assert((a + b)[i] == b[i - a.len()]);
        }
    }
}

proof fn lemma_find_absent(s: Seq<char>, c: char)
    requires
        lacks(s, c),
    ensures
        find_char_from(s, c, 0) == -1,
{
    lemma_find_char_range(s, c, 0);
}

proof fn lemma_find_after(x: Seq<char>, y: Seq<char>, c: char)
    requires
        lacks(x, c),
        y.len() > 0,
        y[0] == c,
    ensures
        find_char_from(x + y, c, 0) == x.len(),
{
    let s = x + y;
    lemma_find_char_range(s, c, 0);
    let r = find_char_from(s, c, 0);
    assert(s[x.len() as int] == c);
    if r != x.len() {
        if r == -1 {
            assert(false);
        } else if r < x.len() {
            assert(s[r] == x[r]);
        } else {
            assert(s[x.len() as int] != c);
        }
    }
}

/// Splitting at a line feed: the line before it, then the lines after.
proof fn lemma_lines_split(x: Seq<char>, y: Seq<char>)
    requires
        lacks(x, '\n'),
    ensures
        spec_str_lines(x + seq!['\n'] + y) == seq![strip_cr(x)] + spec_str_lines(y),
{
    let s = x + seq!['\n'] + y;
    assert(s =~= x + (seq!['\n'] + y));
    lemma_find_after(x, seq!['\n'] + y, '\n');
    assert(s.take(x.len() as int) =~= x);
    assert(s.skip(x.len() + 1int) =~= y);
}

/// A text without line feeds is one line.
proof fn lemma_lines_single(q: Seq<char>)
    requires
        q.len() > 0,
        lacks(q, '\n'),
    ensures
        spec_str_lines(q) == seq![q],
{
    lemma_find_absent(q, '\n');
}

proof fn lemma_decimal_lacks(n: nat, c: char)
    requires
        !is_ascii_digit(c),
    ensures
        lacks(spec_decimal(n), c),
    decreases n,
{
    if n >= 10 {
        lemma_decimal_lacks(n / 10, c);
        let d = spec_decimal(n / 10);
        assert forall|i: int| 0 <= i < spec_decimal(n).len() implies spec_decimal(n)[i] != c by {
            if i < d.len() {
                assert(spec_decimal(n)[i] == d[i]);
            }
        }
    }
}

proof fn lemma_encode_lacks_line_ends(b: Seq<char>)
    ensures
        lacks(spec_encode_sentinel_body(b), '\n'),
        lacks(spec_encode_sentinel_body(b), '\r'),
    decreases b.len(),
{
    if b.len() > 0 {
        lemma_encode_lacks_line_ends(b.skip(1));
        lemma_encode_unfold(b);
        let h = sentinel_escape_char(b[0]);
        assert(lacks(h, '\n') && lacks(h, '\r'));
        lemma_lacks_concat(h, spec_encode_sentinel_body(b.skip(1)), '\n');
        lemma_lacks_concat(h, spec_encode_sentinel_body(b.skip(1)), '\r');
    } else {
        assert(spec_encode_sentinel_body(b) =~= Seq::<char>::empty());
    }
}

/// The number `/send` was given, normalized.
pub open spec fn send_phone(args: Seq<char>) -> Seq<char> {
    let a = spec_trim(args);
    spec_normalize_phone(a.take(first_ws_from(a, 0)))
}

/// The body `/send` was given.
pub open spec fn send_body(args: Seq<char>) -> Seq<char> {
    let a = spec_trim(args);
    spec_trim(a.skip(first_ws_from(a, 0) + 1))
}

/// Whether `/send` accepts its arguments (a number, a body, at most ten parts).
pub open spec fn send_accepts(args: Seq<char>) -> bool {
    let a = spec_trim(args);
    let body = send_body(args);
    &&& first_ws_from(a, 0) >= 0
    &&& send_phone(args).len() > 0
    &&& body.len() > 0
    &&& !(body.len() >= 0x0800_0000 || spec_send_parts(body) == 0)
}

/// `/send` asks for the SMS it was given: when it accepts a number and a body, its
/// reply asks the dispatcher for exactly one SMS, to the normalized number with that
/// body, whatever the body holds (line breaks and backslashes included).
pub proof fn lemma_send_reply_requests_sms(args: Seq<char>)
    requires
        send_accepts(args),
    ensures
        send_requests(spec_str_lines(spec_send_reply(args))) == seq![(send_phone(args), send_body(args))],
        spec_str_lines(spec_send_reply(args)).len() == 2,
        send_request(spec_str_lines(spec_send_reply(args))[0]) == Some((send_phone(args), send_body(args))),
        send_request(spec_str_lines(spec_send_reply(args))[1]) is None,
{
    let phone = send_phone(args);
    let body = send_body(args);
    let enc = spec_encode_sentinel_body(body);
    let preview = spec_one_line(if body.len() > 50 { body.take(50) } else { body });
    let parts = spec_decimal(spec_send_parts(body) as nat);
    reveal_strlit("__SEND__:");
    reveal_strlit("|");
    reveal_strlit("\n");
    reveal_strlit("Queued: ");
    reveal_strlit(" → \"");
    reveal_strlit("…\" (");
    reveal_strlit(" part(s))");
    let l1 = SEND_SENTINEL@ + phone + "|"@ + enc;
    let q = "Queued: "@ + phone + " → \""@ + preview + "…\" ("@ + parts + " part(s))"@;
    assert(spec_send_reply(args) =~= l1 + seq!['\n'] + q);

    // The phone holds `+` and digits only.
    lemma_normalized_phone_chars(spec_trim(args).take(first_ws_from(spec_trim(args), 0)));
    assert forall|i: int| 0 <= i < phone.len() implies phone[i] != '\n' && phone[i] != '|' && phone[i] != '\r' by {
        assert(crate::bridge::forwarder::is_phone_char(phone[i]));
    }
    assert(lacks(phone, '\n') && lacks(phone, '|') && lacks(phone, '\r'));
    lemma_encode_lacks_line_ends(body);
    lemma_encode_unfold(body);
    assert(enc.len() > 0);

    // The first line is the send line.
    lemma_lacks_concat(SEND_SENTINEL@, phone, '\n');
    lemma_lacks_concat(SEND_SENTINEL@ + phone, "|"@, '\n');
    lemma_lacks_concat(SEND_SENTINEL@ + phone + "|"@, enc, '\n');
    lemma_lines_split(l1, q);
    assert(l1.last() == enc.last());
    assert(strip_cr(l1) == l1);

    // The confirmation is one line that is no sentinel.
    assert(lacks(preview, '\n'));
    lemma_decimal_lacks(spec_send_parts(body) as nat, '\n');
    lemma_lacks_concat("Queued: "@, phone, '\n');
    lemma_lacks_concat("Queued: "@ + phone, " → \""@, '\n');
    lemma_lacks_concat("Queued: "@ + phone + " → \""@, preview, '\n');
    lemma_lacks_concat("Queued: "@ + phone + " → \""@ + preview, "…\" ("@, '\n');
    lemma_lacks_concat("Queued: "@ + phone + " → \""@ + preview + "…\" ("@, parts, '\n');
    lemma_lacks_concat("Queued: "@ + phone + " → \""@ + preview + "…\" ("@ + parts, " part(s))"@, '\n');
    lemma_lines_single(q);
    let ls = seq![l1, q];
    assert(spec_str_lines(spec_send_reply(args)) == ls);

    // The send line names the phone and the encoded body.
    assert(starts_with(l1, SEND_SENTINEL@)) by {
        assert(l1.take(SEND_SENTINEL@.len() as int) =~= SEND_SENTINEL@);
    }
    let rest = l1.skip(SEND_SENTINEL@.len() as int);
    assert(rest =~= phone + ("|"@ + enc));
    lemma_find_after(phone, "|"@ + enc, '|');
    assert(rest.take(phone.len() as int) =~= phone);
    assert(rest.skip(phone.len() + 1int) =~= enc);
    lemma_send_body_survives(body);
    assert(send_request(l1) == Some((phone, body)));
    assert(!starts_with(q, SEND_SENTINEL@)) by {
        assert(q[0] == 'Q');
        assert(SEND_SENTINEL@[0] == '_');
    }
    assert(send_request(q) is None);
    assert(ls.drop_last() =~= seq![l1]);
    assert(seq![l1].drop_last() =~= Seq::<Seq<char>>::empty());
    assert(seq![l1].last() == l1);
    assert(send_requests(Seq::<Seq<char>>::empty()) =~= Seq::<(Seq<char>, Seq<char>)>::empty());
    assert(send_requests(seq![l1]) =~= seq![(phone, body)]);
}

/// A `/send` reply carries its SMS through the sentinel lines: applying the reply that
/// `/send` gives for arguments it accepts queues exactly the normalized phone and the
/// body, unchanged, or nothing when the rate limit refuses it or the queue is full; with
/// fewer than `RATE_MAX_SENDS` `/send` commands recorded and room in the queue it is
/// queued for sure.
pub proof fn lemma_send_reply_reaches_queue(
    args: Seq<char>,
    limited: Seq<bool>,
    q0: Seq<(Seq<char>, Seq<char>)>,
    t0: int,
)
    requires
        send_accepts(args),
        limited.len() == spec_str_lines(spec_send_reply(args)).len(),
        limits_fair(spec_str_lines(spec_send_reply(args)), limited, q0, t0),
    ensures
        sends_applied(spec_str_lines(spec_send_reply(args)), limited, q0) == q0.push((send_phone(args), send_body(args)))
            || sends_applied(spec_str_lines(spec_send_reply(args)), limited, q0) == q0,
        t0 < RATE_MAX_SENDS && q0.len() < SEND_QUEUE_CAPACITY ==> sends_applied(
            spec_str_lines(spec_send_reply(args)),
            limited,
            q0,
        ) == q0.push((send_phone(args), send_body(args))),
{
    lemma_send_reply_requests_sms(args);
    let ls = spec_str_lines(spec_send_reply(args));
    assert(ls.drop_last().drop_last() =~= Seq::<Seq<char>>::empty());
    assert(ls.drop_last().last() == ls[0]);
    assert(ls.last() == ls[1]);
    assert(limited.drop_last().last() == limited[0]);
    assert(ls.take(0) =~= Seq::<Seq<char>>::empty());
    assert(limited.take(0) =~= Seq::<bool>::empty());
    let m = (send_phone(args), send_body(args));
    assert(limited.drop_last().drop_last() =~= Seq::<bool>::empty());
    assert(sends_applied(ls.drop_last().drop_last(), limited.drop_last().drop_last(), q0) == q0);
    let q1 = sends_applied(ls.drop_last(), limited.drop_last(), q0);
    assert(q1 == if !limited[0] && q0.len() < SEND_QUEUE_CAPACITY {
        q0.push(m)
    } else {
        q0
    });
    assert(sends_applied(ls, limited, q0) == q1);
    if limited[0] {
        assert(t0 + sends_applied(ls.take(0), limited.take(0), q0).len() - q0.len() >= RATE_MAX_SENDS);
    }
}

} // verus!
