//! Line-oriented AT command port over a byte UART.
//!
//! Unsolicited result codes (URCs) that arrive while a command is in flight are kept
//! in a small buffer so the main loop can handle them through `poll_urc`. Waits are
//! bounded by the monotonic clock, read when the UART has nothing ready. What the modem
//! sends is its own business; for a UART that keeps its models, the contracts say which
//! reply the bytes it delivered give (`exchange_result`), and otherwise what holds of
//! every reply.

use crate::bridge::poller::{join_lines, spec_join};
use crate::modem::urc::{is_urc, spec_is_urc};
use crate::modem::{AtResponse, ModemError};
use crate::sms::concat::{clock_start, duration_as_nanos, nanos_since, saturate_u64};
use vstd::utf8::encode_utf8;
use crate::strutil::{
    new_string, push_char, push_str, spec_trim, starts_with, str_contains, str_eq, str_starts_with,
    string_views, trim_str, lemma_trim_idempotent,
};
use core::time::Duration;
use std::collections::VecDeque;
use vstd::prelude::*;

verus! {

/// FreeRTOS ticks one UART read may wait for a byte.
const UART_READ_TICKS: u32 = 10;

/// How long a command may take to answer `OK` or an error (5 s).
pub const CMD_TIMEOUT_NANOS: u64 = 5_000_000_000;

/// How long one line may take to arrive (500 ms).
const READLINE_TIMEOUT_NANOS: u64 = 500_000_000;

/// How long a `CONNECT` payload exchange may take (90 s).
pub const CONNECT_TIMEOUT_NANOS: u64 = 90_000_000_000;

/// Pending URCs kept at most; later ones are dropped.
pub const MAX_URC_BUF: usize = 32;

/// Reply lines kept at most; later ones are dropped.
pub const MAX_BODY_LINES: usize = 64;

/// Upper bound on UART polls in one wait; the clock ends a wait long before. The
/// contracts on what a reply holds speak of exchanges shorter than this many bytes.
pub const MAX_POLLS: u64 = 0x100_0000_0000;

/// Byte-level UART: what the port reads from and writes to.
pub trait UartPort {
    /// The bytes written so far: the model the contracts speak of, kept by every UART for
    /// which `obeys_model` holds.
    closed spec fn written(&self) -> Seq<u8> {
        Seq::empty()
    }

    /// The bytes ready to be read now, oldest first: the second model. For a UART that
    /// keeps it, bytes become ready only through a write (the modem answering).
    closed spec fn rx(&self) -> Seq<u8> {
        Seq::empty()
    }

    /// The bytes the device will send in answer to the next write: the third model.
    closed spec fn next_reply(&self) -> Seq<u8> {
        Seq::empty()
    }

    /// Whether the UART keeps the models `written`, `rx` and `next_reply` (true of the
    /// UART simulated in memory). A UART that leaves it at its default, false, is promised nothing
    /// about its writes or what it reads.
    closed spec fn obeys_model(&self) -> bool {
        false
    }

    /// Whether every write succeeds (true of the UART simulated in memory). A UART that
    /// leaves it at its default, false, is promised nothing about its writes' outcome.
    closed spec fn never_fails(&self) -> bool {
        false
    }

    /// Read one byte, waiting at most `ticks`.
    fn read_byte(&mut self, ticks: u32) -> (r: Option<u8>)
        ensures
            old(self).obeys_model() ==> final(self).written() == old(self).written(),
            old(self).obeys_model() ==> match r {
                Some(b) => old(self).rx().len() > 0 && b == old(self).rx()[0] && final(self).rx() == old(self).rx().drop_first(),
                None => old(self).rx().len() == 0 && final(self).rx() == old(self).rx(),
            },
            old(self).obeys_model() ==> final(self).next_reply() == old(self).next_reply(),
            final(self).never_fails() == old(self).never_fails(),
            final(self).obeys_model() == old(self).obeys_model(),
    ;

    /// Write all of `data`.
    fn write_all(&mut self, data: &[u8]) -> (r: Result<(), ModemError>)
        ensures
            final(self).never_fails() == old(self).never_fails(),
            final(self).obeys_model() == old(self).obeys_model(),
            old(self).never_fails() ==> r is Ok,
            old(self).obeys_model() && r is Ok ==> final(self).written() == old(self).written() + data@,
            old(self).obeys_model() ==> old(self).rx().is_prefix_of(final(self).rx()),
            old(self).obeys_model() && r is Ok ==> final(self).rx() == old(self).rx() + old(self).next_reply(),
    ;
}

/// The line `AT<cmd>\r` as bytes.
pub open spec fn at_command_bytes(cmd: Seq<char>) -> Seq<u8> {
    encode_utf8("AT"@ + cmd + "\r"@)
}

/// A line that ends a command with an error.
pub open spec fn is_error_line(t: Seq<char>) -> bool {
    starts_with(t, "ERROR"@) || starts_with(t, "+CME ERROR"@) || starts_with(t, "+CMS ERROR"@)
}

/// A trimmed line: no white space at either end.
pub open spec fn is_trimmed(t: Seq<char>) -> bool {
    spec_trim(t) == t
}

/// A line of a command's reply body: trimmed, not empty, not `OK`, not an error, not
/// unsolicited.
pub open spec fn is_body_line(t: Seq<char>) -> bool {
    t.len() > 0 && is_trimmed(t) && t != "OK"@ && !is_error_line(t) && !spec_is_urc(t)
}

/// What a reply may be: an error line, or `OK` after at most `MAX_BODY_LINES` body
/// lines, joined with `\n`.
pub open spec fn is_reply(r: AtResponse) -> bool {
    if r.ok {
        exists|ls: Seq<Seq<char>>|
            ls.len() <= MAX_BODY_LINES && (forall|i: int| 0 <= i < ls.len() ==> #[trigger] is_body_line(ls[i]))
                && r.body@ == spec_join(ls)
    } else {
        is_trimmed(r.body@) && r.body@.len() > 0
    }
}

/// Reads the monotonic clock's distance from `start` in nanoseconds.
fn elapsed(start: &std::time::Instant) -> u64 {
    nanos_since(start)
}

/// Length of a duration in nanoseconds, saturated to `u64`.
fn duration_nanos(d: Duration) -> u64 {
    saturate_u64(duration_as_nanos(d))
}

/// Bytes read as reply lines: split at `\n`, with `\r` dropped and each byte taken as
/// one character. Gives the complete lines and the unfinished last one.
pub open spec fn split_lines(bs: Seq<u8>) -> (Seq<Seq<char>>, Seq<char>)
    decreases bs.len(),
{
    if bs.len() == 0 {
        (Seq::empty(), Seq::empty())
    } else {
        let (d, p) = split_lines(bs.drop_last());
        if bs.last() == 10u8 {
            (d.push(p), Seq::empty())
        } else if bs.last() == 13u8 {
            (d, p)
        } else {
            (d, p.push(bs.last() as char))
        }
    }
}

/// The lines the port reads from `bs`: the complete ones, then the unfinished one when
/// it is not empty.
pub open spec fn lines_read(bs: Seq<u8>) -> Seq<Seq<char>> {
    let (d, p) = split_lines(bs);
    if p.len() > 0 {
        d.push(p)
    } else {
        d
    }
}

/// Reading reply lines in order: the final result once one came (`OK` with the body
/// lines joined, or an error line), and the body lines so far. Empty lines are skipped,
/// unsolicited lines are not part of the body, and the body keeps at most
/// `MAX_BODY_LINES` lines.
pub open spec fn scan_reply(ls: Seq<Seq<char>>) -> (Option<(bool, Seq<char>)>, Seq<Seq<char>>)
    decreases ls.len(),
{
    if ls.len() == 0 {
        (None, Seq::empty())
    } else {
        let st = scan_reply(ls.drop_last());
        let t = spec_trim(ls.last());
        if st.0 is Some || t.len() == 0 {
            st
        } else if t == "OK"@ {
            (Some((true, spec_join(st.1))), st.1)
        } else if is_error_line(t) {
            (Some((false, t)), st.1)
        } else if spec_is_urc(t) || st.1.len() >= MAX_BODY_LINES {
            st
        } else {
            (None, st.1.push(t))
        }
    }
}

/// The reply that a sequence of lines gives (final flag and body), if it holds a final
/// line.
pub open spec fn spec_reply_of_lines(ls: Seq<Seq<char>>) -> Option<(bool, Seq<char>)> {
    scan_reply(ls).0
}

/// What one `read_line` did, given the bytes `c` it took and the bytes `rest` left
/// ready: a complete line, or (with nothing left) the unfinished one, or nothing.
pub open spec fn line_taken(c: Seq<u8>, rest: Seq<u8>, r: Option<Seq<char>>) -> bool {
    match r {
        Some(l) => split_lines(c) == (seq![l], Seq::<char>::empty()) || (split_lines(c) == (Seq::<Seq<char>>::empty(), l)
            && l.len() > 0 && rest.len() == 0),
        None => split_lines(c) == (Seq::<Seq<char>>::empty(), Seq::<char>::empty()) && rest.len() == 0,
    }
}

/// What a command's exchange gave, over the bytes `c` read after the command and the
/// bytes `rest` still ready: the reply of the lines read, ending at the first final line;
/// or, with no final line among them and nothing left to read, a timeout.
pub open spec fn exchange_result(c: Seq<u8>, rest: Seq<u8>, r: Result<AtResponse, ModemError>) -> bool {
    let ls = lines_read(c);
    match r {
        Ok(resp) => spec_reply_of_lines(ls) == Some((resp.ok, resp.body@)) && ls.len() > 0
            && spec_reply_of_lines(ls.drop_last()) is None,
        Err(e) => e == ModemError::Timeout && spec_reply_of_lines(ls) is None && rest.len() == 0,
    }
}

/// Splitting bytes after a complete line goes on from there.
pub proof fn lemma_split_append(a: Seq<u8>, b: Seq<u8>)
    requires
        split_lines(a).1.len() == 0,
    ensures
        split_lines(a + b) == (split_lines(a).0 + split_lines(b).0, split_lines(b).1),
    decreases b.len(),
{
    if b.len() == 0 {
        assert(a + b =~= a);
        assert(split_lines(a).0 + Seq::<Seq<char>>::empty() =~= split_lines(a).0);
    } else {
        lemma_split_append(a, b.drop_last());
        assert((a + b).drop_last() =~= a + b.drop_last());
        assert((a + b).last() == b.last());
        let (d, p) = split_lines(b.drop_last());
        assert(split_lines(a).0 + d.push(p) =~= (split_lines(a).0 + d).push(p));
    }
}

/// The reply of a sequence of lines: `Some` exactly when one of them is final.
pub fn reply_of_lines(lines: &[String]) -> (r: Option<AtResponse>)
    ensures
        match spec_reply_of_lines(string_views(lines@)) {
            Some((ok, body)) => r matches Some(x) && x.ok == ok && x.body@ == body,
            None => r is None,
        },
{
    let mut body: Vec<String> = Vec::new();
    let mut i: usize = 0;
    while i < lines.len()
        invariant
            i <= lines@.len(),
            scan_reply(string_views(lines@).take(i as int)).0 is None,
            scan_reply(string_views(lines@).take(i as int)).1 == string_views(body@),
        decreases lines@.len() - i,
    {
        let ghost ls = string_views(lines@);
        assert(ls.take(i + 1).drop_last() =~= ls.take(i as int));
        assert(ls.take(i + 1).last() == lines@[i as int]@);
        let t = trim_str(lines[i].as_str());
        proof {
            reveal_strlit("OK");
            lemma_trim_idempotent(lines@[i as int]@);
        }
        if t.as_str().unicode_len() == 0 {
            assert(scan_reply(ls.take(i + 1)) == scan_reply(ls.take(i as int)));
        } else if str_eq(t.as_str(), "OK") {
            let joined = join_lines(&body);
            assert(spec_reply_of_lines(ls) == scan_reply(ls.take(i + 1)).0) by {
                lemma_scan_done_stays(ls, i + 1);
            }
            return Some(AtResponse { body: joined, ok: true });
        } else if str_starts_with(t.as_str(), "ERROR") || str_starts_with(t.as_str(), "+CME ERROR")
            || str_starts_with(t.as_str(), "+CMS ERROR") {
            assert(spec_reply_of_lines(ls) == scan_reply(ls.take(i + 1)).0) by {
                lemma_scan_done_stays(ls, i + 1);
            }
            return Some(AtResponse { body: t, ok: false });
        } else if is_urc(t.as_str()) || body.len() >= MAX_BODY_LINES {
            assert(!is_error_line(t@));
            assert(scan_reply(ls.take(i + 1)) == scan_reply(ls.take(i as int)));
        } else {
            let ghost before = string_views(body@);
            body.push(t);
            assert(!is_error_line(t@));
            assert(string_views(body@) =~= before.push(spec_trim(lines@[i as int]@)));
            assert(scan_reply(ls.take(i + 1)).1 == string_views(body@));
        }
        i = i + 1;
    }
    assert(string_views(lines@).take(lines@.len() as int) =~= string_views(lines@));
    None
}

/// Once the scan found its final line, later lines change nothing.
pub proof fn lemma_scan_done_stays(ls: Seq<Seq<char>>, k: int)
    requires
        0 <= k <= ls.len(),
        scan_reply(ls.take(k)).0 is Some,
    ensures
        scan_reply(ls) == scan_reply(ls.take(k)),
    decreases ls.len() - k,
{
    if k < ls.len() {
        assert(ls.take(k + 1).drop_last() =~= ls.take(k));
        lemma_scan_done_stays(ls, k + 1);
    } else {
        assert(ls.take(k) =~= ls);
    }
}

/// A line read takes at least one byte.
pub proof fn lemma_line_taken_consumes(before: Seq<u8>, after: Seq<u8>, l: Seq<char>)
    requires
        after.len() <= before.len(),
        line_taken(before.take(before.len() - after.len()), after, Some(l)),
    ensures
        after.len() < before.len(),
{
    if after.len() == before.len() {
        let c = before.take(0);
        assert(c.len() == 0);
        assert(split_lines(c) == (Seq::<Seq<char>>::empty(), Seq::<char>::empty()));
        assert(seq![l].len() == 1);
    }
}

/// A read that gave nothing took only line ends, and the exchange's lines stay as
/// they were.
pub proof fn lemma_no_line_taken(rx0: Seq<u8>, before: Seq<u8>, after: Seq<u8>, ex0: Seq<u8>)
    requires
        after.len() <= before.len() <= rx0.len(),
        before == rx0.skip(rx0.len() - before.len()),
        after == before.skip(before.len() - after.len()),
        ex0 == rx0.take(rx0.len() - before.len()),
        line_taken(before.take(before.len() - after.len()), after, None),
        split_lines(ex0).1.len() > 0 ==> before.len() == 0,
    ensures
        lines_read(rx0.take(rx0.len() - after.len())) == lines_read(ex0),
        split_lines(rx0.take(rx0.len() - after.len())).1.len() > 0 ==> after.len() == 0,
        rx0.take(rx0.len() - after.len()) == ex0 + before.take(before.len() - after.len()),
{
    let c = before.take(before.len() - after.len());
    assert(rx0.take(rx0.len() - after.len()) =~= ex0 + c);
    if split_lines(ex0).1.len() > 0 {
        assert(c.len() == 0);
        assert(ex0 + c =~= ex0);
    } else {
        lemma_split_append(ex0, c);
        assert(split_lines(ex0).0 + Seq::<Seq<char>>::empty() =~= split_lines(ex0).0);
    }
}

/// A read that gave a line adds it to the exchange's lines.
pub proof fn lemma_one_more_line(rx0: Seq<u8>, before: Seq<u8>, after: Seq<u8>, ex0: Seq<u8>, l: Seq<char>)
    requires
        after.len() <= before.len() <= rx0.len(),
        before == rx0.skip(rx0.len() - before.len()),
        after == before.skip(before.len() - after.len()),
        ex0 == rx0.take(rx0.len() - before.len()),
        line_taken(before.take(before.len() - after.len()), after, Some(l)),
        split_lines(ex0).1.len() > 0 ==> before.len() == 0,
    ensures
        lines_read(rx0.take(rx0.len() - after.len())) == lines_read(ex0).push(l),
        split_lines(rx0.take(rx0.len() - after.len())).1.len() > 0 ==> after.len() == 0,
        rx0.take(rx0.len() - after.len()) == ex0 + before.take(before.len() - after.len()),
{
    let c = before.take(before.len() - after.len());
    assert(rx0.take(rx0.len() - after.len()) =~= ex0 + c);
    if split_lines(ex0).1.len() > 0 {
        assert(before.len() == 0);
        assert(c.len() == 0);
        assert(split_lines(c) == (Seq::<Seq<char>>::empty(), Seq::<char>::empty()));
        assert(seq![l].len() == 1);
    } else {
        lemma_split_append(ex0, c);
        if split_lines(c) == (seq![l], Seq::<char>::empty()) {
            assert(split_lines(ex0).0 + seq![l] =~= split_lines(ex0).0.push(l));
        } else {
            assert(split_lines(ex0).0 + Seq::<Seq<char>>::empty() =~= split_lines(ex0).0);
        }
    }
}

/// AT command port.
pub struct AtPort<U: UartPort> {
    uart: U,
    urc_buf: VecDeque<String>,
    /// The bytes read after the last command was written.
    exchanged: Ghost<Seq<u8>>,
}

impl<U: UartPort> AtPort<U> {
    /// The bytes written to the UART so far.
    pub closed spec fn written(&self) -> Seq<u8> {
        self.uart.written()
    }

    /// Whether the UART under the port never fails a write.
    pub closed spec fn uart_never_fails(&self) -> bool {
        self.uart.never_fails()
    }

    /// Whether the UART under the port keeps its model of the bytes written.
    pub closed spec fn uart_obeys_model(&self) -> bool {
        self.uart.obeys_model()
    }

    /// The bytes the UART has ready to read.
    pub closed spec fn uart_rx(&self) -> Seq<u8> {
        self.uart.rx()
    }

    /// The bytes the device will send in answer to the next write.
    pub closed spec fn uart_next_reply(&self) -> Seq<u8> {
        self.uart.next_reply()
    }

    /// The bytes read after the last command was written.
    pub closed spec fn exchanged(&self) -> Seq<u8> {
        self.exchanged@
    }

    /// The buffered URCs, oldest first.
    pub closed spec fn pending_urcs(&self) -> Seq<Seq<char>> {
        string_views(self.urc_buf@)
    }

    /// At most `MAX_URC_BUF` URCs are buffered, each a trimmed, non-empty line.
    pub closed spec fn wf(&self) -> bool {
        &&& self.urc_buf@.len() <= MAX_URC_BUF
        &&& forall|i: int| 0 <= i < self.urc_buf@.len() ==> #[trigger] self.urc_buf@[i]@.len() > 0
            && is_trimmed(self.urc_buf@[i]@)
    }

    /// A port over `uart` with no URCs pending.
    pub fn new(uart: U) -> (r: Self)
        ensures
            r.wf(),
            r.written() == uart.written(),
            r.uart_never_fails() == uart.never_fails(),
            r.uart_obeys_model() == uart.obeys_model(),
            r.uart_rx() == uart.rx(),
            r.uart_next_reply() == uart.next_reply(),
            r.pending_urcs().len() == 0,
    {
        let r = AtPort { uart, urc_buf: VecDeque::new(), exchanged: Ghost(Seq::empty()) };
        assert(r.pending_urcs() =~= Seq::<Seq<char>>::empty());
        r
    }

    /// The UART under the port.
    pub fn inner(&self) -> (r: &U)
        ensures
            r.written() == self.written(),
    {
        &self.uart
    }

    /// Reads bytes up to `\n` (dropping `\r`; each byte taken as one character), or
    /// what arrived before `timeout_nanos` passed with nothing more to read; `None` when
    /// nothing did. The clock is read only while the UART has nothing ready.
    fn read_line(&mut self, timeout_nanos: u64) -> (r: Option<String>)
        ensures
            final(self).urc_buf@ == old(self).urc_buf@,
            final(self).exchanged == old(self).exchanged,
            old(self).uart_obeys_model() ==> final(self).written() == old(self).written(),
            old(self).uart_obeys_model() ==> final(self).uart_next_reply() == old(self).uart_next_reply(),
            final(self).uart_never_fails() == old(self).uart_never_fails(),
            final(self).uart_obeys_model() == old(self).uart_obeys_model(),
            r matches Some(l) ==> forall|i: int| 0 <= i < l@.len() ==> #[trigger] l@[i] != '\n' && l@[i] != '\r',
            old(self).uart_obeys_model() ==> final(self).uart_rx().len() <= old(self).uart_rx().len() && final(self).uart_rx()
                == old(self).uart_rx().skip(old(self).uart_rx().len() - final(self).uart_rx().len()),
            old(self).uart_obeys_model() && old(self).uart_rx().len() < MAX_POLLS ==> line_taken(
                old(self).uart_rx().take(old(self).uart_rx().len() - final(self).uart_rx().len()),
                final(self).uart_rx(),
                match r {
                    Some(l) => Some(l@),
                    None => None,
                },
            ),
    {
        let start = clock_start();
        let mut line = new_string();
        let mut polls: u64 = 0;
        let ghost rx0 = self.uart.rx();
        let ghost obeys = self.uart.obeys_model();
        while polls < MAX_POLLS
            invariant
                self.urc_buf@ == old(self).urc_buf@,
                self.exchanged == old(self).exchanged,
                obeys == old(self).uart_obeys_model(),
                rx0 == old(self).uart_rx(),
                old(self).uart_obeys_model() ==> self.written() == old(self).written(),
                old(self).uart_obeys_model() ==> self.uart_next_reply() == old(self).uart_next_reply(),
                self.uart_never_fails() == old(self).uart_never_fails(),
                self.uart_obeys_model() == old(self).uart_obeys_model(),
                forall|i: int| 0 <= i < line@.len() ==> #[trigger] line@[i] != '\n' && line@[i] != '\r',
                obeys ==> self.uart.rx().len() <= rx0.len() && self.uart.rx() == rx0.skip(rx0.len() - self.uart.rx().len()),
                obeys ==> split_lines(rx0.take(rx0.len() - self.uart.rx().len())) == (Seq::<Seq<char>>::empty(), line@),
                obeys && self.uart.rx().len() > 0 ==> polls == rx0.len() - self.uart.rx().len(),
            ensures
                obeys && rx0.len() < MAX_POLLS ==> self.uart.rx().len() == 0,
                obeys ==> self.uart.rx().len() <= rx0.len() && self.uart.rx() == rx0.skip(rx0.len() - self.uart.rx().len()),
                obeys ==> split_lines(rx0.take(rx0.len() - self.uart.rx().len())) == (Seq::<Seq<char>>::empty(), line@),
                forall|i: int| 0 <= i < line@.len() ==> #[trigger] line@[i] != '\n' && line@[i] != '\r',
                self.urc_buf@ == old(self).urc_buf@,
                self.exchanged == old(self).exchanged,
                old(self).uart_obeys_model() ==> self.written() == old(self).written(),
                old(self).uart_obeys_model() ==> self.uart_next_reply() == old(self).uart_next_reply(),
                self.uart_never_fails() == old(self).uart_never_fails(),
                self.uart_obeys_model() == old(self).uart_obeys_model(),
            decreases MAX_POLLS - polls,
        {
            polls = polls + 1;
            let ghost before = self.uart.rx();
            let ghost k = rx0.len() - before.len();
            match self.uart.read_byte(UART_READ_TICKS) {
                None => {
                    if elapsed(&start) > timeout_nanos {
                        break;
                    }
                },
                Some(c) => {
                    proof {
                        if obeys {
                            assert(rx0.take(k + 1).drop_last() =~= rx0.take(k));
                            assert(rx0[k] == before[0]);
                            assert(rx0.take(k + 1).last() == c);
                            assert(self.uart.rx() =~= rx0.skip(k + 1));
                        }
                    }
                    if c == 10 {
                        assert(Seq::<Seq<char>>::empty().push(line@) =~= seq![line@]);
                        return Some(line);
                    }
                    if c != 13 {
                        push_char(&mut line, c as char);
                    }
                },
            }
        }
        if line.as_str().is_empty() {
            assert(line@ =~= Seq::<char>::empty());
            None
        } else {
            Some(line)
        }
    }

    /// Keeps `line` as a pending URC when there is room.
    fn queue_urc(&mut self, line: String)
        requires
            old(self).wf(),
            line@.len() > 0,
            is_trimmed(line@),
        ensures
            final(self).wf(),
            final(self).uart == old(self).uart,
            final(self).exchanged == old(self).exchanged,
            old(self).pending_urcs().len() < MAX_URC_BUF ==> final(self).pending_urcs() == old(
                self,
            ).pending_urcs().push(line@),
            old(self).pending_urcs().len() >= MAX_URC_BUF ==> final(self).pending_urcs() == old(
                self,
            ).pending_urcs(),
    {
        let ghost before = self.urc_buf@;
        if self.urc_buf.len() < MAX_URC_BUF {
            let ghost lv = line@;
            self.urc_buf.push_back(line);
            assert(self.pending_urcs() =~= string_views(before).push(lv));
        }
    }

    /// Moves every line already waiting in the UART into the URC buffer.
    fn drain_urcs(&mut self)
        requires
            old(self).wf(),
        ensures
            final(self).wf(),
            old(self).uart_obeys_model() ==> final(self).written() == old(self).written(),
            final(self).uart_never_fails() == old(self).uart_never_fails(),
            final(self).uart_obeys_model() == old(self).uart_obeys_model(),
            old(self).pending_urcs().is_prefix_of(final(self).pending_urcs()),
            final(self).exchanged == old(self).exchanged,
            old(self).uart_obeys_model() && old(self).uart_rx().len() < MAX_POLLS ==> final(self).uart_rx().len() == 0,
            old(self).uart_obeys_model() ==> final(self).uart_next_reply() == old(self).uart_next_reply(),
    {
        let mut rounds: u64 = 0;
        let ghost rx0 = self.uart_rx();
        while rounds < MAX_POLLS
            invariant
                self.wf(),
                old(self).uart_obeys_model() ==> self.written() == old(self).written(),
                self.uart_never_fails() == old(self).uart_never_fails(),
                self.uart_obeys_model() == old(self).uart_obeys_model(),
                old(self).pending_urcs().is_prefix_of(self.pending_urcs()),
                self.exchanged == old(self).exchanged,
                rx0 == old(self).uart_rx(),
                old(self).uart_obeys_model() ==> self.uart_next_reply() == old(self).uart_next_reply(),
                old(self).uart_obeys_model() ==> self.uart_rx().len() <= rx0.len(),
                old(self).uart_obeys_model() && rx0.len() < MAX_POLLS && self.uart_rx().len() > 0 ==> rounds <= rx0.len()
                    - self.uart_rx().len(),
            ensures
                self.wf(),
                old(self).uart_obeys_model() ==> self.written() == old(self).written(),
                self.uart_never_fails() == old(self).uart_never_fails(),
                self.uart_obeys_model() == old(self).uart_obeys_model(),
                old(self).pending_urcs().is_prefix_of(self.pending_urcs()),
                self.exchanged == old(self).exchanged,
                old(self).uart_obeys_model() && rx0.len() < MAX_POLLS ==> self.uart_rx().len() == 0,
                old(self).uart_obeys_model() ==> self.uart_next_reply() == old(self).uart_next_reply(),
            decreases MAX_POLLS - rounds,
        {
            rounds = rounds + 1;
            let ghost mid = self.pending_urcs();
            let ghost before = self.uart_rx();
            match self.read_line(20_000_000) {
                None => break,
                Some(raw) => {
                    proof {
                        if old(self).uart_obeys_model() && rx0.len() < MAX_POLLS {
                            lemma_line_taken_consumes(before, self.uart_rx(), raw@);
                        }
                    }
                    let line = trim_str(raw.as_str());
                    if !line.as_str().is_empty() {
                        proof {
                            lemma_trim_idempotent(raw@);
                        }
                        self.queue_urc(line);
                    }
                },
            }
        }
    }

    /// Files a reply line: URCs go to the buffer, other lines to `body` while there
    /// is room.
    fn buffer_line(&mut self, line: String, body: &mut Vec<String>)
        requires
            old(self).wf(),
            line@.len() > 0,
            is_trimmed(line@),
            line@ != "OK"@,
            !is_error_line(line@),
            old(body)@.len() <= MAX_BODY_LINES,
            forall|i: int| 0 <= i < old(body)@.len() ==> #[trigger] is_body_line(old(body)@[i]@),
        ensures
            final(self).wf(),
            final(self).uart == old(self).uart,
            final(self).exchanged == old(self).exchanged,
            spec_is_urc(line@) ==> final(body)@ == old(body)@ && (if old(self).pending_urcs().len()
                < MAX_URC_BUF {
                final(self).pending_urcs() == old(self).pending_urcs().push(line@)
            } else {
                final(self).pending_urcs() == old(self).pending_urcs()
            }),
            !spec_is_urc(line@) ==> final(self).pending_urcs() == old(self).pending_urcs() && (if old(
                body,
            )@.len() < MAX_BODY_LINES {
                final(body)@ == old(body)@.push(line)
            } else {
                final(body)@ == old(body)@
            }),
            final(body)@.len() <= MAX_BODY_LINES,
            forall|i: int| 0 <= i < final(body)@.len() ==> #[trigger] is_body_line(final(body)@[i]@),
    {
        proof {
            lemma_trim_idempotent(line@);
        }
        if is_urc(line.as_str()) {
            self.queue_urc(line);
        } else if body.len() < MAX_BODY_LINES {
            body.push(line);
        }
    }

    /// Reads reply lines until `OK` (`None`) or an error line (its reply). The deadline
    /// is checked when the UART has nothing ready; the bytes read are kept in
    /// `exchanged`.
    fn collect_until_ok(&mut self, start: &std::time::Instant, timeout_nanos: u64, body: &mut Vec<String>) -> (r: Result<
        Option<AtResponse>,
        ModemError,
    >)
        requires
            old(self).wf(),
            old(body)@.len() == 0,
        ensures
            final(self).wf(),
            old(self).uart_obeys_model() ==> final(self).written() == old(self).written(),
            old(self).pending_urcs().is_prefix_of(final(self).pending_urcs()),
            final(body)@.len() <= MAX_BODY_LINES,
            forall|i: int| 0 <= i < final(body)@.len() ==> #[trigger] is_body_line(final(body)@[i]@),
            final(self).uart_never_fails() == old(self).uart_never_fails(),
            final(self).uart_obeys_model() == old(self).uart_obeys_model(),
            r is Err ==> r == Err::<Option<AtResponse>, ModemError>(ModemError::Timeout),
            r matches Ok(Some(resp)) ==> !resp.ok && is_reply(resp) && is_error_line(resp.body@),
            old(self).uart_obeys_model() ==> final(self).uart_rx().len() <= old(self).uart_rx().len()
                && final(self).exchanged() == old(self).uart_rx().take(old(self).uart_rx().len() - final(self).uart_rx().len())
                && final(self).uart_rx() == old(self).uart_rx().skip(old(self).uart_rx().len() - final(self).uart_rx().len()),
            old(self).uart_obeys_model() && old(self).uart_rx().len() < MAX_POLLS ==> {
                let ls = lines_read(final(self).exchanged());
                match r {
                    Ok(Some(resp)) => spec_reply_of_lines(ls) == Some((false, resp.body@)) && ls.len() > 0
                        && spec_reply_of_lines(ls.drop_last()) is None,
                    Ok(None) => spec_reply_of_lines(ls) == Some((true, spec_join(string_views(final(body)@)))) && ls.len() > 0
                        && spec_reply_of_lines(ls.drop_last()) is None,
                    Err(_) => spec_reply_of_lines(ls) is None && final(self).uart_rx().len() == 0,
                }
            },
    {
        let ghost rx0 = self.uart_rx();
        let ghost obeys = self.uart_obeys_model();
        let ghost mut lr: Seq<Seq<char>> = Seq::empty();
        self.exchanged = Ghost(Seq::empty());
        proof {
            assert(rx0.take(0) =~= Seq::<u8>::empty());
            assert(rx0.skip(0) =~= rx0);
            assert(lines_read(Seq::<u8>::empty()) =~= Seq::<Seq<char>>::empty());
        }
        let mut rounds: u64 = 0;
        while rounds < MAX_POLLS
            invariant
                self.wf(),
                obeys == old(self).uart_obeys_model(),
                rx0 == old(self).uart_rx(),
                old(self).uart_obeys_model() ==> self.written() == old(self).written(),
                self.uart_never_fails() == old(self).uart_never_fails(),
                self.uart_obeys_model() == old(self).uart_obeys_model(),
                old(self).pending_urcs().is_prefix_of(self.pending_urcs()),
                body@.len() <= MAX_BODY_LINES,
                forall|i: int| 0 <= i < body@.len() ==> #[trigger] is_body_line(body@[i]@),
                obeys ==> self.uart_rx().len() <= rx0.len() && self.exchanged@ == rx0.take(rx0.len() - self.uart_rx().len())
                    && self.uart_rx() == rx0.skip(rx0.len() - self.uart_rx().len()),
                obeys && rx0.len() < MAX_POLLS ==> {
                    &&& lr == lines_read(self.exchanged@)
                    &&& (split_lines(self.exchanged@).1.len() > 0 ==> self.uart_rx().len() == 0)
                    &&& scan_reply(lr).0 is None
                    &&& scan_reply(lr).1 == string_views(body@)
                    &&& (self.uart_rx().len() > 0 ==> rounds <= self.exchanged@.len())
                },
            ensures
                self.wf(),
                old(self).uart_obeys_model() ==> self.written() == old(self).written(),
                self.uart_never_fails() == old(self).uart_never_fails(),
                self.uart_obeys_model() == old(self).uart_obeys_model(),
                old(self).pending_urcs().is_prefix_of(self.pending_urcs()),
                body@.len() <= MAX_BODY_LINES,
                forall|i: int| 0 <= i < body@.len() ==> #[trigger] is_body_line(body@[i]@),
                obeys ==> self.uart_rx().len() <= rx0.len() && self.exchanged@ == rx0.take(rx0.len() - self.uart_rx().len())
                    && self.uart_rx() == rx0.skip(rx0.len() - self.uart_rx().len()),
                obeys && rx0.len() < MAX_POLLS ==> {
                    &&& lr == lines_read(self.exchanged@)
                    &&& scan_reply(lr).0 is None
                    &&& self.uart_rx().len() == 0
                },
            decreases MAX_POLLS - rounds,
        {
            rounds = rounds + 1;
            let ghost before = self.uart_rx();
            let ghost ex0 = self.exchanged@;
            let ghost lr0 = lr;
            match self.read_line(READLINE_TIMEOUT_NANOS) {
                None => {
                    proof {
                        if obeys && rx0.len() < MAX_POLLS {
                            let k = before.len() - self.uart_rx().len();
                            assert(self.uart_rx().len() == 0);
                            assert(before.take(k).len() == 0 || split_lines(before.take(k)).0.len() == 0);
                        }
                    }
                    if elapsed(start) > timeout_nanos {
                        proof {
                            if obeys && rx0.len() < MAX_POLLS {
                                lemma_no_line_taken(rx0, before, self.uart_rx(), ex0);
                            }
                        }
                        self.exchanged = Ghost(rx0.take(rx0.len() - self.uart_rx().len()));
                        return Err(ModemError::Timeout);
                    }
                    proof {
                        if obeys && rx0.len() < MAX_POLLS {
                            lemma_no_line_taken(rx0, before, self.uart_rx(), ex0);
                        }
                    }
                    self.exchanged = Ghost(rx0.take(rx0.len() - self.uart_rx().len()));
                },
                Some(raw) => {
                    proof {
                        if obeys && rx0.len() < MAX_POLLS {
                            lemma_line_taken_consumes(before, self.uart_rx(), raw@);
                            lemma_one_more_line(rx0, before, self.uart_rx(), ex0, raw@);
                            lr = lr.push(raw@);
                            assert(lr.drop_last() =~= lr0);
                            assert(lr.last() == raw@);
                        }
                    }
                    self.exchanged = Ghost(rx0.take(rx0.len() - self.uart_rx().len()));
                    let line = trim_str(raw.as_str());
                    proof {
                        lemma_trim_idempotent(raw@);
                        reveal_strlit("OK");
                    }
                    let ghost st = scan_reply(lr.drop_last());
                    if line.as_str().is_empty() {
                        assert(obeys && rx0.len() < MAX_POLLS ==> scan_reply(lr) == st);
                    } else if str_eq(line.as_str(), "OK") {
                        proof {
                            if obeys && rx0.len() < MAX_POLLS {
                                assert(lr.last() == raw@);
                                assert(lr.drop_last() =~= lr0);
                                assert(scan_reply(lr).0 == Some((true, spec_join(string_views(body@)))));
                                assert(lines_read(self.exchanged@) == lr);
                            }
                        }
                        return Ok(None);
                    } else if str_starts_with(line.as_str(), "ERROR") || str_starts_with(line.as_str(), "+CME ERROR")
                        || str_starts_with(line.as_str(), "+CMS ERROR") {
                        proof {
                            if obeys && rx0.len() < MAX_POLLS {
                                assert(lr.last() == raw@);
                                assert(lr.drop_last() =~= lr0);
                                assert(is_error_line(line@));
                                assert(scan_reply(lr).0 == Some((false, line@)));
                                assert(lines_read(self.exchanged@) == lr);
                            }
                        }
                        return Ok(Some(AtResponse { body: line, ok: false }));
                    } else {
                        let ghost body0 = body@;
                        proof {
                            if obeys && rx0.len() < MAX_POLLS {
                                assert(!is_error_line(line@));
                                assert(line@ != "OK"@);
                                assert(scan_reply(lr0).1 == string_views(body0));
                            }
                        }
                        self.buffer_line(line, body);
                        proof {
                            if obeys && rx0.len() < MAX_POLLS {
                                if spec_is_urc(line@) || body0.len() >= MAX_BODY_LINES {
                                    assert(scan_reply(lr) == scan_reply(lr0));
                                    assert(body@ == body0);
                                } else {
                                    assert(scan_reply(lr).1 == scan_reply(lr0).1.push(line@));
                                    assert(string_views(body@) =~= string_views(body0).push(line@));
                                }
                            }
                        }
                    }
                },
            }
        }
        Err(ModemError::Timeout)
    }

    /// Writes `AT<cmd>\r`.
    fn write_command(&mut self, cmd: &str) -> (r: Result<(), ModemError>)
        ensures
            final(self).urc_buf@ == old(self).urc_buf@,
            final(self).uart_never_fails() == old(self).uart_never_fails(),
            final(self).uart_obeys_model() == old(self).uart_obeys_model(),
            old(self).uart_never_fails() ==> r is Ok,
            old(self).uart_obeys_model() && r is Ok ==> final(self).written() == old(self).written() + at_command_bytes(cmd@),
            old(self).uart_obeys_model() && r is Ok ==> final(self).uart_rx() == old(self).uart_rx() + old(self).uart_next_reply(),
    {
        let mut command = new_string();
        push_str(&mut command, "AT");
        push_str(&mut command, cmd);
        push_str(&mut command, "\r");
        proof {
            reveal_strlit("AT");
            reveal_strlit("\r");
        }
        self.uart.write_all(command.as_str().as_bytes())
    }

    /// Sends `AT<cmd>\r` and collects the reply within `timeout_nanos`: lines already
    /// waiting are kept as URCs first, URCs arriving meanwhile are kept too, and the
    /// reply is the error line, or the body lines seen before `OK`.
    pub fn send_at_with_timeout(&mut self, cmd: &str, timeout_nanos: u64) -> (r: Result<AtResponse, ModemError>)
        requires
            old(self).wf(),
        ensures
            final(self).wf(),
            old(self).pending_urcs().is_prefix_of(final(self).pending_urcs()),
            final(self).uart_never_fails() == old(self).uart_never_fails(),
            final(self).uart_obeys_model() == old(self).uart_obeys_model(),
            old(self).uart_obeys_model() && r is Ok ==> final(self).written() == old(self).written() + at_command_bytes(cmd@),
            old(self).uart_obeys_model() && old(self).uart_never_fails() ==> final(self).written() == old(self).written()
                + at_command_bytes(cmd@),
            old(self).uart_never_fails() && r is Err ==> r == Err::<AtResponse, ModemError>(
                ModemError::Timeout,
            ),
            r matches Ok(resp) ==> is_reply(resp),
            r matches Ok(resp) ==> (!resp.ok ==> is_error_line(resp.body@)),
            old(self).uart_obeys_model() && old(self).uart_never_fails() && old(self).uart_rx().len() < MAX_POLLS
                && final(self).exchanged().len() + final(self).uart_rx().len() < MAX_POLLS ==> exchange_result(
                final(self).exchanged(),
                final(self).uart_rx(),
                r,
            ),
            old(self).uart_obeys_model() && old(self).uart_never_fails() && old(self).uart_rx().len() < MAX_POLLS
                ==> final(self).exchanged() + final(self).uart_rx() == old(self).uart_next_reply(),
    {
        self.drain_urcs();
        let ghost drained = self.pending_urcs();
        let ghost rx_drained = self.uart_rx();
        let ghost w0 = self.written();
        match self.write_command(cmd) {
            Ok(()) => {},
            Err(e) => return Err(e),
        }
        assert(self.pending_urcs() == drained);
        let ghost b = self.uart_rx();
        proof {
            if old(self).uart_obeys_model() && old(self).uart_never_fails() && old(self).uart_rx().len() < MAX_POLLS {
                assert(rx_drained.len() == 0);
                assert(b =~= rx_drained + old(self).uart_next_reply());
            }
        }
        let start = clock_start();
        let mut body: Vec<String> = Vec::new();
        let r = self.collect_until_ok(&start, timeout_nanos, &mut body);
        proof {
            if old(self).uart_obeys_model() {
                let k = b.len() - self.uart_rx().len();
                assert(b.take(k) + b.skip(k) =~= b);
            }
        }
        match r {
            Err(e) => Err(e),
            Ok(Some(err)) => Ok(err),
            Ok(None) => {
                let joined = join_lines(&body);
                let resp = AtResponse { body: joined, ok: true };
                assert(is_reply(resp)) by {
                    let ls = string_views(body@);
                    assert(forall|i: int| 0 <= i < ls.len() ==> #[trigger] ls[i] == body@[i]@);
                    assert(forall|i: int| 0 <= i < ls.len() ==> #[trigger] is_body_line(ls[i]));
                }
                Ok(resp)
            },
        }
    }

    /// `send_at_with_timeout` with the 5 s command timeout.
    pub fn send_at(&mut self, cmd: &str) -> (r: Result<AtResponse, ModemError>)
        requires
            old(self).wf(),
        ensures
            final(self).wf(),
            old(self).pending_urcs().is_prefix_of(final(self).pending_urcs()),
            final(self).uart_never_fails() == old(self).uart_never_fails(),
            final(self).uart_obeys_model() == old(self).uart_obeys_model(),
            old(self).uart_obeys_model() && r is Ok ==> final(self).written() == old(self).written() + at_command_bytes(cmd@),
            old(self).uart_obeys_model() && old(self).uart_never_fails() ==> final(self).written() == old(self).written()
                + at_command_bytes(cmd@),
            old(self).uart_never_fails() && r is Err ==> r == Err::<AtResponse, ModemError>(
                ModemError::Timeout,
            ),
            r matches Ok(resp) ==> is_reply(resp),
            r matches Ok(resp) ==> (!resp.ok ==> is_error_line(resp.body@)),
            old(self).uart_obeys_model() && old(self).uart_never_fails() && old(self).uart_rx().len() < MAX_POLLS
                && final(self).exchanged().len() + final(self).uart_rx().len() < MAX_POLLS ==> exchange_result(
                final(self).exchanged(),
                final(self).uart_rx(),
                r,
            ),
            old(self).uart_obeys_model() && old(self).uart_never_fails() && old(self).uart_rx().len() < MAX_POLLS
                ==> final(self).exchanged() + final(self).uart_rx() == old(self).uart_next_reply(),
    {
        self.send_at_with_timeout(cmd, CMD_TIMEOUT_NANOS)
    }

    /// The oldest pending URC, else a line read now (trimmed; `None` when empty or
    /// nothing arrived).
    pub fn poll_urc(&mut self) -> (r: Option<String>)
        requires
            old(self).wf(),
        ensures
            final(self).wf(),
            old(self).uart_obeys_model() ==> final(self).written() == old(self).written(),
            old(self).pending_urcs().len() > 0 ==> (r matches Some(l) && l@ == old(self).pending_urcs()[0]
                && final(self).pending_urcs() == old(self).pending_urcs().skip(1)),
            old(self).pending_urcs().len() == 0 ==> final(self).pending_urcs().len() == 0,
            r matches Some(l) ==> l@.len() > 0 && is_trimmed(l@),
    {
        if self.urc_buf.len() > 0 {
            let ghost before = self.urc_buf@;
            let first = self.urc_buf.pop_front();
            assert(self.urc_buf@ =~= before.skip(1));
            assert(self.pending_urcs() =~= string_views(before).skip(1));
            return first;
        }
        match self.read_line(10_000_000) {
            None => None,
            Some(raw) => {
                let line = trim_str(raw.as_str());
                proof {
                    lemma_trim_idempotent(raw@);
                }
                if line.as_str().is_empty() {
                    None
                } else {
                    Some(line)
                }
            },
        }
    }

    /// Writes raw bytes (the PDU body of `AT+CMGS`).
    pub fn write_raw(&mut self, data: &[u8]) -> (r: Result<(), ModemError>)
        requires
            old(self).wf(),
        ensures
            final(self).wf(),
            final(self).pending_urcs() == old(self).pending_urcs(),
            final(self).uart_never_fails() == old(self).uart_never_fails(),
            final(self).uart_obeys_model() == old(self).uart_obeys_model(),
            old(self).uart_never_fails() ==> r is Ok,
            old(self).uart_obeys_model() && r is Ok ==> final(self).written() == old(self).written() + data@,
    {
        self.uart.write_all(data)
    }

    /// Sends `AT<cmd>\r`, waits for `CONNECT`, sends the payload (without trailing
    /// line ends) and `\r\n`, then collects the reply. A final reply before `CONNECT`
    /// (`OK` or an error) is returned as it is.
    pub fn send_at_connect_payload_with_timeout(&mut self, cmd: &str, payload: &str, timeout_nanos: u64) -> (r: Result<
        AtResponse,
        ModemError,
    >)
        requires
            old(self).wf(),
        ensures
            final(self).wf(),
            old(self).pending_urcs().is_prefix_of(final(self).pending_urcs()),
            r matches Ok(resp) ==> (resp.ok && resp.body@ == "OK"@) || is_reply(resp),
            r matches Ok(resp) ==> (!resp.ok ==> is_error_line(resp.body@)),
            final(self).uart_never_fails() == old(self).uart_never_fails(),
            final(self).uart_obeys_model() == old(self).uart_obeys_model(),
            old(self).uart_never_fails() && r is Err ==> r == Err::<AtResponse, ModemError>(
                ModemError::Timeout,
            ),
            old(self).uart_obeys_model() && (r is Ok || old(self).uart_never_fails()) ==> final(self).written() == old(self).written()
                + at_command_bytes(cmd@) || final(self).written() == old(self).written()
                + at_command_bytes(cmd@) + encode_utf8(
                drop_trailing(drop_trailing(payload@, '\r'), '\n') + "\r\n"@,
            ),
    {
        self.drain_urcs();
        let ghost w0 = self.written();
        match self.write_command(cmd) {
            Ok(()) => {},
            Err(e) => return Err(e),
        }
        let ghost w1 = self.written();
        let start = clock_start();
        let mut body: Vec<String> = Vec::new();
        let mut connected = false;
        let mut rounds: u64 = 0;
        while rounds < MAX_POLLS && !connected
            invariant
                self.wf(),
                old(self).uart_obeys_model() ==> w0 == old(self).written(),
                old(self).uart_obeys_model() ==> w1 == w0 + at_command_bytes(cmd@),
                old(self).uart_obeys_model() ==> self.written() == w1,
                self.uart_never_fails() == old(self).uart_never_fails(),
                self.uart_obeys_model() == old(self).uart_obeys_model(),
                old(self).pending_urcs().is_prefix_of(self.pending_urcs()),
                body@.len() <= MAX_BODY_LINES,
                forall|i: int| 0 <= i < body@.len() ==> #[trigger] is_body_line(body@[i]@),
            decreases MAX_POLLS - rounds,
        {
            rounds = rounds + 1;
            if elapsed(&start) > timeout_nanos {
                return Err(ModemError::Timeout);
            }
            match self.read_line(READLINE_TIMEOUT_NANOS) {
                None => {},
                Some(raw) => {
                    let line = trim_str(raw.as_str());
                    proof {
                        lemma_trim_idempotent(raw@);
                    }
                    if line.as_str().is_empty() {
                    } else if str_contains(line.as_str(), "CONNECT") {
                        connected = true;
                    } else if str_eq(line.as_str(), "OK") {
                        proof {
                            reveal_strlit("OK");
                        }
                        return Ok(AtResponse { body: line, ok: true });
                    } else if str_starts_with(line.as_str(), "ERROR") || str_starts_with(line.as_str(), "+CME ERROR") {
                        return Ok(AtResponse { body: line, ok: false });
                    } else if str_starts_with(line.as_str(), "+CMS ERROR") {
                        // Kept only with the lines before `CONNECT`, which are dropped.
                    } else {
                        self.buffer_line(line, &mut body);
                    }
                },
            }
        }
        if !connected {
            return Err(ModemError::Timeout);
        }
        let mut pl = trim_line_ends(payload);
        push_str(&mut pl, "\r\n");
        proof {
            reveal_strlit("\r\n");
        }
        match self.uart.write_all(pl.as_str().as_bytes()) {
            Ok(()) => {},
            Err(e) => return Err(e),
        }
        let mut body2: Vec<String> = Vec::new();
        match self.collect_until_ok(&start, timeout_nanos, &mut body2) {
            Err(e) => Err(e),
            Ok(Some(err)) => Ok(err),
            Ok(None) => {
                let joined = join_lines(&body2);
                let resp = AtResponse { body: joined, ok: true };
                assert(is_reply(resp)) by {
                    let ls = string_views(body2@);
                    assert(forall|i: int| 0 <= i < ls.len() ==> #[trigger] ls[i] == body2@[i]@);
                    assert(forall|i: int| 0 <= i < ls.len() ==> #[trigger] is_body_line(ls[i]));
                }
                Ok(resp)
            },
        }
    }

    /// `send_at_connect_payload_with_timeout` with the 90 s limit.
    pub fn send_at_connect_payload(&mut self, cmd: &str, payload: &str) -> (r: Result<AtResponse, ModemError>)
        requires
            old(self).wf(),
        ensures
            final(self).wf(),
            old(self).pending_urcs().is_prefix_of(final(self).pending_urcs()),
            r matches Ok(resp) ==> (resp.ok && resp.body@ == "OK"@) || is_reply(resp),
            r matches Ok(resp) ==> (!resp.ok ==> is_error_line(resp.body@)),
            final(self).uart_never_fails() == old(self).uart_never_fails(),
            final(self).uart_obeys_model() == old(self).uart_obeys_model(),
            old(self).uart_never_fails() && r is Err ==> r == Err::<AtResponse, ModemError>(
                ModemError::Timeout,
            ),
            old(self).uart_obeys_model() && (r is Ok || old(self).uart_never_fails()) ==> final(self).written() == old(self).written()
                + at_command_bytes(cmd@) || final(self).written() == old(self).written()
                + at_command_bytes(cmd@) + encode_utf8(
                drop_trailing(drop_trailing(payload@, '\r'), '\n') + "\r\n"@,
            ),
    {
        self.send_at_connect_payload_with_timeout(cmd, payload, CONNECT_TIMEOUT_NANOS)
    }

    /// Waits until `prompt` is read or `timeout` passes; bytes before it are dropped.
    pub fn wait_for_prompt(&mut self, prompt: u8, timeout: Duration) -> (r: bool)
        requires
            old(self).wf(),
        ensures
            final(self).wf(),
            old(self).uart_obeys_model() ==> final(self).written() == old(self).written(),
            final(self).pending_urcs() == old(self).pending_urcs(),
    {
        let limit = duration_nanos(timeout);
        let start = clock_start();
        let mut polls: u64 = 0;
        while polls < MAX_POLLS
            invariant
                self.wf(),
                self.urc_buf@ == old(self).urc_buf@,
                self.uart_obeys_model() == old(self).uart_obeys_model(),
                old(self).uart_obeys_model() ==> self.written() == old(self).written(),
            decreases MAX_POLLS - polls,
        {
            polls = polls + 1;
            if elapsed(&start) > limit {
                return false;
            }
            match self.uart.read_byte(UART_READ_TICKS) {
                Some(b) => {
                    if b == prompt {
                        return true;
                    }
                },
                None => {},
            }
        }
        false
    }
}

/// `s` without the copies of `c` at its end (`trim_end_matches(c)`).
pub open spec fn drop_trailing(s: Seq<char>, c: char) -> Seq<char>
    decreases s.len(),
{
    if s.len() > 0 && s.last() == c {
        drop_trailing(s.drop_last(), c)
    } else {
        s
    }
}

/// `s` without trailing `\r`, then without trailing `\n`
/// (`trim_end_matches('\r').trim_end_matches('\n')`).
fn trim_line_ends(s: &str) -> (r: String)
    ensures
        r@ == drop_trailing(drop_trailing(s@, '\r'), '\n'),
{
    let cs = crate::strutil::str_to_chars(s);
    let mut n = cs.len();
    assert(cs@.take(n as int) =~= cs@);
    while n > 0 && cs[n - 1] == '\r'
        invariant
            n <= cs@.len(),
            drop_trailing(cs@.take(n as int), '\r') == drop_trailing(cs@, '\r'),
        decreases n,
    {
        assert(cs@.take(n as int).drop_last() =~= cs@.take(n - 1));
        n = n - 1;
    }
    let ghost m = n;
    if n > 0 {
        assert(cs@.take(n as int).last() == cs@[n - 1]);
    }
    assert(drop_trailing(cs@.take(m as int), '\r') == cs@.take(m as int));
    while n > 0 && cs[n - 1] == '\n'
        invariant
            n <= m <= cs@.len(),
            drop_trailing(cs@.take(n as int), '\n') == drop_trailing(cs@.take(m as int), '\n'),
        decreases n,
    {
        assert(cs@.take(n as int).drop_last() =~= cs@.take(n - 1));
        n = n - 1;
    }
    if n > 0 {
        assert(cs@.take(n as int).last() == cs@[n - 1]);
    }
    assert(drop_trailing(cs@.take(n as int), '\n') == cs@.take(n as int));
    assert(cs@.subrange(0, n as int) =~= cs@.take(n as int));
    crate::strutil::chars_range_string(cs.as_slice(), 0, n)
}

} // verus!
