//! SMS inbound processing: CMTI handling and boot-time sweep.
//!
//! The reply parsing (`+CMGR`, `+CMGL`, modem text in UCS-2 hex) is verified here; the
//! modem commands are issued through `ModemPort`, whose answers are the modem's.

use crate::bridge::forwarder::{can_display, forward_sms, forward_text_of, parts_displayable, spec_is_blocked};
use crate::persist::{keys, spec_load_bool};
use crate::sms::concat::spec_feed;
use crate::bridge::poller::spec_join;
use crate::bridge::reply_router::ReplyRouter;
use crate::im::MessageSink;
use crate::log_ring::LogRing;
use crate::mms::MmsNotification;
use crate::modem::{after_step, scripted_answer, AtResponse, ModemPort};
use crate::persist::Store;
use crate::sms::codec::{is_ascii_digit, parse_sms_pdu};
use crate::sms::concat::ConcatReassembler;
use crate::sms::SmsMessage;
use crate::strutil::{
    char_from_u32, chars_range_string, chars_start_with, chars_to_string, find_char_from,
    is_white_space, is_white_space_exec, lemma_find_char_range, new_string, parse_unsigned_max,
    push_char, push_decimal, push_str, spec_decimal, spec_parse_unsigned, spec_trim, starts_with,
    str_to_chars, string_views, to_owned_string, trim_chars, trim_str,
};
use vstd::prelude::*;

verus! {

/// Raw SMS PDU read from a modem storage slot, or a message the modem decoded itself
/// (text mode).
#[derive(Debug, Clone, PartialEq, Eq)]
pub struct StoredSms {
    pub mem: String,
    pub index: u16,
    pub pdu_hex: String,
    decoded: Option<SmsMessage>,
}

/// Mathematical model of a stored SMS: the decoded message is (sender, body, time stamp, slot).
pub struct SpecStoredSms {
    pub mem: Seq<char>,
    pub index: u16,
    pub pdu_hex: Seq<char>,
    pub decoded: Option<(Seq<char>, Seq<char>, Seq<char>, u16)>,
}

impl View for StoredSms {
    type V = SpecStoredSms;

    closed spec fn view(&self) -> SpecStoredSms {
        SpecStoredSms {
            mem: self.mem@,
            index: self.index,
            pdu_hex: self.pdu_hex@,
            decoded: match &self.decoded {
                Some(m) => Some((m.sender@, m.body@, m.timestamp@, m.slot)),
                None => None,
            },
        }
    }
}

/// A stored PDU.
pub open spec fn stored_pdu(mem: Seq<char>, index: u16, hex: Seq<char>) -> SpecStoredSms {
    SpecStoredSms { mem, index, pdu_hex: hex, decoded: None }
}

/// A message the modem decoded.
pub open spec fn stored_decoded(mem: Seq<char>, index: u16, sender: Seq<char>, timestamp: Seq<char>, body: Seq<char>) -> SpecStoredSms {
    SpecStoredSms { mem, index, pdu_hex: Seq::empty(), decoded: Some((sender, body, timestamp, index)) }
}

impl StoredSms {
    fn pdu(mem: &str, index: u16, pdu_hex: String) -> (r: Self)
        ensures
            r@ == stored_pdu(mem@, index, pdu_hex@),
    {
        StoredSms { mem: to_owned_string(mem), index, pdu_hex, decoded: None }
    }

    fn decoded(mem: &str, index: u16, sender: String, timestamp: String, body: String) -> (r: Self)
        ensures
            r@ == stored_decoded(mem@, index, sender@, timestamp@, body@),
    {
        StoredSms {
            mem: to_owned_string(mem),
            index,
            pdu_hex: new_string(),
            decoded: Some(SmsMessage { sender, body, timestamp, slot: index }),
        }
    }
}

// ---------------------------------------------------------------------------
// Lines
// ---------------------------------------------------------------------------

/// The lines of a reply (split at `\n`), trimmed, without the empty ones.
pub open spec fn trimmed_lines(s: Seq<char>) -> Seq<Seq<char>>
    decreases s.len(),
{
    let i = find_char_from(s, '\n', 0);
    if i < 0 {
        if spec_trim(s).len() == 0 {
            Seq::empty()
        } else {
            seq![spec_trim(s)]
        }
    } else {
        proof {
            lemma_find_char_range(s, '\n', 0);
        }
        let t = spec_trim(s.take(i));
        let rest = trimmed_lines(s.skip(i + 1));
        if t.len() == 0 {
            rest
        } else {
            seq![t] + rest
        }
    }
}

proof fn lemma_find_first(s: Seq<char>, c: char, j: int)
    requires
        0 <= j < s.len(),
        s[j] == c,
        forall|k: int| 0 <= k < j ==> s[k] != c,
    ensures
        find_char_from(s, c, 0) == j,
{
    lemma_find_char_range(s, c, 0);
}

/// The trimmed, non-empty lines of `s`.
pub fn lines_of(s: &str) -> (r: Vec<String>)
    ensures
        string_views(r@) == trimmed_lines(s@),
{
    let cs = str_to_chars(s);
    let mut out: Vec<String> = Vec::new();
    let mut start: usize = 0;
    let mut j: usize = 0;
    assert(cs@.skip(0) =~= cs@);
    while j < cs.len()
        invariant
            cs@ == s@,
            start <= j <= cs@.len(),
            forall|k: int| start <= k < j ==> cs@[k] != '\n',
            string_views(out@) + trimmed_lines(cs@.skip(start as int)) == trimmed_lines(s@),
        decreases cs@.len() - j,
    {
        if cs[j] == '\n' {
            let ghost rest = cs@.skip(start as int);
            proof {
                assert forall|k: int| 0 <= k < j - start implies rest[k] != '\n' by {
                    assert(rest[k] == cs@[start + k]);
                }
                lemma_find_first(rest, '\n', j - start);
                assert(rest.take(j - start) =~= cs@.subrange(start as int, j as int));
                assert(rest.skip(j - start + 1) =~= cs@.skip(j + 1));
            }
            let head = vstd::slice::slice_subrange(cs.as_slice(), start, j);
            let t = trim_chars(head);
            if t.len() > 0 {
                let ghost before = out@;
                out.push(chars_to_string(t.as_slice()));
                assert(string_views(out@) =~= string_views(before).push(spec_trim(head@)));
                assert(string_views(before).push(spec_trim(head@)) + trimmed_lines(cs@.skip(j + 1)) =~= string_views(before) + (seq![spec_trim(head@)] + trimmed_lines(cs@.skip(j + 1))));
            }
            start = j + 1;
        }
        j = j + 1;
    }
    let ghost rest = cs@.skip(start as int);
    proof {
        lemma_find_char_range(rest, '\n', 0);
        if find_char_from(rest, '\n', 0) >= 0 {
            let f = find_char_from(rest, '\n', 0);
            assert(rest[f] == cs@[start + f]);
        }
        assert(rest =~= cs@.subrange(start as int, cs@.len() as int));
    }
    let head = vstd::slice::slice_subrange(cs.as_slice(), start, cs.len());
    let t = trim_chars(head);
    if t.len() > 0 {
        let ghost before = out@;
        out.push(chars_to_string(t.as_slice()));
        assert(string_views(out@) =~= string_views(before).push(spec_trim(head@)));
    } else {
        assert(trimmed_lines(rest) =~= Seq::<Seq<char>>::empty());
    }
    assert(string_views(out@) =~= trimmed_lines(s@));
    out
}

// ---------------------------------------------------------------------------
// AT reply fields
// ---------------------------------------------------------------------------

/// The state after reading `cs` as comma-separated fields: the finished fields, the
/// current field, and whether a quote is open.
pub open spec fn csv_state(cs: Seq<char>) -> (Seq<Seq<char>>, Seq<char>, bool)
    decreases cs.len(),
{
    if cs.len() == 0 {
        (Seq::empty(), Seq::empty(), false)
    } else {
        let st = csv_state(cs.drop_last());
        let c = cs.last();
        if c == '"' {
            (st.0, st.1, !st.2)
        } else if c == ',' && !st.2 {
            (st.0.push(spec_trim(st.1)), Seq::empty(), st.2)
        } else {
            (st.0, st.1.push(c), st.2)
        }
    }
}

/// Comma-separated fields of an AT reply: quotes group (and are dropped), each field is
/// trimmed.
pub open spec fn spec_parse_at_csv(cs: Seq<char>) -> Seq<Seq<char>> {
    let st = csv_state(cs);
    st.0.push(spec_trim(st.1))
}

/// Splits an AT reply into its comma-separated fields.
pub fn parse_at_csv(input: &str) -> (r: Vec<String>)
    ensures
        string_views(r@) == spec_parse_at_csv(input@),
{
    let cs = str_to_chars(input);
    let mut fields: Vec<String> = Vec::new();
    let mut current: Vec<char> = Vec::new();
    let mut in_quotes = false;
    let mut i: usize = 0;
    while i < cs.len()
        invariant
            cs@ == input@,
            i <= cs@.len(),
            (string_views(fields@), current@, in_quotes) == csv_state(cs@.take(i as int)),
        decreases cs@.len() - i,
    {
        let ch = cs[i];
        assert(cs@.take(i + 1).drop_last() =~= cs@.take(i as int));
        assert(cs@.take(i + 1).last() == ch);
        if ch == '"' {
            in_quotes = !in_quotes;
        } else if ch == ',' && !in_quotes {
            let t = trim_chars(current.as_slice());
            let ghost before = fields@;
            fields.push(chars_to_string(t.as_slice()));
            assert(string_views(fields@) =~= string_views(before).push(spec_trim(current@)));
            current = Vec::new();
        } else {
            current.push(ch);
        }
        i = i + 1;
    }
    assert(cs@.take(cs@.len() as int) =~= cs@);
    let t = trim_chars(current.as_slice());
    let ghost before = fields@;
    fields.push(chars_to_string(t.as_slice()));
    assert(string_views(fields@) =~= string_views(before).push(spec_trim(current@)));
    fields
}

// ---------------------------------------------------------------------------
// Modem text (UCS-2 hex)
// ---------------------------------------------------------------------------

/// `s` without white space.
pub open spec fn non_ws(s: Seq<char>) -> Seq<char>
    decreases s.len(),
{
    if s.len() == 0 {
        s
    } else if is_white_space(s.last()) {
        non_ws(s.drop_last())
    } else {
        non_ws(s.drop_last()).push(s.last())
    }
}

/// Value of an ASCII hex digit.
pub open spec fn hex_digit_value(c: char) -> Option<u16> {
    let n = c as u32;
    if 48 <= n <= 57 {
        Some((n - 48) as u16)
    } else if 65 <= n <= 70 {
        Some((n - 55) as u16)
    } else if 97 <= n <= 102 {
        Some((n - 87) as u16)
    } else {
        None
    }
}

/// The 16-bit units spelled by groups of four hex digits.
pub open spec fn hex_units(h: Seq<char>) -> Seq<u16> {
    Seq::new(
        (h.len() / 4) as nat,
        |i: int|
            (hex_digit_value(h[4 * i]).unwrap() * 4096 + hex_digit_value(h[4 * i + 1]).unwrap() * 256
                + hex_digit_value(h[4 * i + 2]).unwrap() * 16 + hex_digit_value(h[4 * i + 3]).unwrap()) as u16,
    )
}

/// Code units that plausibly belong to text: controls tab/LF/CR, printable ASCII,
/// Latin-1, general punctuation, CJK punctuation and ideographs, full-width forms.
pub open spec fn spec_is_text_code_unit(u: u16) -> bool {
    u == 0x0009 || u == 0x000A || u == 0x000D || (0x0020 <= u <= 0x007E) || (0x00A0 <= u <= 0x00FF)
        || (0x2000 <= u <= 0x206F) || (0x3000 <= u <= 0x303F) || (0x3400 <= u <= 0x9FFF) || (0xFF00 <= u
        <= 0xFFEF)
}

fn is_text_code_unit(unit: u16) -> (r: bool)
    ensures
        r == spec_is_text_code_unit(unit),
{
    unit == 0x0009 || unit == 0x000A || unit == 0x000D || (0x0020 <= unit && unit <= 0x007E) || (0x00A0
        <= unit && unit <= 0x00FF) || (0x2000 <= unit && unit <= 0x206F) || (0x3000 <= unit && unit
        <= 0x303F) || (0x3400 <= unit && unit <= 0x9FFF) || (0xFF00 <= unit && unit <= 0xFFEF)
}

/// Number of plausible text units.
pub open spec fn text_unit_count(u: Seq<u16>) -> int
    decreases u.len(),
{
    if u.len() == 0 {
        0
    } else {
        text_unit_count(u.drop_last()) + if spec_is_text_code_unit(u.last()) { 1int } else { 0int }
    }
}

/// UTF-16 decoding (`char::decode_utf16`, collected): a surrogate pair gives one
/// character, an unpaired surrogate fails.
pub open spec fn spec_utf16(u: Seq<u16>) -> Option<Seq<char>>
    decreases u.len(),
{
    if u.len() == 0 {
        Some(Seq::empty())
    } else if u[0] < 0xD800 || u[0] > 0xDFFF {
        match spec_utf16(u.skip(1)) {
            Some(r) => Some(seq![(u[0] as u32) as char] + r),
            None => None,
        }
    } else if u[0] <= 0xDBFF && u.len() >= 2 && 0xDC00 <= u[1] <= 0xDFFF {
        match spec_utf16(u.skip(2)) {
            Some(r) => Some(seq![((u[0] - 0xD800) * 1024 + (u[1] - 0xDC00) + 0x10000) as char] + r),
            None => None,
        }
    } else {
        None
    }
}

/// Text that the modem wrote as UCS-2 hex: white space ignored, at least one group of
/// four hex digits, at least half of the units plausible text, and valid UTF-16.
pub open spec fn spec_decode_ucs2_hex(text: Seq<char>) -> Option<Seq<char>> {
    let h = non_ws(text);
    if h.len() < 4 || h.len() % 4 != 0 || !(forall|i: int| 0 <= i < h.len() ==> (#[trigger] hex_digit_value(h[i])) is Some) {
        None
    } else {
        let u = hex_units(h);
        if text_unit_count(u) * 2 < u.len() {
            None
        } else {
            match spec_utf16(u) {
                Some(d) => if d.len() == 0 {
                    None
                } else {
                    Some(d)
                },
                None => None,
            }
        }
    }
}

/// Text the modem sent: decoded from UCS-2 hex when it is that, else as is.
pub open spec fn spec_decode_modem_text(text: Seq<char>) -> Seq<char> {
    match spec_decode_ucs2_hex(text) {
        Some(d) => d,
        None => text,
    }
}

fn hex_digit_exec(c: char) -> (r: Option<u16>)
    ensures
        r == hex_digit_value(c),
{
    let n = c as u32;
    if 48 <= n && n <= 57 {
        Some((n - 48) as u16)
    } else if 65 <= n && n <= 70 {
        Some((n - 55) as u16)
    } else if 97 <= n && n <= 102 {
        Some((n - 87) as u16)
    } else {
        None
    }
}

fn utf16_decode(u: &Vec<u16>) -> (r: Option<String>)
    ensures
        match spec_utf16(u@) {
            Some(d) => r matches Some(s) && s@ == d,
            None => r is None,
        },
{
    let mut out = new_string();
    let mut i: usize = 0;
    assert(u@.skip(0) =~= u@);
    while i < u.len()
        invariant
            i <= u@.len(),
            spec_utf16(u@) == (match spec_utf16(u@.skip(i as int)) {
                Some(r) => Some(out@ + r),
                None => None::<Seq<char>>,
            }),
        decreases u@.len() - i,
    {
        let ghost rest = u@.skip(i as int);
        assert(rest[0] == u@[i as int]);
        let a = u[i];
        if a < 0xD800 || a > 0xDFFF {
            assert(rest.skip(1) =~= u@.skip(i + 1));
            let c = match char_from_u32(a as u32) {
                Some(c) => c,
                None => {
                    assert(false);
                    return None;
                },
            };
            push_char(&mut out, c);
            proof {
                match spec_utf16(u@.skip(i + 1)) {
                    Some(r) => {
                        assert(out@ + r =~= old_out_plus(out@.drop_last(), c, r));
                    },
                    None => {},
                }
            }
            i = i + 1;
        } else if a <= 0xDBFF && u.len() - i >= 2 && 0xDC00 <= u[i + 1] && u[i + 1] <= 0xDFFF {
            assert(rest[1] == u@[i + 1]);
            assert(rest.skip(2) =~= u@.skip(i + 2));
            let b = u[i + 1];
            let cp: u32 = ((a - 0xD800) as u32) * 1024 + ((b - 0xDC00) as u32) + 0x10000;
            let c = match char_from_u32(cp) {
                Some(c) => c,
                None => {
                    assert(false);
                    return None;
                },
            };
            push_char(&mut out, c);
            proof {
                match spec_utf16(u@.skip(i + 2)) {
                    Some(r) => {
                        assert(out@ + r =~= old_out_plus(out@.drop_last(), c, r));
                    },
                    None => {},
                }
            }
            i = i + 2;
        } else {
            return None;
        }
    }
    assert(u@.skip(u@.len() as int) =~= Seq::<u16>::empty());
    Some(out)
}

spec fn old_out_plus(o: Seq<char>, c: char, r: Seq<char>) -> Seq<char> {
    o + (seq![c] + r)
}

/// Decodes modem text written as UCS-2 hex.
pub fn decode_ucs2_hex(text: &str) -> (r: Option<String>)
    ensures
        match spec_decode_ucs2_hex(text@) {
            Some(d) => r matches Some(s) && s@ == d,
            None => r is None,
        },
{
    let cs = str_to_chars(text);
    let mut h: Vec<char> = Vec::new();
    let mut i: usize = 0;
    while i < cs.len()
        invariant
            cs@ == text@,
            i <= cs@.len(),
            h@ == non_ws(cs@.take(i as int)),
        decreases cs@.len() - i,
    {
        assert(cs@.take(i + 1).drop_last() =~= cs@.take(i as int));
        assert(cs@.take(i + 1).last() == cs@[i as int]);
        if !is_white_space_exec(cs[i]) {
            h.push(cs[i]);
        }
        i = i + 1;
    }
    assert(cs@.take(cs@.len() as int) =~= cs@);
    let n = h.len();
    if n < 4 || n % 4 != 0 {
        return None;
    }
    let mut k: usize = 0;
    while k < n
        invariant
            n == h@.len(),
            h@ == non_ws(text@),
            k <= n,
            forall|t: int| 0 <= t < k ==> (#[trigger] hex_digit_value(h@[t])) is Some,
        decreases n - k,
    {
        if hex_digit_exec(h[k]).is_none() {
            assert(hex_digit_value(h@[k as int]) is None);
            assert(non_ws(text@) == h@);
            return None;
        }
        k = k + 1;
    }
    let mut units: Vec<u16> = Vec::new();
    let mut plausible: usize = 0;
    let mut g: usize = 0;
    while g < n / 4
        invariant
            n == h@.len(),
            h@ == non_ws(text@),
            n % 4 == 0,
            g <= n / 4,
            forall|t: int| 0 <= t < n ==> (#[trigger] hex_digit_value(h@[t])) is Some,
            units@ == hex_units(h@).take(g as int),
            plausible == text_unit_count(units@),
            plausible <= g,
        decreases n / 4 - g,
    {
        let d0 = hex_digit_exec(h[4 * g]).unwrap();
        let d1 = hex_digit_exec(h[4 * g + 1]).unwrap();
        let d2 = hex_digit_exec(h[4 * g + 2]).unwrap();
        let d3 = hex_digit_exec(h[4 * g + 3]).unwrap();
        let unit: u16 = d0 * 4096 + d1 * 256 + d2 * 16 + d3;
        let ghost before = units@;
        units.push(unit);
        assert(units@ =~= hex_units(h@).take(g + 1));
        assert(units@.drop_last() =~= before);
        if is_text_code_unit(unit) {
            plausible = plausible + 1;
        }
        g = g + 1;
    }
    assert(units@ =~= hex_units(h@));
    if plausible * 2 < units.len() {
        return None;
    }
    match utf16_decode(&units) {
        Some(d) => {
            if d.as_str().is_empty() {
                None
            } else {
                Some(d)
            }
        },
        None => None,
    }
}

/// Text the modem sent, decoded from UCS-2 hex when it is that.
pub fn decode_modem_text(text: &str) -> (r: String)
    ensures
        r@ == spec_decode_modem_text(text@),
{
    match decode_ucs2_hex(text) {
        Some(d) => d,
        None => to_owned_string(text),
    }
}

// ---------------------------------------------------------------------------
// +CMGR / +CMGL replies
// ---------------------------------------------------------------------------

fn join_strings(ls: &[String], from: usize) -> (r: String)
    requires
        from <= ls@.len(),
    ensures
        r@ == spec_join(string_views(ls@).skip(from as int)),
{
    let mut out = new_string();
    let mut i: usize = from;
    assert(string_views(ls@).skip(from as int).take(0) =~= Seq::<Seq<char>>::empty());
    while i < ls.len()
        invariant
            from <= i <= ls@.len(),
            out@ == spec_join(string_views(ls@).skip(from as int).take(i - from)),
        decreases ls@.len() - i,
    {
        let ghost v = string_views(ls@).skip(from as int);
        assert(v.take(i - from + 1).drop_last() =~= v.take(i - from));
        assert(v.take(i - from + 1).last() == ls@[i as int]@);
        if i > from {
            push_char(&mut out, '\n');
        } else {
            assert(v.take(1) =~= seq![ls@[i as int]@]);
        }
        push_str(&mut out, ls[i].as_str());
        i = i + 1;
    }
    assert(string_views(ls@).skip(from as int).take(ls@.len() - from) =~= string_views(ls@).skip(from as int));
    out
}

/// Index of the first line at or after `from` that does not start with `+CMGR:`, or -1.
pub open spec fn first_non_cmgr(l: Seq<Seq<char>>, from: int) -> int
    decreases l.len() - from,
{
    if from < 0 || from >= l.len() {
        -1
    } else if !starts_with(l[from], "+CMGR:"@) {
        from
    } else {
        first_non_cmgr(l, from + 1)
    }
}

/// What a `+CMGR` reply body holds: in text mode (a quoted status first) the sender,
/// time stamp and the following lines as body; in PDU mode the first line after the
/// header that is not another header.
pub open spec fn spec_parse_cmgr(mem: Seq<char>, index: u16, body: Seq<char>) -> Option<SpecStoredSms> {
    let l = trimmed_lines(body);
    if l.len() == 0 || !starts_with(l[0], "+CMGR:"@) {
        None
    } else {
        let rest = spec_trim(l[0].skip(6));
        if starts_with(rest, seq!['"']) {
            let f = spec_parse_at_csv(rest);
            if f.len() < 4 {
                None
            } else {
                Some(stored_decoded(mem, index, spec_decode_modem_text(f[1]), spec_trim(f[3]),
                    spec_decode_modem_text(spec_join(l.skip(1)))))
            }
        } else {
            let k = first_non_cmgr(l, 1);
            if k < 0 {
                None
            } else {
                Some(stored_pdu(mem, index, l[k]))
            }
        }
    }
}

/// Parses the body of an `AT+CMGR` reply.
pub fn parse_cmgr_response(mem: &str, index: u16, body: &str) -> (r: Option<StoredSms>)
    ensures
        match spec_parse_cmgr(mem@, index, body@) {
            Some(x) => r matches Some(s) && s@ == x,
            None => r is None,
        },
{
    let lines = lines_of(body);
    let ghost l = string_views(lines@);
    if lines.len() == 0 {
        return None;
    }
    assert(l[0] == lines@[0]@);
    let first = str_to_chars(lines[0].as_str());
    let tag = str_to_chars("+CMGR:");
    proof {
        reveal_strlit("+CMGR:");
    }
    if !chars_start_with(first.as_slice(), tag.as_slice()) {
        return None;
    }
    let rest_cs = vstd::slice::slice_subrange(first.as_slice(), 6, first.len());
    assert(rest_cs@ =~= l[0].skip(6));
    let rest = trim_chars(rest_cs);
    if rest.len() > 0 && rest[0] == '"' {
        assert(rest@.take(1) =~= seq!['"']);
        let rs = chars_to_string(rest.as_slice());
        let fields = parse_at_csv(rs.as_str());
        if fields.len() < 4 {
            return None;
        }
        assert(string_views(fields@)[1] == fields@[1]@ && string_views(fields@)[3] == fields@[3]@);
        let sender = decode_modem_text(fields[1].as_str());
        let timestamp = trim_str(fields[3].as_str());
        let text = join_strings(lines.as_slice(), 1);
        let body_text = decode_modem_text(text.as_str());
        return Some(StoredSms::decoded(mem, index, sender, timestamp, body_text));
    }
    proof {
        if rest@.len() > 0 && rest@[0] == '"' {
        } else {
            assert(!starts_with(rest@, seq!['"'])) by {
                if starts_with(rest@, seq!['"']) {
                    assert(rest@.take(1)[0] == rest@[0]);
                }
            }
        }
    }
    let mut k: usize = 1;
    while k < lines.len()
        invariant
            1 <= k <= lines@.len(),
            l == string_views(lines@),
            l == trimmed_lines(body@),
            tag@ == "+CMGR:"@,
            l.len() > 0,
            starts_with(l[0], "+CMGR:"@),
            !starts_with(spec_trim(l[0].skip(6)), seq!['"']),
            first_non_cmgr(l, 1) == first_non_cmgr(l, k as int),
        decreases lines@.len() - k,
    {
        assert(l[k as int] == lines@[k as int]@);
        let cs = str_to_chars(lines[k].as_str());
        if !chars_start_with(cs.as_slice(), tag.as_slice()) {
            assert(!starts_with(l[k as int], "+CMGR:"@));
            assert(first_non_cmgr(l, k as int) == k);
            assert(l == trimmed_lines(body@));
            assert(spec_parse_cmgr(mem@, index, body@) == Some(stored_pdu(mem@, index, l[k as int])));
            let c = lines[k].clone();
            assert(c@ == l[k as int]);
            return Some(StoredSms::pdu(mem, index, c));
        }
        k = k + 1;
    }
    None
}

/// The header of one `+CMGL` listing entry.
enum ListHeader {
    Pdu { index: u16 },
    Text { index: u16, sender: String, timestamp: String },
}

/// Model of a listing header: PDU mode (index) or text mode (index, sender, time stamp).
pub enum SpecListHeader {
    Pdu(u16),
    Text(u16, Seq<char>, Seq<char>),
}

impl ListHeader {
    spec fn view_header(&self) -> SpecListHeader {
        match self {
            ListHeader::Pdu { index } => SpecListHeader::Pdu(*index),
            ListHeader::Text { index, sender, timestamp } => SpecListHeader::Text(*index, sender@, timestamp@),
        }
    }
}

/// Whether every character of `s` is an ASCII digit.
pub open spec fn all_ascii_digits(s: Seq<char>) -> bool {
    forall|i: int| 0 <= i < s.len() ==> #[trigger] is_ascii_digit(s[i])
}

/// What a `+CMGL:` header line says: the index (a `u16`) and, in text mode (a status
/// that is not a number and at least five fields), the sender and time stamp.
pub open spec fn spec_parse_cmgl_header(line: Seq<char>) -> Option<SpecListHeader> {
    if !starts_with(line, "+CMGL:"@) {
        None
    } else {
        let f = spec_parse_at_csv(spec_trim(line.skip(6)));
        match spec_parse_unsigned(spec_trim(f[0])) {
            Some(v) => if v <= 65535 {
                if f.len() >= 5 && !all_ascii_digits(f[1]) {
                    Some(SpecListHeader::Text(v as u16, spec_decode_modem_text(f[2]), spec_trim(f[4])))
                } else {
                    Some(SpecListHeader::Pdu(v as u16))
                }
            } else {
                None
            },
            None => None,
        }
    }
}

fn all_ascii_digits_exec(s: &str) -> (r: bool)
    ensures
        r == all_ascii_digits(s@),
{
    let cs = str_to_chars(s);
    let mut i: usize = 0;
    while i < cs.len()
        invariant
            cs@ == s@,
            i <= cs@.len(),
            forall|k: int| 0 <= k < i ==> #[trigger] is_ascii_digit(cs@[k]),
        decreases cs@.len() - i,
    {
        let c = cs[i];
        if !((c as u32) >= 48 && (c as u32) <= 57) {
            assert(!is_ascii_digit(cs@[i as int]));
            return false;
        }
        i = i + 1;
    }
    true
}

fn parse_cmgl_header(line: &str) -> (r: Option<ListHeader>)
    ensures
        match spec_parse_cmgl_header(line@) {
            Some(h) => r matches Some(x) && x.view_header() == h,
            None => r is None,
        },
{
    let cs = str_to_chars(line);
    let tag = str_to_chars("+CMGL:");
    proof {
        reveal_strlit("+CMGL:");
    }
    if !chars_start_with(cs.as_slice(), tag.as_slice()) {
        return None;
    }
    let rest_cs = vstd::slice::slice_subrange(cs.as_slice(), 6, cs.len());
    assert(rest_cs@ =~= line@.skip(6));
    let rest = chars_to_string(trim_chars(rest_cs).as_slice());
    let fields = parse_at_csv(rest.as_str());
    assert(string_views(fields@).len() == fields@.len());
    assert(fields@.len() >= 1);
    assert(string_views(fields@)[0] == fields@[0]@);
    let f0 = trim_str(fields[0].as_str());
    let index = match parse_unsigned_max(f0.as_str(), 65535) {
        Some(v) => v as u16,
        None => return None,
    };
    if fields.len() >= 5 {
        assert(string_views(fields@)[1] == fields@[1]@ && string_views(fields@)[2] == fields@[2]@
            && string_views(fields@)[4] == fields@[4]@);
        if !all_ascii_digits_exec(fields[1].as_str()) {
            return Some(ListHeader::Text {
                index,
                sender: decode_modem_text(fields[2].as_str()),
                timestamp: trim_str(fields[4].as_str()),
            });
        }
    }
    Some(ListHeader::Pdu { index })
}

/// The stored messages after closing a listing entry: a PDU entry contributes its first
/// body line (trimmed), if any; a text entry its body lines joined and decoded.
pub open spec fn flush_entry(mem: Seq<char>, stored: Seq<SpecStoredSms>, entry: Option<(SpecListHeader, Seq<Seq<char>>)>) -> Seq<SpecStoredSms> {
    match entry {
        None => stored,
        Some((SpecListHeader::Pdu(i), b)) => if b.len() > 0 {
            stored.push(stored_pdu(mem, i, spec_trim(b[0])))
        } else {
            stored
        },
        Some((SpecListHeader::Text(i, sender, ts), b)) => stored.push(
            stored_decoded(mem, i, sender, ts, spec_decode_modem_text(spec_join(b))),
        ),
    }
}

/// One line of a `+CMGL` listing: a header closes the open entry and opens a new one;
/// another line belongs to the open entry (and is dropped when none is open).
pub open spec fn listing_step(
    mem: Seq<char>,
    acc: (Seq<SpecStoredSms>, Option<(SpecListHeader, Seq<Seq<char>>)>),
    line: Seq<char>,
) -> (Seq<SpecStoredSms>, Option<(SpecListHeader, Seq<Seq<char>>)>) {
    match spec_parse_cmgl_header(line) {
        Some(h) => (flush_entry(mem, acc.0, acc.1), Some((h, Seq::empty()))),
        None => match acc.1 {
            Some((h, b)) => (acc.0, Some((h, b.push(line)))),
            None => acc,
        },
    }
}

/// The listing state after the given lines.
pub open spec fn listing_fold(mem: Seq<char>, l: Seq<Seq<char>>) -> (Seq<SpecStoredSms>, Option<(SpecListHeader, Seq<Seq<char>>)>)
    decreases l.len(),
{
    if l.len() == 0 {
        (Seq::empty(), None)
    } else {
        listing_step(mem, listing_fold(mem, l.drop_last()), l.last())
    }
}

/// The messages in the body of an `AT+CMGL` reply.
pub open spec fn spec_parse_cmgl_listing(mem: Seq<char>, body: Seq<char>) -> Seq<SpecStoredSms> {
    let st = listing_fold(mem, trimmed_lines(body));
    flush_entry(mem, st.0, st.1)
}

/// Views of stored messages.
pub open spec fn stored_views(v: Seq<StoredSms>) -> Seq<SpecStoredSms> {
    v.map_values(|s: StoredSms| s@)
}

fn flush_list_entry(mem: &str, stored: &mut Vec<StoredSms>, entry: Option<(ListHeader, Vec<String>)>)
    ensures
        stored_views(final(stored)@) == flush_entry(
            mem@,
            stored_views(old(stored)@),
            match entry {
                Some((h, b)) => Some((h.view_header(), string_views(b@))),
                None => None,
            },
        ),
{
    let ghost before = stored@;
    match entry {
        None => {},
        Some((header, body_lines)) => {
            match header {
                ListHeader::Pdu { index } => {
                    if body_lines.len() > 0 {
                        assert(string_views(body_lines@)[0] == body_lines@[0]@);
                        stored.push(StoredSms::pdu(mem, index, trim_str(body_lines[0].as_str())));
                        assert(stored_views(stored@) =~= stored_views(before).push(stored@.last()@));
                    }
                },
                ListHeader::Text { index, sender, timestamp } => {
                    let text = join_strings(body_lines.as_slice(), 0);
                    assert(string_views(body_lines@).skip(0) =~= string_views(body_lines@));
                    let body = decode_modem_text(text.as_str());
                    stored.push(StoredSms::decoded(mem, index, sender, timestamp, body));
                    assert(stored_views(stored@) =~= stored_views(before).push(stored@.last()@));
                },
            }
        },
    }
}

/// Parses the body of an `AT+CMGL` listing into the stored messages.
pub fn parse_cmgl_listing(mem: &str, body: &str) -> (r: Vec<StoredSms>)
    ensures
        stored_views(r@) == spec_parse_cmgl_listing(mem@, body@),
{
    let lines = lines_of(body);
    let ghost l = string_views(lines@);
    let mut stored: Vec<StoredSms> = Vec::new();
    let mut current: Option<(ListHeader, Vec<String>)> = None;
    let mut i: usize = 0;
    assert(stored_views(stored@) =~= Seq::<SpecStoredSms>::empty());
    while i < lines.len()
        invariant
            i <= lines@.len(),
            l == string_views(lines@),
            (stored_views(stored@), match current {
                Some((h, b)) => Some((h.view_header(), string_views(b@))),
                None => None,
            }) == listing_fold(mem@, l.take(i as int)),
        decreases lines@.len() - i,
    {
        assert(l.take(i + 1).drop_last() =~= l.take(i as int));
        assert(l.take(i + 1).last() == lines@[i as int]@);
        match parse_cmgl_header(lines[i].as_str()) {
            Some(header) => {
                let prev = current;
                flush_list_entry(mem, &mut stored, prev);
                let empty: Vec<String> = Vec::new();
                assert(string_views(empty@) =~= Seq::<Seq<char>>::empty());
                current = Some((header, empty));
            },
            None => {
                match current {
                    Some((h, mut b)) => {
                        let ghost bb = b@;
                        b.push(lines[i].clone());
                        assert(string_views(b@) =~= string_views(bb).push(lines@[i as int]@));
                        current = Some((h, b));
                    },
                    None => {
                        current = None;
                    },
                }
            },
        }
        i = i + 1;
    }
    assert(l.take(lines@.len() as int) =~= l);
    flush_list_entry(mem, &mut stored, current);
    stored
}

// ---------------------------------------------------------------------------
// Modem commands
// ---------------------------------------------------------------------------

/// `+CMGR=<index>` (read one slot).
pub fn cmgr_command(index: u16) -> (r: String)
    ensures
        r@ == "+CMGR="@ + spec_decimal(index as nat),
{
    let mut out = new_string();
    push_str(&mut out, "+CMGR=");
    push_decimal(&mut out, index as u64);
    out
}

/// `+CMGD=<index>` (delete one slot).
pub fn cmgd_command(index: u16) -> (r: String)
    ensures
        r@ == "+CMGD="@ + spec_decimal(index as nat),
{
    let mut out = new_string();
    push_str(&mut out, "+CMGD=");
    push_decimal(&mut out, index as u64);
    out
}

/// `+CPMS="<mem>"` (select the storage).
pub fn cpms_command(mem: &str) -> (r: String)
    ensures
        r@ == "+CPMS=\""@ + mem@ + "\""@,
{
    let mut out = new_string();
    push_str(&mut out, "+CPMS=\"");
    push_str(&mut out, mem);
    push_str(&mut out, "\"");
    out
}

fn ensure_pdu_mode<M: ModemPort + ?Sized>(modem: &mut M)
    ensures
        final(modem).obeys_model() == old(modem).obeys_model(),
        old(modem).obeys_model() ==> final(modem).commands() == old(modem).commands().push("+CMGF=0"@),
        old(modem).obeys_model() ==> final(modem).replies().drop_last() == old(modem).replies()
            && final(modem).replies().len() == old(modem).replies().len() + 1,
        old(modem).obeys_model() ==> final(modem).replies().last() == scripted_answer(old(modem).scripted(), "+CMGF=0"@)
            && final(modem).scripted() == after_step(old(modem).scripted()),
{
    let _ = modem.send_at("+CMGF=0");
}

/// What a `+CMGR` reply reads as: the parsed body of a successful reply, else nothing.
pub open spec fn cmgr_result(mem: Seq<char>, index: u16, reply: Option<(bool, Seq<char>)>) -> Option<SpecStoredSms> {
    match reply {
        Some((ok, body)) => if ok {
            spec_parse_cmgr(mem, index, body)
        } else {
            None
        },
        None => None,
    }
}

/// What a `+CMGL` listing reads as: the entries of the first successful reply of the
/// two listing commands, else nothing.
pub open spec fn cmgl_result(mem: Seq<char>, first: Option<(bool, Seq<char>)>, second: Option<(bool, Seq<char>)>) -> Seq<SpecStoredSms> {
    match first {
        Some((true, body)) => spec_parse_cmgl_listing(mem, body),
        _ => match second {
            Some((true, body)) => spec_parse_cmgl_listing(mem, body),
            _ => Seq::empty(),
        },
    }
}

/// Read one SMS PDU from the modem slot reported by a +CMTI notification.
///
/// Whatever the modem answers, a result is what `spec_parse_cmgr` reads from some
/// reply body for this storage and slot; for a modem that keeps its models, it is what
/// the `+CMGR` reply reads as (`cmgr_result`).
pub fn read_new_sms_pdu<M: ModemPort + ?Sized>(mem: &str, index: u16, modem: &mut M) -> (r: Option<StoredSms>)
    ensures
        r matches Some(s) ==> exists|body: Seq<char>| spec_parse_cmgr(mem@, index, body) == Some(s@),
        final(modem).obeys_model() == old(modem).obeys_model(),
        old(modem).obeys_model() ==> final(modem).commands() == old(modem).commands() + seq![
            "+CMGF=0"@,
            "+CPMS=\""@ + mem@ + "\""@,
            "+CMGR="@ + spec_decimal(index as nat),
        ],
        old(modem).obeys_model() ==> final(modem).replies().len() == old(modem).replies().len() + 3
            && final(modem).replies().take(old(modem).replies().len() as int) == old(modem).replies(),
        old(modem).obeys_model() ==> {
            let n = old(modem).replies().len() as int;
            let s0 = old(modem).scripted();
            let s1 = after_step(s0);
            let s2 = after_step(s1);
            &&& final(modem).replies()[n] == scripted_answer(s0, "+CMGF=0"@)
            &&& final(modem).replies()[n + 1] == scripted_answer(s1, "+CPMS=\""@ + mem@ + "\""@)
            &&& final(modem).replies()[n + 2] == scripted_answer(s2, "+CMGR="@ + spec_decimal(index as nat))
            &&& final(modem).scripted() == after_step(s2)
        },
        old(modem).obeys_model() ==> match r {
            Some(sms) => cmgr_result(mem@, index, final(modem).replies().last()) == Some(sms@),
            None => cmgr_result(mem@, index, final(modem).replies().last()) is None,
        },
{
    let ghost c0 = modem.commands();
    let ghost r0 = modem.replies();
    ensure_pdu_mode(modem);
    let ghost r1 = modem.replies();
    let _ = modem.send_at(cpms_command(mem).as_str());
    let ghost r2 = modem.replies();
    proof {
        if old(modem).obeys_model() {
            assert(r1.take(r0.len() as int) =~= r0) by {
                assert(r1.drop_last() == r0);
            }
            assert(r2.take(r0.len() as int) =~= r0);
            assert(r1[r0.len() as int] == r1.last());
            assert(r2[r0.len() as int] == r1[r0.len() as int]);
        }
    }
    match modem.send_at(cmgr_command(index).as_str()) {
        Ok(resp) => {
            if resp.ok {
                let r = parse_cmgr_response(mem, index, resp.body.as_str());
                proof {
                    if r is Some {
                        assert(spec_parse_cmgr(mem@, index, resp.body@) == Some(r->0@));
                    }
                }
                r
            } else {
                None
            }
        },
        Err(_) => None,
    }
}

/// Delete an SMS storage slot after the message has been consumed.
pub fn delete_sms_slot<M: ModemPort + ?Sized>(index: u16, modem: &mut M)
    ensures
        final(modem).obeys_model() == old(modem).obeys_model(),
        old(modem).obeys_model() ==> final(modem).commands() == old(modem).commands().push("+CMGD="@ + spec_decimal(index as nat)),
{
    let _ = modem.send_at(cmgd_command(index).as_str());
}

fn list_stored_sms<M: ModemPort + ?Sized>(modem: &mut M) -> (r: Option<AtResponse>)
    ensures
        r matches Some(x) ==> x.ok,
        final(modem).obeys_model() == old(modem).obeys_model(),
        old(modem).obeys_model() ==> final(modem).commands() == old(modem).commands().push("+CMGL=4"@) || final(modem).commands()
            == old(modem).commands().push("+CMGL=4"@).push("+CMGL=\"ALL\""@),
        old(modem).obeys_model() ==> {
            let n = old(modem).replies().len();
            let first = final(modem).replies()[n as int];
            if first matches Some((ok, _)) && ok {
                &&& final(modem).replies() == old(modem).replies().push(first)
                &&& r matches Some(x) && first == Some((true, x.body@))
            } else {
                &&& final(modem).replies().len() == n + 2
                &&& final(modem).replies().take(n as int) == old(modem).replies()
                &&& match final(modem).replies()[n as int + 1] {
                    Some((ok, body)) => if ok {
                        r matches Some(x) && x.body@ == body
                    } else {
                        r is None
                    },
                    None => r is None,
                }
            }
        },
        old(modem).obeys_model() ==> {
            let n = old(modem).replies().len() as int;
            let rs = final(modem).replies();
            let s0 = old(modem).scripted();
            &&& rs[n] == scripted_answer(s0, "+CMGL=4"@)
            &&& rs.len() == n + 1 ==> final(modem).scripted() == after_step(s0)
            &&& rs.len() > n + 1 ==> rs[n + 1] == scripted_answer(after_step(s0), "+CMGL=\"ALL\""@)
                && final(modem).scripted() == after_step(after_step(s0))
        },
{
    match modem.send_at("+CMGL=4") {
        Ok(resp) => {
            if resp.ok {
                return Some(resp);
            }
        },
        Err(_) => {},
    }
    match modem.send_at("+CMGL=\"ALL\"") {
        Ok(resp) => {
            if resp.ok {
                return Some(resp);
            }
        },
        Err(_) => {},
    }
    None
}

/// Read all stored SMS PDUs from one memory bank (`AT+CMGL=4`, else `AT+CMGL="ALL"`).
///
/// Whatever the modem answers, the result is what `spec_parse_cmgl_listing` reads from
/// some reply body for this storage, or empty; for a modem that keeps its models, it is
/// what the listing replies read as (`cmgl_result`).
pub fn read_stored_sms<M: ModemPort + ?Sized>(mem: &str, modem: &mut M) -> (r: Vec<StoredSms>)
    ensures
        r@.len() == 0 || exists|body: Seq<char>| stored_views(r@) == spec_parse_cmgl_listing(mem@, body),
        final(modem).obeys_model() == old(modem).obeys_model(),
        old(modem).obeys_model() ==> final(modem).commands() == old(modem).commands() + seq!["+CMGF=0"@, "+CMGL=4"@] || final(modem).commands()
            == old(modem).commands() + seq!["+CMGF=0"@, "+CMGL=4"@, "+CMGL=\"ALL\""@],
        old(modem).obeys_model() ==> {
            let n = old(modem).replies().len() as int + 1;
            let rs = final(modem).replies();
            stored_views(r@) == cmgl_result(mem@, rs[n], if rs.len() > n + 1 { rs[n + 1] } else { None })
        },
        old(modem).obeys_model() ==> {
            let n = old(modem).replies().len() as int;
            let rs = final(modem).replies();
            let s1 = after_step(old(modem).scripted());
            &&& rs[n] == scripted_answer(old(modem).scripted(), "+CMGF=0"@)
            &&& rs[n + 1] == scripted_answer(s1, "+CMGL=4"@)
            &&& rs.len() > n + 2 ==> rs[n + 2] == scripted_answer(after_step(s1), "+CMGL=\"ALL\""@)
        },
{
    let ghost c0 = modem.commands();
    ensure_pdu_mode(modem);
    match list_stored_sms(modem) {
        Some(resp) => {
            let r = parse_cmgl_listing(mem, resp.body.as_str());
            assert(stored_views(r@) == spec_parse_cmgl_listing(mem@, resp.body@));
            r
        },
        None => Vec::new(),
    }
}

// ---------------------------------------------------------------------------
// Forwarding
// ---------------------------------------------------------------------------

/// Whether an SMS with this sender and time stamp is owed forwarding by the store: it
/// can be displayed, forwarding is not paused, and the sender is not blocked.
pub open spec fn forwarding_owed(stored: Map<Seq<char>, Seq<u8>>, sender: Seq<char>, timestamp: Seq<char>) -> bool {
    &&& parts_displayable(sender, timestamp)
    &&& spec_load_bool(stored, keys::FWD_ENABLED@) != Some(false)
    &&& !spec_is_blocked(stored, sender)
}

/// Parse a PDU hex string and forward the SMS.
///
/// Returns `true` if the modem slot should be deleted:
/// - single SMS forwarded successfully
/// - concat partial (slot consumed; delete to free storage)
/// - unparseable PDU (no point retaining)
///
/// Returns `false` if forwarding failed (keep for retry on next boot). A message whose
/// sender or time stamp the display formatting cannot slice is not forwarded either,
/// and its slot is kept. An MMS notification is forwarded with the text `mms_text`
/// renders for it.
pub fn process_pdu_hex<S: Store + ?Sized, K: MessageSink + ?Sized, F: Fn(&MmsNotification) -> String>(
    hex: &str,
    slot: u16,
    router: &mut ReplyRouter,
    log: &mut LogRing,
    concat: &mut ConcatReassembler,
    messenger: &mut K,
    store: &mut S,
    log_timestamp: &str,
    mms_text: F,
) -> (r: bool)
    requires
        old(router).wf(),
        old(log).wf(),
        old(concat).wf(),
        forall|n: &MmsNotification| call_requires(mms_text, (n,)),
    ensures
        final(router).wf(),
        final(log).wf(),
        final(concat).wf(),
        crate::sms::codec::spec_parse_sms_pdu_hex(hex@) is Err ==> r && final(router).view_slots()
            == old(router).view_slots() && final(concat).table() == old(concat).table()
            && final(messenger).delivered() == old(messenger).delivered(),
        match crate::sms::codec::spec_parse_sms_pdu_hex(hex@) {
            Ok(p) => (crate::mms::spec_mms_notification_from_sms(p) is None && !p.is_concatenated) ==> {
                &&& final(concat).table() == old(concat).table()
                &&& !parts_displayable(p.sender, p.timestamp) ==> !r && final(messenger).delivered()
                    == old(messenger).delivered()
                &&& old(messenger).obeys_model() && r ==> final(messenger).delivered() == old(messenger).delivered().push(
                    forward_text_of(p.sender, p.timestamp, p.content),
                )
                &&& old(store).obeys_model() && forwarding_owed(old(store).stored(), p.sender, p.timestamp) && old(messenger).never_fails() ==> r
            },
            Err(_) => true,
        },
        match crate::sms::codec::spec_parse_sms_pdu_hex(hex@) {
            Ok(p) => (crate::mms::spec_mms_notification_from_sms(p) is None && p.is_concatenated) ==> exists|
                now: u64,
            | {
                &&& #[trigger] spec_feed(old(concat).table(), p, now).0 == final(concat).table()
                &&& match spec_feed(old(concat).table(), p, now).1 {
                    None => r && final(messenger).delivered() == old(messenger).delivered()
                        && final(router).view_slots() == old(router).view_slots(),
                    Some(c) => {
                        &&& !parts_displayable(c.sender, c.timestamp) ==> !r && final(messenger).delivered()
                            == old(messenger).delivered()
                        &&& old(messenger).obeys_model() && r ==> final(messenger).delivered() == old(messenger).delivered().push(
                            forward_text_of(c.sender, c.timestamp, c.content),
                        )
                        &&& old(store).obeys_model() && forwarding_owed(old(store).stored(), c.sender, c.timestamp) && old(
                            messenger,
                        ).never_fails() ==> r
                    },
                }
            },
            Err(_) => true,
        },
        match crate::sms::codec::spec_parse_sms_pdu_hex(hex@) {
            Ok(p) => crate::mms::spec_mms_notification_from_sms(p) is Some ==> exists|x: MmsNotification, t: String|
                {
                    &&& Some(x@) == crate::mms::spec_mms_notification_from_sms(p)
                    &&& #[trigger] call_ensures(mms_text, (&x,), t)
                    &&& final(concat).table() == old(concat).table()
                    &&& !parts_displayable(p.sender, p.timestamp) ==> !r && final(messenger).delivered()
                        == old(messenger).delivered()
                    &&& old(messenger).obeys_model() && r ==> final(messenger).delivered() == old(messenger).delivered().push(
                        forward_text_of(p.sender, p.timestamp, t@),
                    )
                    &&& old(store).obeys_model() && forwarding_owed(old(store).stored(), p.sender, p.timestamp) && old(
                        messenger,
                    ).never_fails() ==> r
                },
            Err(_) => true,
        },
{
    let pdu = match parse_sms_pdu(hex) {
        Ok(p) => p,
        Err(_) => return true,
    };
    let sms = match crate::mms::parse_mms_notification_from_sms(&pdu) {
        Some(notification) => {
            let body = mms_text(&notification);
            SmsMessage { sender: pdu.sender, body, timestamp: pdu.timestamp, slot }
        },
        None => {
            if pdu.is_concatenated {
                match concat.feed(&pdu) {
                    Some(complete) => SmsMessage {
                        sender: complete.sender,
                        body: complete.content,
                        timestamp: complete.timestamp,
                        slot,
                    },
                    None => return true,
                }
            } else {
                SmsMessage { sender: pdu.sender, body: pdu.content, timestamp: pdu.timestamp, slot }
            }
        },
    };
    if !can_display(&sms) {
        return false;
    }
    forward_sms(&sms, messenger, router, log, store, log_timestamp).is_some()
}

/// Forward an SMS storage entry, whether it came from PDU mode or modem text mode.
pub fn process_stored_sms<S: Store + ?Sized, K: MessageSink + ?Sized, F: Fn(&MmsNotification) -> String>(
    stored: StoredSms,
    router: &mut ReplyRouter,
    log: &mut LogRing,
    concat: &mut ConcatReassembler,
    messenger: &mut K,
    store: &mut S,
    log_timestamp: &str,
    mms_text: F,
) -> (r: bool)
    requires
        old(router).wf(),
        old(log).wf(),
        old(concat).wf(),
        forall|n: &MmsNotification| call_requires(mms_text, (n,)),
    ensures
        final(router).wf(),
        final(log).wf(),
        final(concat).wf(),
        stored@.decoded is Some ==> final(concat).table() == old(concat).table(),
        match stored@.decoded {
            Some((sender, body, timestamp, _)) => {
                &&& !parts_displayable(sender, timestamp) ==> !r && final(messenger).delivered()
                    == old(messenger).delivered()
                &&& old(messenger).obeys_model() && r ==> final(messenger).delivered() == old(messenger).delivered().push(
                    forward_text_of(sender, timestamp, body),
                )
                &&& old(store).obeys_model() && forwarding_owed(old(store).stored(), sender, timestamp) && old(messenger).never_fails() ==> r
            },
            None => crate::sms::codec::spec_parse_sms_pdu_hex(stored@.pdu_hex) is Err ==> r
                && final(messenger).delivered() == old(messenger).delivered(),
        },
{
    match stored.decoded {
        Some(sms) => {
            if !can_display(&sms) {
                return false;
            }
            forward_sms(&sms, messenger, router, log, store, log_timestamp).is_some()
        },
        None => process_pdu_hex(
            stored.pdu_hex.as_str(),
            stored.index,
            router,
            log,
            concat,
            messenger,
            store,
            log_timestamp,
            mms_text,
        ),
    }
}

} // verus!
