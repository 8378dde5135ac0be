//! The standard `AT+CMGS` PDU send handshake: the command text and the handling of
//! each reply line. The UART driver performs the waits and reads; these functions
//! decide what each line means.

use crate::modem::ModemError;
use crate::strutil::{
    chars_start_with, new_string, parse_unsigned_max, push_decimal, push_str, spec_decimal,
    spec_parse_unsigned, spec_trim, starts_with, str_to_chars, chars_to_string, trim_chars,
    trim_str, str_eq, string_views,
};
use vstd::prelude::*;

verus! {

/// The Ctrl-Z byte that ends the PDU body.
pub const CTRL_Z: u8 = 0x1A;

/// `AT+CMGS=<tpdu_len>\r`.
pub fn cmgs_command(tpdu_len: u8) -> (r: String)
    ensures
        r@ == "AT+CMGS="@ + spec_decimal(tpdu_len as nat) + "\r"@,
{
    let mut out = new_string();
    push_str(&mut out, "AT+CMGS=");
    push_decimal(&mut out, tpdu_len as u64);
    push_str(&mut out, "\r");
    out
}

/// The message reference in one `+CMGS:` line: the trimmed rest as a `u8`, else 0.
pub open spec fn spec_mr_of_line(line: Seq<char>) -> u8 {
    match spec_parse_unsigned(spec_trim(line.skip(6))) {
        Some(v) => if v <= 255 { v as u8 } else { 0 },
        None => 0,
    }
}

/// The message reference the collected reply lines give: that of the first line
/// starting with `+CMGS:`; 0 (unknown) when there is none.
pub open spec fn spec_message_reference(lines: Seq<Seq<char>>) -> u8
    decreases lines.len(),
{
    if lines.len() == 0 {
        0
    } else if starts_with(lines[0], "+CMGS:"@) {
        spec_mr_of_line(lines[0])
    } else {
        spec_message_reference(lines.skip(1))
    }
}

/// The message reference from the lines collected before the final `OK`.
pub fn message_reference(lines: &[String]) -> (r: u8)
    ensures
        r == spec_message_reference(string_views(lines@)),
{
    let p = str_to_chars("+CMGS:");
    proof {
        reveal_strlit("+CMGS:");
        assert(string_views(lines@).skip(0) =~= string_views(lines@));
    }
    let mut i: usize = 0;
    while i < lines.len()
        invariant
            i <= lines@.len(),
            p@ == "+CMGS:"@,
            p@.len() == 6,
            spec_message_reference(string_views(lines@)) == spec_message_reference(
                string_views(lines@).skip(i as int),
            ),
        decreases lines@.len() - i,
    {
        let ghost rest = string_views(lines@).skip(i as int);
        assert(rest[0] == lines@[i as int]@);
        assert(rest.skip(1) =~= string_views(lines@).skip(i + 1));
        let cs = str_to_chars(lines[i].as_str());
        if chars_start_with(cs.as_slice(), p.as_slice()) {
            let rest_cs = vstd::slice::slice_subrange(cs.as_slice(), 6, cs.len());
            assert(rest_cs@ =~= lines@[i as int]@.skip(6));
            let t = trim_chars(rest_cs);
            let ts = chars_to_string(t.as_slice());
            return match parse_unsigned_max(ts.as_str(), 255) {
                Some(v) => v as u8,
                None => 0,
            };
        }
        i = i + 1;
    }
    0
}

/// What one reply line after the PDU body means: the trimmed line is skipped when
/// empty, ends the exchange with the message reference on `OK`, fails it on `ERROR` or
/// `+CMS ERROR`, and is otherwise collected.
pub open spec fn spec_cmgs_line(lines: Seq<Seq<char>>, line: Seq<char>) -> (Seq<Seq<char>>, Option<Result<u8, Seq<char>>>) {
    let t = spec_trim(line);
    if t.len() == 0 {
        (lines, None)
    } else if t == "OK"@ {
        (lines, Some(Ok(spec_message_reference(lines))))
    } else if starts_with(t, "ERROR"@) || starts_with(t, "+CMS ERROR"@) {
        (lines, Some(Err(t)))
    } else {
        (lines.push(t), None)
    }
}

/// Handles one reply line of the `AT+CMGS` exchange; `Some` ends the exchange.
pub fn cmgs_reply_line(lines: &mut Vec<String>, line: &str) -> (r: Option<Result<u8, ModemError>>)
    ensures
        string_views(final(lines)@) == spec_cmgs_line(string_views(old(lines)@), line@).0,
        match spec_cmgs_line(string_views(old(lines)@), line@).1 {
            None => r is None,
            Some(Ok(mr)) => r == Some(Ok::<u8, ModemError>(mr)),
            Some(Err(m)) => r matches Some(Err(ModemError::AtError(e))) && e@ == m,
        },
{
    let t = trim_str(line);
    if t.as_str().is_empty() {
        return None;
    }
    if str_eq(t.as_str(), "OK") {
        return Some(Ok(message_reference(lines.as_slice())));
    }
    let tc = str_to_chars(t.as_str());
    let e1 = str_to_chars("ERROR");
    let e2 = str_to_chars("+CMS ERROR");
    if chars_start_with(tc.as_slice(), e1.as_slice()) || chars_start_with(tc.as_slice(), e2.as_slice()) {
        return Some(Err(ModemError::AtError(t)));
    }
    let ghost before = lines@;
    lines.push(t);
    assert(string_views(lines@) =~= string_views(before).push(spec_trim(line@)));
    None
}

} // verus!
