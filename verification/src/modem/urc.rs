//! Unsolicited result codes: the lines a modem sends on its own, between or during
//! command replies.

use crate::bridge::sms_handler::{parse_at_csv, spec_parse_at_csv};
use crate::strutil::{
    chars_range_string, parse_unsigned_max, spec_parse_unsigned, spec_trim, starts_with,
    str_eq, str_starts_with, str_to_chars, string_views, to_owned_string, trim_str,
};
use vstd::prelude::*;

verus! {

/// What an unsolicited line announces.
#[derive(Debug, Clone)]
pub enum Urc {
    /// `+CMTI: "<mem>",<index>`: an SMS was stored in `mem` at `index`.
    NewSms { mem: String, index: u16 },
    /// `+CMT: ...`: an SMS is delivered directly; the next line holds its PDU.
    SmsDelivery,
    /// Anything else (ring, caller id, status reports, ...).
    Other,
}

/// The storage and slot that the fields after `+CMTI:` name: the first field, and
/// the second as a slot number.
pub open spec fn spec_new_sms(t: Seq<char>) -> Option<(Seq<char>, u16)> {
    let f = spec_parse_at_csv(t.skip(6));
    if f.len() < 2 {
        None
    } else {
        match spec_parse_unsigned(f[1]) {
            Some(v) => if v <= 65535 { Some((f[0], v as u16)) } else { None },
            None => None,
        }
    }
}

/// Whether the trimmed line is one of the unsolicited codes the bridge acts on or
/// must keep out of command replies.
pub open spec fn spec_is_urc(t: Seq<char>) -> bool {
    ||| starts_with(t, "+CMTI:"@)
    ||| starts_with(t, "+CMT:"@)
    ||| starts_with(t, "+CDS:"@)
    ||| starts_with(t, "+CLIP:"@)
    ||| t == "RING"@
    ||| t == "NO CARRIER"@
}

/// Classifies an unsolicited line (after trimming white space).
pub fn parse_urc(line: &str) -> (r: Urc)
    ensures
        ({
            let t = spec_trim(line@);
            if starts_with(t, "+CMTI:"@) {
                match spec_new_sms(t) {
                    Some((m, i)) => r matches Urc::NewSms { mem, index } && mem@ == m && index == i,
                    None => r is Other,
                }
            } else if starts_with(t, "+CMT:"@) {
                r is SmsDelivery
            } else {
                r is Other
            }
        }),
{
    let t = trim_str(line);
    if str_starts_with(t.as_str(), "+CMTI:") {
        proof {
            reveal_strlit("+CMTI:");
        }
        let cs = str_to_chars(t.as_str());
        let rest = chars_range_string(cs.as_slice(), 6, cs.len());
        assert(rest@ =~= spec_trim(line@).skip(6));
        let fields = parse_at_csv(rest.as_str());
        if fields.len() < 2 {
            return Urc::Other;
        }
        assert(string_views(fields@)[1] == fields@[1]@);
        assert(string_views(fields@)[0] == fields@[0]@);
        match parse_unsigned_max(fields[1].as_str(), 65535) {
            Some(v) => Urc::NewSms { mem: to_owned_string(fields[0].as_str()), index: v as u16 },
            None => Urc::Other,
        }
    } else if str_starts_with(t.as_str(), "+CMT:") {
        Urc::SmsDelivery
    } else {
        Urc::Other
    }
}

/// Whether a line read while waiting for a command reply is unsolicited, and so is
/// kept for the main loop rather than taken into the reply.
pub fn is_urc(line: &str) -> (r: bool)
    ensures
        r == spec_is_urc(spec_trim(line@)),
{
    let t = trim_str(line);
    let s = t.as_str();
    str_starts_with(s, "+CMTI:") || str_starts_with(s, "+CMT:") || str_starts_with(s, "+CDS:")
        || str_starts_with(s, "+CLIP:") || str_eq(s, "RING") || str_eq(s, "NO CARRIER")
}

} // verus!
