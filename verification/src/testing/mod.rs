//! Test doubles for the I/O boundaries (a scripted modem, a byte-level UART, recording
//! or failing messengers) and declarative end-to-end scenarios.

pub mod mocks;
pub mod scenario;

use crate::strutil::{new_string, push_char, str_to_chars};
use vstd::prelude::*;

verus! {

/// ASCII white space (`char::is_ascii_whitespace`): space, tab, LF, FF, CR.
pub open spec fn is_ascii_white(c: char) -> bool {
    c == ' ' || c == '\t' || c == '\n' || c == '\x0C' || c == '\r'
}

/// `s` without ASCII white space.
pub open spec fn spec_pdu(s: Seq<char>) -> Seq<char>
    decreases s.len(),
{
    if s.len() == 0 {
        s
    } else if is_ascii_white(s.last()) {
        spec_pdu(s.drop_last())
    } else {
        spec_pdu(s.drop_last()).push(s.last())
    }
}

/// Strip all ASCII whitespace from a PDU hex literal (for readable test constants).
pub fn pdu(hex: &str) -> (r: String)
    ensures
        r@ == spec_pdu(hex@),
{
    let cs = str_to_chars(hex);
    let mut out = new_string();
    let mut i: usize = 0;
    while i < cs.len()
        invariant
            cs@ == hex@,
            i <= cs@.len(),
            out@ == spec_pdu(cs@.take(i as int)),
        decreases cs@.len() - i,
    {
        let c = cs[i];
        assert(cs@.take(i + 1).drop_last() =~= cs@.take(i as int));
        assert(cs@.take(i + 1).last() == c);
        if !(c == ' ' || c == '\t' || c == '\n' || c == '\x0C' || c == '\r') {
            push_char(&mut out, c);
        }
        i = i + 1;
    }
    assert(cs@.take(cs@.len() as int) =~= cs@);
    out
}

} // verus!
