//! Small string helpers for allocation-sensitive formatting paths.

use vstd::prelude::*;

verus! {

/// The first `max_chars` characters of `s` and whether anything was cut off.
pub fn char_prefix(s: &str, max_chars: usize) -> (r: (&str, bool))
    ensures
        s@.len() > max_chars ==> r.0@ == s@.take(max_chars as int) && r.1,
        s@.len() <= max_chars ==> r.0@ == s@ && !r.1,
{
    let n = s.unicode_len();
    if n > max_chars {
        (s.substring_char(0, max_chars), true)
    } else {
        (s, false)
    }
}

} // verus!
