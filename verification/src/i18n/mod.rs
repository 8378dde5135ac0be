//! User-facing text in English (`en`, the default) and Chinese (`zh`).

pub mod en;
pub mod zh;

use crate::strutil::{push_char, push_str, new_string, str_to_chars};
use vstd::prelude::*;

verus! {

/// The HTML escape of one character: `&`, `<` and `>` become entities.
pub open spec fn html_escape_char(c: char) -> Seq<char> {
    if c == '&' {
        "&amp;"@
    } else if c == '<' {
        "&lt;"@
    } else if c == '>' {
        "&gt;"@
    } else {
        seq![c]
    }
}

/// The HTML escape of a text.
pub open spec fn spec_html_escape(s: Seq<char>) -> Seq<char>
    decreases s.len(),
{
    if s.len() == 0 {
        Seq::empty()
    } else {
        spec_html_escape(s.drop_last()) + html_escape_char(s.last())
    }
}

/// Appends the HTML escape of `s`.
pub fn push_html_escaped(out: &mut String, s: &str)
    ensures
        final(out)@ == old(out)@ + spec_html_escape(s@),
{
    let cs = str_to_chars(s);
    let ghost start = out@;
    let mut i: usize = 0;
    while i < cs.len()
        invariant
            i <= cs@.len(),
            cs@ == s@,
            out@ == start + spec_html_escape(cs@.take(i as int)),
        decreases cs@.len() - i,
    {
        let ch = cs[i];
        if ch == '&' {
            push_str(out, "&amp;");
        } else if ch == '<' {
            push_str(out, "&lt;");
        } else if ch == '>' {
            push_str(out, "&gt;");
        } else {
            push_char(out, ch);
        }
        i = i + 1;
        assert(cs@.take(i as int).drop_last() =~= cs@.take(i - 1));
        assert(cs@.take(i as int).last() == ch);
        assert(out@ =~= start + spec_html_escape(cs@.take(i as int)));
    }
    assert(cs@.take(cs@.len() as int) =~= cs@);
}

/// The HTML escape of `s`.
pub fn html_escape(s: &str) -> (r: String)
    ensures
        r@ == spec_html_escape(s@),
{
    let mut out = new_string();
    push_html_escaped(&mut out, s);
    assert(out@ =~= spec_html_escape(s@));
    out
}

} // verus!
