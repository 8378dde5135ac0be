//! Quectel `AT+QHTTP*` HTTPS POST for Telegram Bot API (modem-side TLS + TCP):
//! the command texts and the reply handling.
//!
//! Requires an active PDP context (`AT+QIACT`) on context id 1.

use crate::modem::{AtResponse, ModemError, ModemPort};
use crate::strutil::{
    chars_range_string, find_char_at, find_char_from, lemma_find_char_range, new_string,
    push_char, push_decimal, push_str, spec_decimal, spec_trim, str_to_chars, to_owned_string,
    trim_chars, chars_to_string,
};
use vstd::prelude::*;

verus! {

/// Base URL that request paths are appended to.
pub const TELEGRAM_HOST_PATH: &'static str = "https://api.telegram.org";

/// Server-side timeout, in seconds, given to the HTTP commands.
pub const QHTTP_TIMEOUT_SECS: u16 = 30;

/// The escape of one character inside a quoted AT string argument.
pub open spec fn at_quote_escape_char(c: char) -> Seq<char> {
    if c == '\\' {
        "\\\\"@
    } else if c == '"' {
        "\\\""@
    } else {
        seq![c]
    }
}

/// A text escaped for a quoted AT string argument: `\` and `"` get a backslash.
pub open spec fn spec_at_quote_escape(s: Seq<char>) -> Seq<char>
    decreases s.len(),
{
    if s.len() == 0 {
        Seq::empty()
    } else {
        spec_at_quote_escape(s.drop_last()) + at_quote_escape_char(s.last())
    }
}

/// Appends `s` escaped for a quoted AT string argument.
pub fn push_at_quote_escaped(out: &mut String, s: &str)
    ensures
        final(out)@ == old(out)@ + spec_at_quote_escape(s@),
{
    let cs = str_to_chars(s);
    let ghost start = out@;
    let mut i: usize = 0;
    while i < cs.len()
        invariant
            i <= cs@.len(),
            cs@ == s@,
            out@ == start + spec_at_quote_escape(cs@.take(i as int)),
        decreases cs@.len() - i,
    {
        let ch = cs[i];
        if ch == '\\' {
            push_str(out, "\\\\");
        } else if ch == '"' {
            push_str(out, "\\\"");
        } else {
            push_char(out, ch);
        }
        i = i + 1;
        assert(cs@.take(i as int).drop_last() =~= cs@.take(i - 1));
        assert(cs@.take(i as int).last() == ch);
        assert(out@ =~= start + spec_at_quote_escape(cs@.take(i as int)));
    }
    assert(cs@.take(cs@.len() as int) =~= cs@);
}

fn escape_at_quotes(s: &str) -> (r: String)
    ensures
        r@ == spec_at_quote_escape(s@),
{
    let mut out = new_string();
    push_at_quote_escaped(&mut out, s);
    assert(out@ =~= spec_at_quote_escape(s@));
    out
}

/// `s` escaped for a quoted AT string argument.
pub fn escape_at_quotes_for_test(s: &str) -> (r: String)
    ensures
        r@ == spec_at_quote_escape(s@),
{
    escape_at_quotes(s)
}

/// `+QICSGP=1,1,"<apn>","<user>","<pass>",1` with each value escaped.
pub open spec fn spec_qicsgp_command(apn: Seq<char>, user: Seq<char>, pass: Seq<char>) -> Seq<char> {
    "+QICSGP=1,1,\""@ + spec_at_quote_escape(apn) + "\",\""@ + spec_at_quote_escape(user) + "\",\""@
        + spec_at_quote_escape(pass) + "\",1"@
}

/// The command that configures PDP context 1 with the given APN credentials.
pub fn qicsgp_command(apn: &str, apn_user: &str, apn_pass: &str) -> (r: String)
    ensures
        r@ == spec_qicsgp_command(apn@, apn_user@, apn_pass@),
{
    let mut out = new_string();
    push_str(&mut out, "+QICSGP=1,1,\"");
    push_at_quote_escaped(&mut out, apn);
    push_str(&mut out, "\",\"");
    push_at_quote_escaped(&mut out, apn_user);
    push_str(&mut out, "\",\"");
    push_at_quote_escaped(&mut out, apn_pass);
    push_str(&mut out, "\",1");
    out
}

/// An AT error whose text is `prefix` followed by the reply body.
fn at_error_with_body(prefix: &str, r: &AtResponse) -> (e: ModemError)
    ensures
        e matches ModemError::AtError(m) && m@ == prefix@ + r.body@,
{
    let mut m = new_string();
    push_str(&mut m, prefix);
    push_str(&mut m, r.body.as_str());
    ModemError::AtError(m)
}

/// The commands that attach PDP context 1, in order.
pub open spec fn pdp_commands(apn: Seq<char>, user: Seq<char>, pass: Seq<char>) -> Seq<Seq<char>> {
    seq!["+CGATT=1"@, "+QIDEACT=1"@, spec_qicsgp_command(apn, user, pass), "+QIACT=1"@]
}

/// Whether an AT reply, as `at_reply_view` sees it, is a final `OK`.
pub open spec fn reply_ok(x: Option<(bool, Seq<char>)>) -> bool {
    x matches Some((ok, _)) && ok
}

/// How attaching ends, given the replies `rs` to the commands it sent (from index `n`
/// on): the number of replies it waits for, and whether it succeeds. An error to
/// `AT+CGATT=1` stops it; the configuration and the activation must both answer `OK`.
pub open spec fn pdp_outcome(rs: Seq<Option<(bool, Seq<char>)>>, n: int) -> (int, bool) {
    if rs[n] is None {
        (1, false)
    } else if !reply_ok(rs[n + 2]) {
        (3, false)
    } else {
        (4, reply_ok(rs[n + 3]))
    }
}

/// Attach PDP context 1 (IPv4) using Quectel `AT+QICSGP` / `AT+QIACT`.
///
/// A failed `AT+CGATT=1` reply is tolerated and `AT+QIDEACT=1` is best-effort; an
/// error reply to the configuration or activation command becomes an AT error naming
/// it, and an error of `send_at` itself on either of them or on `AT+CGATT=1` is handed
/// back as it is. The commands go out in order and stop at the first one that fails; what the
/// modem answers is outside this crate, so success is not promised.
pub fn attach_pdp<M: ModemPort + ?Sized>(modem: &mut M, apn: &str, apn_user: &str, apn_pass: &str) -> (r: Result<
    (),
    ModemError,
>)
    ensures
        final(modem).obeys_model() == old(modem).obeys_model(),
        old(modem).obeys_model() ==> exists|k: int|
            1 <= k <= 4 && final(modem).commands() == old(modem).commands() + #[trigger] pdp_commands(
                apn@,
                apn_user@,
                apn_pass@,
            ).take(k),
        old(modem).obeys_model() && r is Ok ==> final(modem).commands() == old(modem).commands() + pdp_commands(apn@, apn_user@, apn_pass@),
        old(modem).obeys_model() ==> {
            let n = old(modem).replies().len() as int;
            let rs = final(modem).replies();
            let (k, ok) = pdp_outcome(rs, n);
            &&& rs.len() == n + k
            &&& rs.take(n) == old(modem).replies()
            &&& final(modem).commands() == old(modem).commands() + pdp_commands(apn@, apn_user@, apn_pass@).take(k)
            &&& (r is Ok <==> ok)
            &&& (k == 3 ==> (rs[n + 2] matches Some((_, b)) ==> r matches Err(ModemError::AtError(m)) && m@ == "QICSGP: "@ + b))
            &&& (k == 4 ==> (rs[n + 3] matches Some((false, b)) ==> r matches Err(ModemError::AtError(m)) && m@ == "QIACT: "@ + b))
            &&& (rs[n + k - 1] is None ==> r == Err::<(), ModemError>(final(modem).failures().last()))
        },
{
    let ghost rs0 = modem.replies();
    let ghost c0 = modem.commands();
    let ghost full = pdp_commands(apn@, apn_user@, apn_pass@);
    proof {
        reveal_strlit("+CGATT=1");
        reveal_strlit("+QIDEACT=1");
        reveal_strlit("+QIACT=1");
    }
    let r = modem.send_at("+CGATT=1");
    assert(old(modem).obeys_model() ==> modem.commands() =~= c0 + full.take(1));
    match r {
        Ok(_) => {},
        Err(e) => return Err(e),
    }
    let _ = modem.send_at("+QIDEACT=1");
    assert(old(modem).obeys_model() ==> modem.commands() =~= c0 + full.take(2));
    let cmd = qicsgp_command(apn, apn_user, apn_pass);
    let r = modem.send_at(cmd.as_str());
    assert(old(modem).obeys_model() ==> modem.commands() =~= c0 + full.take(3));
    let r = match r {
        Ok(r) => r,
        Err(e) => return Err(e),
    };
    if !r.ok {
        return Err(at_error_with_body("QICSGP: ", &r));
    }
    let r = modem.send_at("+QIACT=1");
    assert(old(modem).obeys_model() ==> modem.commands() =~= c0 + full.take(4));
    assert(full.take(4) =~= full);
    let r = match r {
        Ok(r) => r,
        Err(e) => return Err(e),
    };
    if !r.ok {
        return Err(at_error_with_body("QIACT: ", &r));
    }
    Ok(())
}

/// `+QHTTPURL=<url_len>,30`.
pub fn qhttp_url_command(url_len: usize) -> (r: String)
    ensures
        r@ == "+QHTTPURL="@ + spec_decimal(url_len as nat) + ",30"@,
{
    let mut out = new_string();
    push_str(&mut out, "+QHTTPURL=");
    push_decimal(&mut out, url_len as u64);
    push_str(&mut out, ",30");
    out
}

/// `+QHTTPPOST=<body_len>,30,30`.
pub fn qhttp_post_command(body_len: usize) -> (r: String)
    ensures
        r@ == "+QHTTPPOST="@ + spec_decimal(body_len as nat) + ",30,30"@,
{
    let mut out = new_string();
    push_str(&mut out, "+QHTTPPOST=");
    push_decimal(&mut out, body_len as u64);
    push_str(&mut out, ",30,30");
    out
}

/// `+QHTTPREAD=30`.
pub fn qhttp_read_command() -> (r: String)
    ensures
        r@ == "+QHTTPREAD=30"@,
{
    to_owned_string("+QHTTPREAD=30")
}

/// The full URL for an API path.
pub fn telegram_url(path: &str) -> (r: String)
    ensures
        r@ == TELEGRAM_HOST_PATH@ + path@,
{
    let mut out = new_string();
    push_str(&mut out, TELEGRAM_HOST_PATH);
    push_str(&mut out, path);
    out
}

/// Index of the last `c` in `s`, or -1.
pub open spec fn rfind_char(s: Seq<char>, c: char) -> int
    decreases s.len(),
{
    if s.len() == 0 {
        -1
    } else if s.last() == c {
        s.len() - 1
    } else {
        rfind_char(s.drop_last(), c)
    }
}

proof fn lemma_rfind_range(s: Seq<char>, c: char)
    ensures
        -1 <= rfind_char(s, c) < s.len(),
        rfind_char(s, c) >= 0 ==> s[rfind_char(s, c)] == c,
    decreases s.len(),
{
    if s.len() > 0 && s.last() != c {
        lemma_rfind_range(s.drop_last(), c);
    }
}

fn rfind_char_exec(s: &[char], c: char) -> (r: Option<usize>)
    ensures
        match r {
            Some(i) => i as int == rfind_char(s@, c),
            None => rfind_char(s@, c) == -1,
        },
{
    let mut n: usize = s.len();
    assert(s@.take(n as int) =~= s@);
    while n > 0
        invariant
            n <= s@.len(),
            rfind_char(s@, c) == rfind_char(s@.take(n as int), c),
        decreases n,
    {
        assert(s@.take(n as int).drop_last() =~= s@.take(n - 1));
        if s[n - 1] == c {
            return Some(n - 1);
        }
        n = n - 1;
    }
    None
}

/// The JSON object in an HTTP read reply: from the first `{` to the last `}` of the
/// trimmed text when both exist in that order; otherwise the trimmed text, or an error
/// when it is empty.
pub open spec fn spec_json_object(s: Seq<char>) -> Option<Seq<char>> {
    let t = spec_trim(s);
    let i = find_char_from(t, '{', 0);
    let j = rfind_char(t, '}');
    if i >= 0 && j >= 0 && j >= i {
        Some(t.subrange(i, j + 1))
    } else if t.len() == 0 {
        None
    } else {
        Some(t)
    }
}

/// Extracts the JSON object from the body of an `AT+QHTTPREAD` reply.
pub fn extract_json_object(s: &str) -> (r: Result<String, ModemError>)
    ensures
        match spec_json_object(s@) {
            Some(o) => r matches Ok(v) && v@ == o,
            None => r matches Err(ModemError::AtError(m)) && m@ == "empty HTTP body"@,
        },
{
    let cs = str_to_chars(s);
    let t = trim_chars(cs.as_slice());
    let i = find_char_at(t.as_slice(), '{', 0);
    let j = rfind_char_exec(t.as_slice(), '}');
    proof {
        lemma_find_char_range(t@, '{', 0);
        lemma_rfind_range(t@, '}');
    }
    match (i, j) {
        (Some(i), Some(j)) => {
            let n = t.len();
            assert(j < n);
            if j >= i {
                return Ok(chars_range_string(t.as_slice(), i, j + 1));
            }
        },
        _ => {},
    }
    if t.len() == 0 {
        return Err(ModemError::AtError(to_owned_string("empty HTTP body")));
    }
    Ok(chars_to_string(t.as_slice()))
}

} // verus!
