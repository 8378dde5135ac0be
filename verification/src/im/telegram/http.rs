//! HTTP response framing used by the WiFi Telegram client: where the header ends and
//! what it says.

use crate::strutil::{
    is_white_space, is_white_space_exec, leading_ws, parse_unsigned_max, spec_contains, spec_parse_unsigned,
    spec_trim, str_to_chars, chars_to_string, trim_chars, chars_contain, string_views, to_owned_string,
};
use crate::bridge::poller::{spec_str_lines, str_lines};
use crate::commands::first_ws_from;
use vstd::prelude::*;

verus! {

/// The parts of an HTTP response header the client uses.
pub struct ResponseHeaders {
    pub status: u16,
    pub content_length: Option<usize>,
    pub chunked: bool,
    /// Body bytes read together with the header.
    pub remainder: Vec<u8>,
}

/// Whether `\r\n\r\n` starts at byte `i`.
pub open spec fn blank_line_at(b: Seq<u8>, i: int) -> bool {
    0 <= i && i + 4 <= b.len() && b[i] == 13 && b[i + 1] == 10 && b[i + 2] == 13 && b[i + 3] == 10
}

/// Offset of the first `\r\n\r\n` (the end of the header).
pub fn find_header_end(buf: &[u8]) -> (r: Option<usize>)
    ensures
        match r {
            Some(i) => blank_line_at(buf@, i as int) && forall|k: int| 0 <= k < i ==> !blank_line_at(buf@, k),
            None => forall|k: int| !blank_line_at(buf@, k),
        },
{
    let n = buf.len();
    if n < 4 {
        return None;
    }
    let mut i: usize = 0;
    while i <= n - 4
        invariant
            n >= 4,
            n == buf@.len(),
            forall|k: int| 0 <= k < i ==> !blank_line_at(buf@, k),
        decreases n - i,
    {
        if buf[i] == 13 && buf[i + 1] == 10 && buf[i + 2] == 13 && buf[i + 3] == 10 {
            return Some(i);
        }
        i = i + 1;
    }
    None
}

/// ASCII lower case of one character (`char::to_ascii_lowercase`).
pub open spec fn ascii_lower(c: char) -> char {
    if 'A' <= c <= 'Z' { ((c as u32) + 32) as char } else { c }
}

/// ASCII lower case of a text.
pub open spec fn lower(s: Seq<char>) -> Seq<char> {
    s.map_values(|c: char| ascii_lower(c))
}

/// Whether the first `p.len()` characters of `l` equal the lower-case ASCII `p`, ignoring
/// ASCII case (`line.get(..n).is_some_and(|x| x.eq_ignore_ascii_case(p))`).
pub open spec fn has_field_name(l: Seq<char>, p: Seq<char>) -> bool {
    p.len() <= l.len() && lower(l.take(p.len() as int)) == p
}

/// The status code: the second white-space separated word of the first line.
pub open spec fn spec_status(lines: Seq<Seq<char>>) -> Option<u16> {
    if lines.len() == 0 {
        None
    } else {
        spec_status_line(lines[0])
    }
}

/// Index of the first line that names the given field, or -1.
pub open spec fn first_field_line(lines: Seq<Seq<char>>, p: Seq<char>, from: int) -> int
    decreases lines.len() - from,
{
    if from < 0 || from >= lines.len() {
        -1
    } else if has_field_name(lines[from], p) {
        from
    } else {
        first_field_line(lines, p, from + 1)
    }
}

/// The `Content-Length` value: that of the first such line, when it is a number.
pub open spec fn spec_content_length(lines: Seq<Seq<char>>) -> Option<usize> {
    let k = first_field_line(lines, "content-length:"@, 0);
    if k < 0 {
        None
    } else {
        spec_length_value(lines[k])
    }
}

/// Whether some `Transfer-Encoding` line mentions `chunked` (any case).
pub open spec fn spec_chunked(lines: Seq<Seq<char>>) -> bool {
    exists|i: int| 0 <= i < lines.len() && has_field_name(#[trigger] lines[i], "transfer-encoding:"@) && spec_contains(
        lower(lines[i]),
        "chunked"@,
    )
}

fn lower_chars(s: &Vec<char>) -> (r: Vec<char>)
    ensures
        r@ == lower(s@),
{
    let mut out: Vec<char> = Vec::new();
    let mut i: usize = 0;
    while i < s.len()
        invariant
            i <= s@.len(),
            out@ == lower(s@.take(i as int)),
        decreases s@.len() - i,
    {
        let c = s[i];
        let lc = if 'A' <= c && c <= 'Z' {
            match crate::strutil::char_from_u32((c as u32) + 32) {
                Some(x) => x,
                None => c,
            }
        } else {
            c
        };
        out.push(lc);
        assert(lower(s@.take(i + 1)) =~= lower(s@.take(i as int)).push(ascii_lower(c)));
        i = i + 1;
    }
    assert(s@.take(s@.len() as int) =~= s@);
    out
}

fn field_line(l: &Vec<char>, p: &str) -> (r: bool)
    requires
        p@ == lower(p@),
    ensures
        r == has_field_name(l@, p@),
{
    let pc = str_to_chars(p);
    if pc.len() > l.len() {
        return false;
    }
    let head = vstd::slice::slice_to_vec(vstd::slice::slice_subrange(l.as_slice(), 0, pc.len()));
    let low = lower_chars(&head);
    assert(head@ =~= l@.take(p@.len() as int));
    crate::strutil::chars_eq(low.as_slice(), pc.as_slice())
}

/// The status code in a status line: its second white-space separated word as a `u16`.
pub open spec fn spec_status_line(l: Seq<char>) -> Option<u16> {
    let a = l.skip(leading_ws(l, 0));
    let i = first_ws_from(a, 0);
    if i < 0 {
        None
    } else {
        let b = a.skip(i);
        let c = b.skip(leading_ws(b, 0));
        if c.len() == 0 {
            None
        } else {
            let j = first_ws_from(c, 0);
            let w = if j < 0 { c } else { c.take(j) };
            match spec_parse_unsigned(w) {
                Some(v) => if v <= u16::MAX { Some(v as u16) } else { None },
                None => None,
            }
        }
    }
}

/// Index of the first non-white-space character of `l` at or after `from` (or the length).
fn skip_ws(l: &Vec<char>, from: usize) -> (r: usize)
    requires
        from <= l@.len(),
    ensures
        from <= r <= l@.len(),
        r == from + leading_ws(l@.skip(from as int), 0),
{
    let ghost t = l@.skip(from as int);
    let mut a: usize = from;
    while a < l.len() && is_white_space_exec(l[a])
        invariant
            from <= a <= l@.len(),
            t == l@.skip(from as int),
            leading_ws(t, 0) == (a - from) + leading_ws(t, a - from),
        decreases l@.len() - a,
    {
        assert(t[a - from] == l@[a as int]);
        a = a + 1;
    }
    proof {
        if a < l@.len() {
            assert(t[a - from] == l@[a as int]);
        }
    }
    a
}

/// Index of the first white-space character of `l` at or after `from` (or the length).
fn to_ws(l: &Vec<char>, from: usize) -> (r: usize)
    requires
        from <= l@.len(),
    ensures
        from <= r <= l@.len(),
        r < l@.len() ==> first_ws_from(l@.skip(from as int), 0) == r - from,
        r == l@.len() ==> first_ws_from(l@.skip(from as int), 0) == -1,
{
    let ghost t = l@.skip(from as int);
    let mut e: usize = from;
    while e < l.len() && !is_white_space_exec(l[e])
        invariant
            from <= e <= l@.len(),
            t == l@.skip(from as int),
            first_ws_from(t, 0) == first_ws_from(t, e - from),
        decreases l@.len() - e,
    {
        assert(t[e - from] == l@[e as int]);
        e = e + 1;
    }
    proof {
        if e < l@.len() {
            assert(t[e - from] == l@[e as int]);
        }
    }
    e
}

/// The status code in a status line.
pub fn status_of_line(line: &str) -> (r: Option<u16>)
    ensures
        r == spec_status_line(line@),
{
    let l = str_to_chars(line);
    let a = skip_ws(&l, 0);
    assert(l@.skip(0) =~= l@);
    let e = to_ws(&l, a);
    if e >= l.len() {
        return None;
    }
    let ghost aseq = l@.skip(a as int);
    assert(aseq.skip(e - a) =~= l@.skip(e as int));
    let s = skip_ws(&l, e);
    if s >= l.len() {
        assert(l@.skip(e as int).skip(leading_ws(l@.skip(e as int), 0)).len() == 0);
        return None;
    }
    assert(l@.skip(e as int).skip(s - e) =~= l@.skip(s as int));
    let t = to_ws(&l, s);
    let ghost cseq = l@.skip(s as int);
    proof {
        if t < l@.len() {
            assert(l@.subrange(s as int, t as int) =~= cseq.take(t - s));
        } else {
            assert(l@.subrange(s as int, t as int) =~= cseq);
        }
    }
    let word = chars_to_string(vstd::slice::slice_subrange(l.as_slice(), s, t));
    match parse_unsigned_max(word.as_str(), 65535) {
        Some(v) => Some(v as u16),
        None => None,
    }
}

/// The `Content-Length` value of one header line that names it.
pub open spec fn spec_length_value(l: Seq<char>) -> Option<usize> {
    let c = crate::strutil::find_char_from(l, ':', 0);
    match spec_parse_unsigned(spec_trim(l.skip(c + 1))) {
        Some(v) => if v <= usize::MAX { Some(v as usize) } else { None },
        None => None,
    }
}

fn content_length_of(lines: &Vec<String>) -> (r: Option<usize>)
    ensures
        r == spec_content_length(string_views(lines@)),
{
    proof {
        reveal_strlit("content-length:");
        assert("content-length:"@ =~= lower("content-length:"@));
    }
    let ghost ls = string_views(lines@);
    let mut k: usize = 0;
    while k < lines.len()
        invariant
            k <= lines@.len(),
            ls == string_views(lines@),
            first_field_line(ls, "content-length:"@, 0) == first_field_line(ls, "content-length:"@, k as int),
            "content-length:"@ =~= lower("content-length:"@),
            "content-length:"@.len() == 15,
            "content-length:"@[14] == ':',
        decreases lines@.len() - k,
    {
        assert(ls[k as int] == lines@[k as int]@);
        let lc = str_to_chars(lines[k].as_str());
        if field_line(&lc, "content-length:") {
            assert(first_field_line(ls, "content-length:"@, 0) == k);
            assert(lower(lc@.take(15))[14] == ascii_lower(lc@[14]));
            assert(lc@[14] == ':');
            proof {
                crate::strutil::lemma_find_char_range(lc@, ':', 0);
            }
            let colon = match crate::strutil::find_char_at(lc.as_slice(), ':', 0) {
                Some(c) => c,
                None => {
                    return None;
                },
            };
            let rest = vstd::slice::slice_subrange(lc.as_slice(), colon + 1, lc.len());
            assert(rest@ =~= lc@.skip(colon + 1));
            let v = chars_to_string(trim_chars(rest).as_slice());
            return match parse_unsigned_max(v.as_str(), usize::MAX as u64) {
                Some(n) => Some(n as usize),
                None => None,
            };
        }
        k = k + 1;
    }
    None
}

fn chunked_of(lines: &Vec<String>) -> (r: bool)
    ensures
        r == spec_chunked(string_views(lines@)),
{
    proof {
        reveal_strlit("transfer-encoding:");
        assert("transfer-encoding:"@ =~= lower("transfer-encoding:"@));
    }
    let ghost ls = string_views(lines@);
    let mut chunked = false;
    let mut q: usize = 0;
    let chunk = str_to_chars("chunked");
    while q < lines.len()
        invariant
            q <= lines@.len(),
            ls == string_views(lines@),
            chunk@ == "chunked"@,
            "transfer-encoding:"@ =~= lower("transfer-encoding:"@),
            chunked == exists|i: int| 0 <= i < q && has_field_name(#[trigger] ls[i], "transfer-encoding:"@)
                && spec_contains(lower(ls[i]), "chunked"@),
        decreases lines@.len() - q,
    {
        assert(ls[q as int] == lines@[q as int]@);
        let lc = str_to_chars(lines[q].as_str());
        if field_line(&lc, "transfer-encoding:") {
            let low = lower_chars(&lc);
            if chars_contain(low.as_slice(), chunk.as_slice()) {
                chunked = true;
            }
        }
        q = q + 1;
    }
    chunked
}

/// Parses the status line and the framing fields of an HTTP response header.
pub fn parse_headers(header: &str, remainder: Vec<u8>) -> (r: Result<ResponseHeaders, String>)
    ensures
        match spec_status(spec_str_lines(header@)) {
            None => r matches Err(m) && m@ == "cannot parse HTTP status"@,
            Some(st) => r matches Ok(h) && h.status == st && h.content_length == spec_content_length(spec_str_lines(header@))
                && h.chunked == spec_chunked(spec_str_lines(header@)) && h.remainder@ == remainder@,
        },
{
    let lines = str_lines(header);
    if lines.len() == 0 {
        return Err(to_owned_string("cannot parse HTTP status"));
    }
    assert(string_views(lines@)[0] == lines@[0]@);
    let status = match status_of_line(lines[0].as_str()) {
        Some(s) => s,
        None => return Err(to_owned_string("cannot parse HTTP status")),
    };
    let content_length = content_length_of(&lines);
    let chunked = chunked_of(&lines);
    Ok(ResponseHeaders { status, content_length, chunked, remainder })
}

/// Whether a file download's response can be read: a 2xx status, and a body that is not
/// chunked.
#[derive(PartialEq, Eq, Structural, Debug, Clone, Copy)]
pub enum DownloadCheck {
    Accept,
    BadStatus(u16),
    Chunked,
}

/// Checks a file download's response head.
pub fn download_check(status: u16, chunked: bool) -> (r: DownloadCheck)
    ensures
        !(200 <= status < 300) ==> r == DownloadCheck::BadStatus(status),
        200 <= status < 300 && chunked ==> r == DownloadCheck::Chunked,
        200 <= status < 300 && !chunked ==> r == DownloadCheck::Accept,
{
    if !(200 <= status && status < 300) {
        DownloadCheck::BadStatus(status)
    } else if chunked {
        DownloadCheck::Chunked
    } else {
        DownloadCheck::Accept
    }
}

/// How many of `n` newly read bytes belong to the file: all of them without a
/// `Content-Length`, else no more than it leaves after `received`.
pub fn download_take(content_length: Option<usize>, received: usize, n: usize) -> (r: usize)
    ensures
        content_length is None ==> r == n,
        content_length matches Some(cl) ==> r == (if received >= cl { 0 } else if cl - received <= n { (cl - received) as int } else { n as int }),
{
    match content_length {
        None => n,
        Some(cl) => {
            let left = if received >= cl { 0 } else { cl - received };
            if left <= n { left } else { n }
        },
    }
}

/// Whether a download reads on: the length is unknown, or not yet reached.
pub fn download_wants_more(content_length: Option<usize>, received: usize) -> (r: bool)
    ensures
        r == (content_length matches Some(cl) ==> received < cl),
{
    match content_length {
        None => true,
        Some(cl) => received < cl,
    }
}

/// The largest API response body the client reads (8 KiB).
pub const MAX_BODY_BYTES: usize = 8192;

/// Whether an API response may be read: its announced length is within `MAX_BODY_BYTES`.
pub fn body_length_ok(content_length: usize) -> (r: bool)
    ensures
        r == (content_length <= MAX_BODY_BYTES),
{
    content_length <= MAX_BODY_BYTES
}

/// Whether `n` more bytes read after `received` keep an API response body within
/// `MAX_BODY_BYTES`.
pub fn body_chunk_fits(received: usize, n: usize) -> (r: bool)
    ensures
        r == (received + n <= MAX_BODY_BYTES),
{
    received <= MAX_BODY_BYTES && n <= MAX_BODY_BYTES - received
}

} // verus!
