//! Small verified string and number helpers shared by the formatting code.

use vstd::prelude::*;
use vstd::string::{StringExecFns, StringSliceAdditionalSpecFns};
use vstd::utf8::{
    decode_utf8, encode_utf8_decode_utf8, encode_utf8_valid_utf8, is_char_boundary,
    is_char_boundary_iff_not_is_continuation_byte, is_char_boundary_start_end_of_seq,
    valid_utf8_split,
};

verus! {

/// Appends one character to `s` (`String::push`).
#[verifier::external_body]
pub(crate) fn push_char(s: &mut String, c: char)
    ensures
        final(s)@ == old(s)@.push(c),
{
    s.push(c);
}

/// Appends a string slice to `s`.
pub(crate) fn push_str(s: &mut String, t: &str)
    ensures
        final(s)@ == old(s)@ + t@,
{
    s.append(t);
}

/// A fresh empty string (`String::new`).
pub(crate) fn new_string() -> (s: String)
    ensures
        s@ == Seq::<char>::empty(),
{
    String::new()
}

/// An owned copy of a string slice.
pub(crate) fn to_owned_string(t: &str) -> (s: String)
    ensures
        s@ == t@,
{
    t.to_owned()
}

/// The text that the bytes encode (`std::str::from_utf8`): present exactly when the
/// bytes are valid UTF-8.
#[verifier::external_body]
pub(crate) fn utf8_str(bytes: &[u8]) -> (r: Option<&str>)
    ensures
        r is Some <==> vstd::utf8::valid_utf8(bytes@),
        r matches Some(s) ==> s@ == vstd::utf8::decode_utf8(bytes@),
{
    std::str::from_utf8(bytes).ok()
}

/// An owned string holding the text that the bytes encode, when they are valid UTF-8.
pub(crate) fn utf8_to_string(bytes: &[u8]) -> (r: Option<String>)
    ensures
        r is Some <==> vstd::utf8::valid_utf8(bytes@),
        r matches Some(s) ==> s@ == vstd::utf8::decode_utf8(bytes@),
{
    match utf8_str(bytes) {
        Some(s) => Some(s.to_owned()),
        None => None,
    }
}

/// The character with scalar value `cp` (`char::from_u32`), if `cp` is a Unicode scalar value.
#[verifier::external_body]
pub(crate) fn char_from_u32(cp: u32) -> (r: Option<char>)
    ensures
        r is Some <==> is_scalar(cp as int),
        r matches Some(c) ==> c as u32 == cp && c == (cp as char),
{
    char::from_u32(cp)
}

/// Unicode scalar values: code points outside the surrogate range.
pub open spec fn is_scalar(cp: int) -> bool {
    (0 <= cp < 0xD800) || (0xE000 <= cp <= 0x10FFFF)
}

/// The characters of `s`, in order.
pub fn str_to_chars(s: &str) -> (out: Vec<char>)
    ensures
        out@ == s@,
{
    let mut out: Vec<char> = Vec::new();
    for c in it: s.chars()
        invariant
            out@ == it.seq().take(it.index() as int),
    {
        out.push(c);
    }
    out
}

/// A string holding exactly the given characters.
pub fn chars_to_string(cs: &[char]) -> (s: String)
    ensures
        s@ == cs@,
{
    let mut s = new_string();
    let mut i: usize = 0;
    while i < cs.len()
        invariant
            i <= cs@.len(),
            s@ == cs@.take(i as int),
        decreases cs@.len() - i,
    {
        push_char(&mut s, cs[i]);
        i = i + 1;
        assert(cs@.take(i as int) == cs@.take((i - 1) as int).push(cs@[i - 1]));
    }
    assert(cs@.take(cs@.len() as int) == cs@);
    s
}

/// The ASCII digit for `d < 10`.
pub open spec fn digit_char(d: nat) -> char {
    ((d + 48) as u8) as char
}

/// Decimal representation of a natural number, most significant digit first.
pub open spec fn spec_decimal(n: nat) -> Seq<char>
    decreases n,
{
    if n < 10 {
        seq![digit_char(n)]
    } else {
        spec_decimal(n / 10).push(digit_char(n % 10))
    }
}

/// Decimal representation of a signed integer.
pub open spec fn spec_decimal_int(x: int) -> Seq<char> {
    if x < 0 {
        seq!['-'] + spec_decimal((-x) as nat)
    } else {
        spec_decimal(x as nat)
    }
}

/// Decimal representation padded with zeros to at least two digits (`{:02}`).
pub open spec fn spec_decimal_pad2(n: nat) -> Seq<char> {
    if n < 10 {
        seq!['0', digit_char(n)]
    } else {
        spec_decimal(n)
    }
}

/// Appends the decimal representation of `n`.
pub(crate) fn push_decimal(out: &mut String, n: u64)
    ensures
        final(out)@ == old(out)@ + spec_decimal(n as nat),
    decreases n,
{
    if n >= 10 {
        push_decimal(out, n / 10);
    }
    let d: u8 = (n % 10) as u8;
    push_char(out, (d + 48) as char);
    proof {
        if n >= 10 {
            assert(old(out)@ + spec_decimal(n as nat) == old(out)@ + spec_decimal((n / 10) as nat)
                + seq![digit_char((n % 10) as nat)]);
        } else {
            assert(old(out)@ + spec_decimal(n as nat) == old(out)@.push(digit_char(n as nat)));
        }
    }
}

/// Appends the decimal representation of a signed integer.
pub(crate) fn push_decimal_i64(out: &mut String, x: i64)
    ensures
        final(out)@ == old(out)@ + spec_decimal_int(x as int),
{
    if x < 0 {
        push_char(out, '-');
        let mag: u64 = ((-(x + 1)) as u64) + 1;
        push_decimal(out, mag);
        assert(old(out)@.push('-') + spec_decimal(mag as nat) == old(out)@ + (seq!['-']
            + spec_decimal(mag as nat)));
    } else {
        push_decimal(out, x as u64);
    }
}

/// Appends `n` padded with zeros to at least two digits.
pub(crate) fn push_decimal_pad2(out: &mut String, n: u64)
    ensures
        final(out)@ == old(out)@ + spec_decimal_pad2(n as nat),
{
    if n < 10 {
        push_char(out, '0');
        push_decimal(out, n);
        assert(spec_decimal(n as nat) == seq![digit_char(n as nat)]);
        assert(old(out)@.push('0') + seq![digit_char(n as nat)] == old(out)@ + seq![
            '0',
            digit_char(n as nat),
        ]);
    } else {
        push_decimal(out, n);
    }
}

/// Whether `needle` occurs in `hay` at position `i`.
pub open spec fn occurs_at(hay: Seq<char>, needle: Seq<char>, i: int) -> bool {
    0 <= i && i + needle.len() <= hay.len() && hay.subrange(i, i + needle.len()) == needle
}

/// Whether `needle` occurs anywhere in `hay`.
pub open spec fn spec_contains(hay: Seq<char>, needle: Seq<char>) -> bool {
    exists|i: int| occurs_at(hay, needle, i)
}

/// Whether `needle` is a substring of `hay`.
pub fn chars_contain(hay: &[char], needle: &[char]) -> (r: bool)
    ensures
        r == spec_contains(hay@, needle@),
{
    if needle.len() > hay.len() {
        assert forall|i: int| !occurs_at(hay@, needle@, i) by {}
        return false;
    }
    if needle.len() == 0 {
        assert(hay@.subrange(0, 0) =~= needle@);
        assert(occurs_at(hay@, needle@, 0));
        return true;
    }
    let hl: usize = hay.len();
    let last: usize = hl - needle.len();
    let mut i: usize = 0;
    while i <= last
        invariant
            last == hay@.len() - needle@.len(),
            needle@.len() >= 1,
            needle@.len() <= hay@.len(),
            hl == hay@.len(),
            i <= last + 1,
            forall|k: int| 0 <= k < i ==> !occurs_at(hay@, needle@, k),
        decreases last + 1 - i,
    {
        let mut j: usize = 0;
        let mut ok = true;
        while j < needle.len()
            invariant
                i <= last,
                last == hay@.len() - needle@.len(),
                needle@.len() <= hay@.len(),
                hl == hay@.len(),
                j <= needle@.len(),
                ok == (forall|t: int| 0 <= t < j ==> hay@[i + t] == needle@[t]),
            decreases needle@.len() - j,
        {
            if hay[i + j] != needle[j] {
                ok = false;
            }
            j = j + 1;
        }
        if ok {
            assert(hay@.subrange(i as int, i + needle@.len()) =~= needle@);
            assert(occurs_at(hay@, needle@, i as int));
            return true;
        }
        assert(!occurs_at(hay@, needle@, i as int)) by {
            let t = choose|t: int| 0 <= t < needle@.len() && hay@[i + t] != needle@[t];
            if hay@.subrange(i as int, i + needle@.len()) == needle@ {
                assert(hay@.subrange(i as int, i + needle@.len())[t] == hay@[i + t]);
            }
        }
        i = i + 1;
    }
    assert forall|k: int| !occurs_at(hay@, needle@, k) by {
        if 0 <= k && k < i {
        }
    }
    false
}

/// Whether `needle` occurs in `hay` at byte position `i`.
pub open spec fn bytes_occur_at(hay: Seq<u8>, needle: Seq<u8>, i: int) -> bool {
    0 <= i && i + needle.len() <= hay.len() && hay.subrange(i, i + needle.len()) == needle
}

/// Whether `needle` is a contiguous part of `hay`.
pub fn bytes_contain(hay: &[u8], needle: &[u8]) -> (r: bool)
    ensures
        r == exists|i: int| bytes_occur_at(hay@, needle@, i),
{
    if needle.len() > hay.len() {
        assert forall|i: int| !bytes_occur_at(hay@, needle@, i) by {}
        return false;
    }
    let hl: usize = hay.len();
    let last: usize = hl - needle.len();
    let mut i: usize = 0;
    while i <= last
        invariant
            last == hay@.len() - needle@.len(),
            needle@.len() <= hay@.len(),
            hl == hay@.len(),
            i <= last + 1,
            forall|k: int| 0 <= k < i ==> !bytes_occur_at(hay@, needle@, k),
        decreases last + 1 - i,
    {
        let mut j: usize = 0;
        let mut ok = true;
        while j < needle.len()
            invariant
                i <= last,
                last == hay@.len() - needle@.len(),
                needle@.len() <= hay@.len(),
                hl == hay@.len(),
                j <= needle@.len(),
                ok == (forall|t: int| 0 <= t < j ==> hay@[i + t] == needle@[t]),
            decreases needle@.len() - j,
        {
            if hay[i + j] != needle[j] {
                ok = false;
            }
            j = j + 1;
        }
        if ok {
            assert(hay@.subrange(i as int, i + needle@.len()) =~= needle@);
            assert(bytes_occur_at(hay@, needle@, i as int));
            return true;
        }
        assert(!bytes_occur_at(hay@, needle@, i as int)) by {
            let t = choose|t: int| 0 <= t < needle@.len() && hay@[i + t] != needle@[t];
            if hay@.subrange(i as int, i + needle@.len()) == needle@ {
                assert(hay@.subrange(i as int, i + needle@.len())[t] == hay@[i + t]);
            }
        }
        i = i + 1;
    }
    assert forall|k: int| !bytes_occur_at(hay@, needle@, k) by {
        if 0 <= k && k < i {
        }
    }
    false
}

/// Whether `prefix` starts `s`.
pub fn chars_start_with(s: &[char], prefix: &[char]) -> (r: bool)
    ensures
        r == (prefix@.len() <= s@.len() && s@.take(prefix@.len() as int) == prefix@),
{
    if prefix.len() > s.len() {
        return false;
    }
    let mut j: usize = 0;
    while j < prefix.len()
        invariant
            prefix@.len() <= s@.len(),
            j <= prefix@.len(),
            forall|t: int| 0 <= t < j ==> s@[t] == prefix@[t],
        decreases prefix@.len() - j,
    {
        if s[j] != prefix[j] {
            assert(s@.take(prefix@.len() as int)[j as int] != prefix@[j as int]);
            return false;
        }
        j = j + 1;
    }
    assert(s@.take(prefix@.len() as int) =~= prefix@);
    true
}


/// The characters whose UTF-8 encoding is `b[i..j]`.
pub open spec fn str_slice(b: Seq<u8>, i: int, j: int) -> Seq<char> {
    decode_utf8(b.subrange(i, j))
}

/// The part of `s` between byte offsets `i` and `j` (`&s[i..j]`), both on character boundaries.
pub fn str_byte_range(s: &str, i: usize, j: usize) -> (r: &str)
    requires
        i <= j <= s.spec_bytes().len(),
        is_char_boundary(s.spec_bytes(), i as int),
        is_char_boundary(s.spec_bytes(), j as int),
    ensures
        r@ == str_slice(s.spec_bytes(), i as int, j as int),
        vstd::utf8::valid_utf8(s.spec_bytes().subrange(i as int, j as int)),
{
    let ghost b = s.spec_bytes();
    proof {
        encode_utf8_valid_utf8(s@);
    }
    let (_, rest) = s.split_at(i);
    proof {
        valid_utf8_split(b, i as int);
        let rb = rest.spec_bytes();
        assert(rb =~= b.subrange(i as int, b.len() as int));
        if j < b.len() {
            is_char_boundary_iff_not_is_continuation_byte(b, j as int);
            if j > i {
                is_char_boundary_iff_not_is_continuation_byte(rb, j - i);
            }
        } else {
            is_char_boundary_start_end_of_seq(rb);
        }
    }
    let (mid, _) = rest.split_at(j - i);
    proof {
        encode_utf8_decode_utf8(mid@);
        encode_utf8_valid_utf8(mid@);
        assert(mid.spec_bytes() =~= b.subrange(i as int, j as int));
    }
    mid
}

/// ASCII decimal digits.
pub open spec fn is_dec_digit(c: char) -> bool {
    48 <= (c as u32) <= 57
}

/// The value of a string of decimal digits, most significant first.
pub open spec fn digits_value(d: Seq<char>) -> int
    decreases d.len(),
{
    if d.len() == 0 {
        0
    } else {
        digits_value(d.drop_last()) * 10 + (d.last() as u32 - 48)
    }
}

/// Every character of `d` is a decimal digit.
pub open spec fn all_dec_digits(d: Seq<char>) -> bool {
    forall|i: int| 0 <= i < d.len() ==> #[trigger] is_dec_digit(d[i])
}

/// What `str::parse::<i64>` gives: an optional `+` or `-`, then at least one decimal
/// digit and nothing else, with the value in the `i64` range.
pub open spec fn spec_parse_i64(s: Seq<char>) -> Option<int> {
    let signed = s.len() > 0 && (s[0] == '-' || s[0] == '+');
    let d = if signed { s.skip(1) } else { s };
    if d.len() == 0 || !all_dec_digits(d) {
        None
    } else {
        let v = if s[0] == '-' { -digits_value(d) } else { digits_value(d) };
        if i64::MIN <= v <= i64::MAX { Some(v) } else { None }
    }
}

/// Parses a signed decimal integer as `str::parse::<i64>` does.
pub fn parse_i64(s: &str) -> (r: Option<i64>)
    ensures
        match spec_parse_i64(s@) {
            Some(v) => r == Some(v as i64),
            None => r is None,
        },
{
    let cs = str_to_chars(s);
    let n = cs.len();
    let mut start: usize = 0;
    if n > 0 && (cs[0] == '-' || cs[0] == '+') {
        start = 1;
    }
    let ghost d = if start == 1 { cs@.skip(1) } else { cs@ };
    if start >= n {
        return None;
    }
    let mut mag: u128 = 0;
    let mut big = false;
    let mut k: usize = start;
    while k < n
        invariant
            cs@ == s@,
            n == cs@.len(),
            start <= k <= n,
            start <= 1,
            d == cs@.skip(start as int),
            d == (if s@.len() > 0 && (s@[0] == '-' || s@[0] == '+') { s@.skip(1) } else { s@ }),
            forall|t: int| 0 <= t < k - start ==> #[trigger] is_dec_digit(d[t]),
            !big ==> mag == digits_value(d.take(k - start)) && mag <= 0x8000_0000_0000_0000,
            big ==> digits_value(d.take(k - start)) > 0x8000_0000_0000_0000,
        decreases n - k,
    {
        let c = cs[k];
        if !(48 <= (c as u32) && (c as u32) <= 57) {
            assert(!is_dec_digit(d[k - start]));
            return None;
        }
        let dig = (c as u32 - 48) as u128;
        let ghost i = k - start;
        assert(d.take(i + 1).drop_last() =~= d.take(i));
        assert(d.take(i + 1).last() == c);
        if !big {
            let next = mag * 10 + dig;
            if next > 0x8000_0000_0000_0000 {
                big = true;
            } else {
                mag = next;
            }
        }
        k = k + 1;
    }
    assert(d.take(n - start) =~= d);
    assert(all_dec_digits(d));
    if big {
        return None;
    }
    if cs[0] == '-' {
        let v: i128 = -(mag as i128);
        Some(v as i64)
    } else if mag <= 0x7FFF_FFFF_FFFF_FFFF {
        Some(mag as i64)
    } else {
        None
    }
}

/// Index of the first `c` in `s` at or after `from`, or -1.
pub open spec fn find_char_from(s: Seq<char>, c: char, from: int) -> int
    decreases s.len() - from,
{
    if from < 0 || from >= s.len() {
        -1
    } else if s[from] == c {
        from
    } else {
        find_char_from(s, c, from + 1)
    }
}

/// A found index lies in range and holds `c`; nothing before it from `from` on does.
pub proof fn lemma_find_char_range(s: Seq<char>, c: char, from: int)
    requires
        0 <= from,
    ensures
        find_char_from(s, c, from) == -1 || (from <= find_char_from(s, c, from) < s.len()
            && s[find_char_from(s, c, from)] == c),
        find_char_from(s, c, from) == -1 ==> forall|k: int| from <= k < s.len() ==> s[k] != c,
        find_char_from(s, c, from) != -1 ==> forall|k: int|
            from <= k < find_char_from(s, c, from) ==> s[k] != c,
    decreases s.len() - from,
{
    if 0 <= from < s.len() && s[from] != c {
        lemma_find_char_range(s, c, from + 1);
    }
}

/// The first index of `c` in `s` at or after `from`.
pub fn find_char_at(s: &[char], c: char, from: usize) -> (r: Option<usize>)
    ensures
        match r {
            Some(i) => i as int == find_char_from(s@, c, from as int),
            None => find_char_from(s@, c, from as int) == -1,
        },
{
    let mut i: usize = from;
    while i < s.len()
        invariant
            from <= i,
            find_char_from(s@, c, from as int) == find_char_from(s@, c, i as int),
        decreases s@.len() - i,
    {
        if s[i] == c {
            return Some(i);
        }
        i = i + 1;
    }
    None
}

/// Whether two character sequences are equal.
pub fn chars_eq(a: &[char], b: &[char]) -> (r: bool)
    ensures
        r == (a@ == b@),
{
    if a.len() != b.len() {
        return false;
    }
    let mut i: usize = 0;
    while i < a.len()
        invariant
            a@.len() == b@.len(),
            i <= a@.len(),
            forall|k: int| 0 <= k < i ==> a@[k] == b@[k],
        decreases a@.len() - i,
    {
        if a[i] != b[i] {
            return false;
        }
        i = i + 1;
    }
    assert(a@ =~= b@);
    true
}

/// Whether two strings are equal.
pub fn str_eq(a: &str, b: &str) -> (r: bool)
    ensures
        r == (a@ == b@),
{
    let ca = str_to_chars(a);
    let cb = str_to_chars(b);
    chars_eq(ca.as_slice(), cb.as_slice())
}

/// White space as `char::is_whitespace` defines it (the Unicode `White_Space` property).
pub open spec fn is_white_space(c: char) -> bool {
    let v = c as u32;
    (0x09 <= v <= 0x0D) || v == 0x20 || v == 0x85 || v == 0xA0 || v == 0x1680 || (0x2000 <= v
        <= 0x200A) || v == 0x2028 || v == 0x2029 || v == 0x202F || v == 0x205F || v == 0x3000
}

/// Number of leading white-space characters of `cs` from `i` on.
pub open spec fn leading_ws(cs: Seq<char>, i: int) -> int
    decreases cs.len() - i,
{
    if i < 0 || i >= cs.len() || !is_white_space(cs[i]) {
        0
    } else {
        1 + leading_ws(cs, i + 1)
    }
}

/// Number of trailing white-space characters of the first `n` characters of `cs`.
pub open spec fn trailing_ws(cs: Seq<char>, n: int) -> int
    decreases n,
{
    if n <= 0 || n > cs.len() || !is_white_space(cs[n - 1]) {
        0
    } else {
        1 + trailing_ws(cs, n - 1)
    }
}

/// `cs` without leading and trailing white space (`str::trim`).
pub open spec fn spec_trim(cs: Seq<char>) -> Seq<char> {
    let a = leading_ws(cs, 0);
    let rest = cs.skip(a);
    rest.take(rest.len() - trailing_ws(rest, rest.len() as int))
}

pub fn is_white_space_exec(c: char) -> (r: bool)
    ensures
        r == is_white_space(c),
{
    let v = c as u32;
    (0x09 <= v && v <= 0x0D) || v == 0x20 || v == 0x85 || v == 0xA0 || v == 0x1680 || (0x2000 <= v
        && v <= 0x200A) || v == 0x2028 || v == 0x2029 || v == 0x202F || v == 0x205F || v == 0x3000
}

pub proof fn lemma_leading_ws_range(cs: Seq<char>, i: int)
    requires
        0 <= i <= cs.len(),
    ensures
        0 <= leading_ws(cs, i) <= cs.len() - i,
    decreases cs.len() - i,
{
    if i < cs.len() && is_white_space(cs[i]) {
        lemma_leading_ws_range(cs, i + 1);
    }
}

pub proof fn lemma_trailing_ws_range(cs: Seq<char>, n: int)
    requires
        0 <= n <= cs.len(),
    ensures
        0 <= trailing_ws(cs, n) <= n,
    decreases n,
{
    if n > 0 && is_white_space(cs[n - 1]) {
        lemma_trailing_ws_range(cs, n - 1);
    }
}

proof fn lemma_leading_ws_stop(cs: Seq<char>, i: int)
    requires
        0 <= i <= cs.len(),
    ensures
        i + leading_ws(cs, i) < cs.len() ==> !is_white_space(cs[i + leading_ws(cs, i)]),
    decreases cs.len() - i,
{
    if i < cs.len() && is_white_space(cs[i]) {
        lemma_leading_ws_stop(cs, i + 1);
    }
}

proof fn lemma_trailing_ws_stop(cs: Seq<char>, n: int)
    requires
        0 <= n <= cs.len(),
    ensures
        n - trailing_ws(cs, n) > 0 ==> !is_white_space(cs[n - trailing_ws(cs, n) - 1]),
    decreases n,
{
    if n > 0 && is_white_space(cs[n - 1]) {
        lemma_trailing_ws_stop(cs, n - 1);
    }
}

/// Trimming a trimmed text changes nothing.
pub proof fn lemma_trim_idempotent(s: Seq<char>)
    ensures
        spec_trim(spec_trim(s)) == spec_trim(s),
{
    let a = leading_ws(s, 0);
    lemma_leading_ws_range(s, 0);
    lemma_leading_ws_stop(s, 0);
    let rest = s.skip(a);
    let n = rest.len() as int;
    lemma_trailing_ws_range(rest, n);
    lemma_trailing_ws_stop(rest, n);
    let m = n - trailing_ws(rest, n);
    let t = spec_trim(s);
    assert(t == rest.take(m));
    if t.len() == 0 {
        assert(spec_trim(t) =~= t);
    } else {
        assert(t[0] == s[a]);
        assert(!is_white_space(t[0]));
        assert(leading_ws(t, 0) == 0);
        assert(t.skip(0) =~= t);
        assert(t[t.len() - 1] == rest[m - 1]);
        assert(trailing_ws(t, t.len() as int) == 0);
        assert(spec_trim(t) =~= t);
    }
}

pub fn trim_chars(cs: &[char]) -> (r: Vec<char>)
    ensures
        r@ == spec_trim(cs@),
{
    let mut a: usize = 0;
    while a < cs.len() && is_white_space_exec(cs[a])
        invariant
            a <= cs@.len(),
            leading_ws(cs@, 0) == a + leading_ws(cs@, a as int),
        decreases cs@.len() - a,
    {
        a = a + 1;
    }
    let rest = vstd::slice::slice_subrange(cs, a, cs.len());
    let mut n: usize = rest.len();
    proof {
        lemma_trailing_ws_range(rest@, rest@.len() as int);
    }
    while n > 0 && is_white_space_exec(rest[n - 1])
        invariant
            n <= rest@.len(),
            trailing_ws(rest@, rest@.len() as int) == (rest@.len() - n) + trailing_ws(rest@, n as int),
        decreases n,
    {
        n = n - 1;
    }
    assert(rest@ =~= cs@.skip(a as int));
    let out = vstd::slice::slice_to_vec(vstd::slice::slice_subrange(rest, 0, n));
    assert(out@ =~= rest@.take(n as int));
    out
}

/// `s` without leading and trailing white space, as an owned string.
pub fn trim_str(s: &str) -> (r: String)
    ensures
        r@ == spec_trim(s@),
{
    let cs = str_to_chars(s);
    let t = trim_chars(cs.as_slice());
    chars_to_string(t.as_slice())
}

/// What `str::parse` gives for an unsigned integer type: an optional `+`, then at least
/// one decimal digit and nothing else; the value before any range check.
pub open spec fn spec_parse_unsigned(s: Seq<char>) -> Option<int> {
    let d = if s.len() > 0 && s[0] == '+' { s.skip(1) } else { s };
    if d.len() == 0 || !all_dec_digits(d) {
        None
    } else {
        Some(digits_value(d))
    }
}

pub fn parse_unsigned_max(s: &str, max: u64) -> (r: Option<u64>)
    ensures
        spec_parse_unsigned(s@) matches Some(v) ==> v >= 0,
        match spec_parse_unsigned(s@) {
            Some(v) => if v <= max { r == Some(v as u64) } else { r is None },
            None => r is None,
        },
{
    let cs = str_to_chars(s);
    let start: usize = if cs.len() > 0 && cs[0] == '+' { 1 } else { 0 };
    let ghost d = cs@.skip(start as int);
    if start >= cs.len() {
        return None;
    }
    let mut acc: u128 = 0;
    let mut big = false;
    let mut k: usize = start;
    assert(d.take(0) =~= Seq::<char>::empty());
    while k < cs.len()
        invariant
            cs@ == s@,
            start <= k <= cs@.len(),
            start <= 1,
            d == cs@.skip(start as int),
            d == (if s@.len() > 0 && s@[0] == '+' { s@.skip(1) } else { s@ }),
            forall|t: int| 0 <= t < k - start ==> #[trigger] is_dec_digit(d[t]),
            !big ==> acc == digits_value(d.take(k - start)) && acc <= u64::MAX,
            big ==> digits_value(d.take(k - start)) > u64::MAX,
        decreases cs@.len() - k,
    {
        let c = cs[k];
        if !(48 <= (c as u32) && (c as u32) <= 57) {
            assert(!is_dec_digit(d[k - start]));
            return None;
        }
        let dig = (c as u32 - 48) as u128;
        let ghost i = k - start;
        assert(d.take(i + 1).drop_last() =~= d.take(i));
        assert(d.take(i + 1).last() == c);
        if !big {
            let next = acc * 10 + dig;
            if next > u64::MAX as u128 {
                big = true;
            } else {
                acc = next;
            }
        }
        k = k + 1;
    }
    assert(d.take(cs@.len() - start) =~= d);
    assert(all_dec_digits(d));
    if big || acc > max as u128 {
        return None;
    }
    Some(acc as u64)
}

/// Whether `p` starts `s` (`str::starts_with`).
pub open spec fn starts_with(s: Seq<char>, p: Seq<char>) -> bool {
    p.len() <= s.len() && s.take(p.len() as int) == p
}

/// Whether `s` starts with `p`.
pub fn str_starts_with(s: &str, p: &str) -> (r: bool)
    ensures
        r == starts_with(s@, p@),
{
    let cs = str_to_chars(s);
    let cp = str_to_chars(p);
    chars_start_with(cs.as_slice(), cp.as_slice())
}

/// Whether `p` occurs in `s` (`str::contains`).
pub fn str_contains(s: &str, p: &str) -> (r: bool)
    ensures
        r == spec_contains(s@, p@),
{
    let cs = str_to_chars(s);
    let cp = str_to_chars(p);
    chars_contain(cs.as_slice(), cp.as_slice())
}

/// The characters `cs[i..j]` as an owned string.
pub fn chars_range_string(cs: &[char], i: usize, j: usize) -> (r: String)
    requires
        i <= j <= cs@.len(),
    ensures
        r@ == cs@.subrange(i as int, j as int),
{
    chars_to_string(vstd::slice::slice_subrange(cs, i, j))
}

/// The views of a list of strings.
pub open spec fn string_views(v: Seq<String>) -> Seq<Seq<char>> {
    v.map_values(|s: String| s@)
}

} // verus!
