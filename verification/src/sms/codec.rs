//! SMS PDU encode/decode — pure functions, no hardware dependencies.
//!
//! Supports:
//!   - SMS-DELIVER parsing (AT+CMGR / AT+CMGL PDU mode)
//!   - SMS-SUBMIT encoding (GSM-7 and UCS-2, single-part and multi-part)
//!   - SMS-STATUS-REPORT parsing (+CDS URC)
//!   - CLIP URC parsing
//!   - Phone number formatting / normalisation

use super::SmsError;
use crate::strutil::{
    chars_to_string, char_from_u32, find_char_at, find_char_from, lemma_find_char_range, digit_char, is_scalar, new_string, parse_i64, push_char,
    push_decimal_pad2, push_str, spec_decimal_pad2, spec_parse_i64, str_byte_range, str_slice,
    str_to_chars,
};
use vstd::arithmetic::div_mod::lemma_fundamental_div_mod_converse;
use vstd::prelude::*;
use vstd::string::StringSliceAdditionalSpecFns;
use vstd::utf8::{
    encode_utf8, encode_utf8_valid_utf8, is_char_boundary,
    is_char_boundary_iff_not_is_continuation_byte,
};

verus! {

// ---------------------------------------------------------------------------
// Public types
// ---------------------------------------------------------------------------

/// Parsed SMS-DELIVER PDU.
#[derive(Debug, Clone)]
pub struct SmsPdu {
    pub sender: String,
    /// "yy/MM/dd,HH:mm:ss+zz" — same shape accepted by timestamp helpers.
    pub timestamp: String,
    pub content: String,
    pub is_concatenated: bool,
    pub concat_ref: u16,
    pub concat_total: u8,
    pub concat_part: u8,
    /// TP-DCS octet as received.
    pub dcs: u8,
    /// Application destination port from the UDH port-addressing element, if any.
    pub destination_port: Option<u16>,
    /// User data after the user-data header.
    pub user_data_payload: Vec<u8>,
}

/// Mathematical model of a parsed SMS-DELIVER PDU.
pub struct SpecSmsPdu {
    pub sender: Seq<char>,
    pub timestamp: Seq<char>,
    pub content: Seq<char>,
    pub is_concatenated: bool,
    pub concat_ref: u16,
    pub concat_total: u8,
    pub concat_part: u8,
    pub dcs: u8,
    pub destination_port: Option<u16>,
    pub user_data_payload: Seq<u8>,
}

impl View for SmsPdu {
    type V = SpecSmsPdu;

    open spec fn view(&self) -> SpecSmsPdu {
        SpecSmsPdu {
            sender: self.sender@,
            timestamp: self.timestamp@,
            content: self.content@,
            is_concatenated: self.is_concatenated,
            concat_ref: self.concat_ref,
            concat_total: self.concat_total,
            concat_part: self.concat_part,
            dcs: self.dcs,
            destination_port: self.destination_port,
            user_data_payload: self.user_data_payload@,
        }
    }
}

/// A single SMS-SUBMIT PDU (ready to hand to AT+CMGS).
#[derive(Debug, Clone)]
pub struct SmsSubmitPdu {
    /// Full PDU as uppercase hex (SCA + TPDU).
    pub hex: String,
    /// TPDU byte count passed as the argument to AT+CMGS=<n>.
    pub tpdu_len: u8,
}

/// Parsed SMS-STATUS-REPORT PDU (+CDS URC).
#[derive(Debug, Clone)]
pub struct StatusReport {
    pub message_ref: u8,
    pub recipient: String,
    pub sc_timestamp: String,
    pub discharge_time: String,
    pub status: u8,
    pub delivered: bool,
    pub status_text: String,
}

// ---------------------------------------------------------------------------
// Hex helpers
// ---------------------------------------------------------------------------

/// Value of a hexadecimal digit character.
pub open spec fn hex_val(c: char) -> Option<u8> {
    let n = c as u32;
    if 48 <= n <= 57 {
        Some((n - 48) as u8)
    } else if 65 <= n <= 70 {
        Some((n - 55) as u8)
    } else if 97 <= n <= 102 {
        Some((n - 87) as u8)
    } else {
        None
    }
}

/// Characters skipped when reading hex: space, CR, LF, tab.
pub open spec fn is_hex_space(c: char) -> bool {
    c == ' ' || c == '\r' || c == '\n' || c == '\t'
}

/// `s` without the characters skipped when reading hex.
pub open spec fn strip_hex_space(s: Seq<char>) -> Seq<char>
    decreases s.len(),
{
    if s.len() == 0 {
        s
    } else if is_hex_space(s.last()) {
        strip_hex_space(s.drop_last())
    } else {
        strip_hex_space(s.drop_last()).push(s.last())
    }
}

/// The byte written by two hex digits.
pub open spec fn hex_byte(hi: char, lo: char) -> u8 {
    (hex_val(hi).unwrap() * 16 + hex_val(lo).unwrap()) as u8
}

/// Decoding of hex digit pairs: defined when the length is even and every character is a digit.
pub open spec fn spec_hex_decode(cs: Seq<char>) -> Option<Seq<u8>> {
    if cs.len() % 2 == 0 && (forall|i: int| 0 <= i < cs.len() ==> (#[trigger] hex_val(cs[i])) is Some) {
        Some(Seq::new(cs.len() / 2, |i: int| hex_byte(cs[2 * i], cs[2 * i + 1])))
    } else {
        None
    }
}

/// The bytes spelled by a hex string (whitespace ignored).
pub open spec fn spec_hex_to_bytes(s: Seq<char>) -> Option<Seq<u8>> {
    spec_hex_decode(strip_hex_space(s))
}

fn hex_nibble(c: char) -> (r: Option<u8>)
    ensures
        r == hex_val(c),
{
    let n = c as u32;
    if 48 <= n && n <= 57 {
        Some((n - 48) as u8)
    } else if 65 <= n && n <= 70 {
        Some((n - 55) as u8)
    } else if 97 <= n && n <= 102 {
        Some((n - 87) as u8)
    } else {
        None
    }
}

fn hex_to_bytes(hex: &str) -> (r: Option<Vec<u8>>)
    ensures
        r is Some <==> spec_hex_to_bytes(hex@) is Some,
        r matches Some(v) ==> spec_hex_to_bytes(hex@) == Some(v@),
{
    let cs = str_to_chars(hex);
    let mut clean: Vec<char> = Vec::new();
    let mut k: usize = 0;
    while k < cs.len()
        invariant
            k <= cs@.len(),
            clean@ == strip_hex_space(cs@.take(k as int)),
        decreases cs@.len() - k,
    {
        let c = cs[k];
        if !(c == ' ' || c == '\r' || c == '\n' || c == '\t') {
            clean.push(c);
        }
        k = k + 1;
        assert(cs@.take(k as int).drop_last() == cs@.take((k - 1) as int));
    }
    assert(cs@.take(cs@.len() as int) == cs@);
    let ghost cl = clean@;
    if clean.len() % 2 != 0 {
        assert(spec_hex_decode(cl) is None);
        return None;
    }
    let mut out: Vec<u8> = Vec::new();
    let mut i: usize = 0;
    while i + 1 < clean.len()
        invariant
            clean@ == cl,
            cl == strip_hex_space(hex@),
            cl.len() % 2 == 0,
            i % 2 == 0,
            i <= cl.len(),
            out@.len() == i / 2,
            forall|t: int| 0 <= t < i ==> (#[trigger] hex_val(cl[t])) is Some,
            forall|j: int| 0 <= j < i / 2 ==> #[trigger] out@[j] == hex_byte(cl[2 * j], cl[2 * j + 1]),
        decreases cl.len() - i,
    {
        let hi = hex_nibble(clean[i]);
        let lo = hex_nibble(clean[i + 1]);
        if hi.is_none() || lo.is_none() {
            proof {
                if hex_val(cl[i as int]) is None {
                    assert(!(forall|t: int| 0 <= t < cl.len() ==> (#[trigger] hex_val(cl[t])) is Some));
                } else {
                    assert(hex_val(cl[i + 1]) is None);
                    assert(!(forall|t: int| 0 <= t < cl.len() ==> (#[trigger] hex_val(cl[t])) is Some));
                }
                assert(spec_hex_decode(cl) is None);
            }
            return None;
        }
        let h = hi.unwrap();
        let l = lo.unwrap();
        assert(h < 16 && l < 16);
        out.push(h * 16 + l);
        i = i + 2;
    }
    assert(i == cl.len());
    assert(out@ =~= Seq::new(cl.len() / 2, |j: int| hex_byte(cl[2 * j], cl[2 * j + 1])));
    Some(out)
}

/// The upper-case hex digit for a nibble.
pub open spec fn hex_digit_upper(n: u8) -> char {
    if n < 10 {
        ((n + 48) as u8) as char
    } else {
        ((n + 55) as u8) as char
    }
}

/// Upper-case hex spelling of a byte sequence, two digits per byte.
pub open spec fn spec_bytes_to_hex(d: Seq<u8>) -> Seq<char>
    decreases d.len(),
{
    if d.len() == 0 {
        Seq::empty()
    } else {
        spec_bytes_to_hex(d.drop_last()) + seq![
            hex_digit_upper(d.last() >> 4),
            hex_digit_upper(d.last() & 0x0F),
        ]
    }
}

fn hex_digit(n: u8) -> (c: char)
    requires
        n < 16,
    ensures
        c == hex_digit_upper(n),
{
    if n < 10 {
        (n + 48) as char
    } else {
        (n + 55) as char
    }
}

fn bytes_to_hex(data: &[u8]) -> (out: String)
    ensures
        out@ == spec_bytes_to_hex(data@),
{
    let mut out = new_string();
    let mut i: usize = 0;
    while i < data.len()
        invariant
            i <= data@.len(),
            out@ == spec_bytes_to_hex(data@.take(i as int)),
        decreases data@.len() - i,
    {
        let b = data[i];
        assert(b >> 4 < 16 && b & 0x0F < 16) by (bit_vector);
        push_char(&mut out, hex_digit(b >> 4));
        push_char(&mut out, hex_digit(b & 0x0F));
        i = i + 1;
        assert(data@.take(i as int).drop_last() == data@.take((i - 1) as int));
    }
    assert(data@.take(data@.len() as int) == data@);
    out
}

// ---------------------------------------------------------------------------
// GSM-7 alphabet
// ---------------------------------------------------------------------------

/// GSM-7 default alphabet: septet value to character (3GPP TS 23.038).
pub open spec fn gsm7_basic(s: u8) -> char {
    match s {
        0 => '\u{40}',
        1 => '\u{a3}',
        2 => '\u{24}',
        3 => '\u{a5}',
        4 => '\u{e8}',
        5 => '\u{e9}',
        6 => '\u{f9}',
        7 => '\u{ec}',
        8 => '\u{f2}',
        9 => '\u{c7}',
        10 => '\u{a}',
        11 => '\u{d8}',
        12 => '\u{f8}',
        13 => '\u{d}',
        14 => '\u{c5}',
        15 => '\u{e5}',
        16 => '\u{394}',
        17 => '\u{5f}',
        18 => '\u{3a6}',
        19 => '\u{393}',
        20 => '\u{39b}',
        21 => '\u{3a9}',
        22 => '\u{3a0}',
        23 => '\u{3a8}',
        24 => '\u{3a3}',
        25 => '\u{398}',
        26 => '\u{39e}',
        27 => '\u{1b}',
        28 => '\u{c6}',
        29 => '\u{e6}',
        30 => '\u{df}',
        31 => '\u{c9}',
        32 => '\u{20}',
        33 => '\u{21}',
        34 => '\u{22}',
        35 => '\u{23}',
        36 => '\u{a4}',
        37 => '\u{25}',
        38 => '\u{26}',
        39 => '\u{27}',
        40 => '\u{28}',
        41 => '\u{29}',
        42 => '\u{2a}',
        43 => '\u{2b}',
        44 => '\u{2c}',
        45 => '\u{2d}',
        46 => '\u{2e}',
        47 => '\u{2f}',
        48 => '\u{30}',
        49 => '\u{31}',
        50 => '\u{32}',
        51 => '\u{33}',
        52 => '\u{34}',
        53 => '\u{35}',
        54 => '\u{36}',
        55 => '\u{37}',
        56 => '\u{38}',
        57 => '\u{39}',
        58 => '\u{3a}',
        59 => '\u{3b}',
        60 => '\u{3c}',
        61 => '\u{3d}',
        62 => '\u{3e}',
        63 => '\u{3f}',
        64 => '\u{a1}',
        65 => '\u{41}',
        66 => '\u{42}',
        67 => '\u{43}',
        68 => '\u{44}',
        69 => '\u{45}',
        70 => '\u{46}',
        71 => '\u{47}',
        72 => '\u{48}',
        73 => '\u{49}',
        74 => '\u{4a}',
        75 => '\u{4b}',
        76 => '\u{4c}',
        77 => '\u{4d}',
        78 => '\u{4e}',
        79 => '\u{4f}',
        80 => '\u{50}',
        81 => '\u{51}',
        82 => '\u{52}',
        83 => '\u{53}',
        84 => '\u{54}',
        85 => '\u{55}',
        86 => '\u{56}',
        87 => '\u{57}',
        88 => '\u{58}',
        89 => '\u{59}',
        90 => '\u{5a}',
        91 => '\u{c4}',
        92 => '\u{d6}',
        93 => '\u{d1}',
        94 => '\u{dc}',
        95 => '\u{a7}',
        96 => '\u{bf}',
        97 => '\u{61}',
        98 => '\u{62}',
        99 => '\u{63}',
        100 => '\u{64}',
        101 => '\u{65}',
        102 => '\u{66}',
        103 => '\u{67}',
        104 => '\u{68}',
        105 => '\u{69}',
        106 => '\u{6a}',
        107 => '\u{6b}',
        108 => '\u{6c}',
        109 => '\u{6d}',
        110 => '\u{6e}',
        111 => '\u{6f}',
        112 => '\u{70}',
        113 => '\u{71}',
        114 => '\u{72}',
        115 => '\u{73}',
        116 => '\u{74}',
        117 => '\u{75}',
        118 => '\u{76}',
        119 => '\u{77}',
        120 => '\u{78}',
        121 => '\u{79}',
        122 => '\u{7a}',
        123 => '\u{e4}',
        124 => '\u{f6}',
        125 => '\u{f1}',
        126 => '\u{fc}',
        _ => '\u{e0}',
    }
}

/// GSM-7 extension table (character after ESC); unknown codes read as a space.
pub open spec fn gsm7_ext(c: u8) -> char {
    match c {
        0x0A => '\u{c}',
        0x14 => '^',
        0x28 => '{',
        0x29 => '}',
        0x2F => '\\',
        0x3C => '[',
        0x3D => '~',
        0x3E => ']',
        0x40 => '|',
        0x65 => '\u{20ac}',
        _ => ' ',
    }
}

fn gsm7_basic_char(s: u8) -> (c: char)
    requires
        s < 128,
    ensures
        c == gsm7_basic(s),
{
    match s {
        0 => '\u{40}',
        1 => '\u{a3}',
        2 => '\u{24}',
        3 => '\u{a5}',
        4 => '\u{e8}',
        5 => '\u{e9}',
        6 => '\u{f9}',
        7 => '\u{ec}',
        8 => '\u{f2}',
        9 => '\u{c7}',
        10 => '\u{a}',
        11 => '\u{d8}',
        12 => '\u{f8}',
        13 => '\u{d}',
        14 => '\u{c5}',
        15 => '\u{e5}',
        16 => '\u{394}',
        17 => '\u{5f}',
        18 => '\u{3a6}',
        19 => '\u{393}',
        20 => '\u{39b}',
        21 => '\u{3a9}',
        22 => '\u{3a0}',
        23 => '\u{3a8}',
        24 => '\u{3a3}',
        25 => '\u{398}',
        26 => '\u{39e}',
        27 => '\u{1b}',
        28 => '\u{c6}',
        29 => '\u{e6}',
        30 => '\u{df}',
        31 => '\u{c9}',
        32 => '\u{20}',
        33 => '\u{21}',
        34 => '\u{22}',
        35 => '\u{23}',
        36 => '\u{a4}',
        37 => '\u{25}',
        38 => '\u{26}',
        39 => '\u{27}',
        40 => '\u{28}',
        41 => '\u{29}',
        42 => '\u{2a}',
        43 => '\u{2b}',
        44 => '\u{2c}',
        45 => '\u{2d}',
        46 => '\u{2e}',
        47 => '\u{2f}',
        48 => '\u{30}',
        49 => '\u{31}',
        50 => '\u{32}',
        51 => '\u{33}',
        52 => '\u{34}',
        53 => '\u{35}',
        54 => '\u{36}',
        55 => '\u{37}',
        56 => '\u{38}',
        57 => '\u{39}',
        58 => '\u{3a}',
        59 => '\u{3b}',
        60 => '\u{3c}',
        61 => '\u{3d}',
        62 => '\u{3e}',
        63 => '\u{3f}',
        64 => '\u{a1}',
        65 => '\u{41}',
        66 => '\u{42}',
        67 => '\u{43}',
        68 => '\u{44}',
        69 => '\u{45}',
        70 => '\u{46}',
        71 => '\u{47}',
        72 => '\u{48}',
        73 => '\u{49}',
        74 => '\u{4a}',
        75 => '\u{4b}',
        76 => '\u{4c}',
        77 => '\u{4d}',
        78 => '\u{4e}',
        79 => '\u{4f}',
        80 => '\u{50}',
        81 => '\u{51}',
        82 => '\u{52}',
        83 => '\u{53}',
        84 => '\u{54}',
        85 => '\u{55}',
        86 => '\u{56}',
        87 => '\u{57}',
        88 => '\u{58}',
        89 => '\u{59}',
        90 => '\u{5a}',
        91 => '\u{c4}',
        92 => '\u{d6}',
        93 => '\u{d1}',
        94 => '\u{dc}',
        95 => '\u{a7}',
        96 => '\u{bf}',
        97 => '\u{61}',
        98 => '\u{62}',
        99 => '\u{63}',
        100 => '\u{64}',
        101 => '\u{65}',
        102 => '\u{66}',
        103 => '\u{67}',
        104 => '\u{68}',
        105 => '\u{69}',
        106 => '\u{6a}',
        107 => '\u{6b}',
        108 => '\u{6c}',
        109 => '\u{6d}',
        110 => '\u{6e}',
        111 => '\u{6f}',
        112 => '\u{70}',
        113 => '\u{71}',
        114 => '\u{72}',
        115 => '\u{73}',
        116 => '\u{74}',
        117 => '\u{75}',
        118 => '\u{76}',
        119 => '\u{77}',
        120 => '\u{78}',
        121 => '\u{79}',
        122 => '\u{7a}',
        123 => '\u{e4}',
        124 => '\u{f6}',
        125 => '\u{f1}',
        126 => '\u{fc}',
        _ => '\u{e0}',
    }
}

fn gsm7_extension(c: u8) -> (r: char)
    ensures
        r == gsm7_ext(c),
{
    match c {
        0x0A => '\u{c}',
        0x14 => '^',
        0x28 => '{',
        0x29 => '}',
        0x2F => '\\',
        0x3C => '[',
        0x3D => '~',
        0x3E => ']',
        0x40 => '|',
        0x65 => '\u{20ac}',
        _ => ' ',
    }
}

/// Text of a septet sequence: ESC selects the extension table for the next septet,
/// a trailing ESC is dropped, values of 128 and above are skipped.
pub open spec fn spec_gsm7_decode(s: Seq<u8>) -> Seq<char>
    decreases s.len(),
{
    if s.len() == 0 {
        Seq::empty()
    } else if s[0] == 0x1B {
        if s.len() >= 2 {
            seq![gsm7_ext(s[1])] + spec_gsm7_decode(s.skip(2))
        } else {
            Seq::empty()
        }
    } else if s[0] < 128 {
        seq![gsm7_basic(s[0])] + spec_gsm7_decode(s.skip(1))
    } else {
        spec_gsm7_decode(s.skip(1))
    }
}

fn gsm7_septets_to_utf8(septets: &[u8]) -> (out: String)
    ensures
        out@ == spec_gsm7_decode(septets@),
{
    let mut out = new_string();
    let mut i: usize = 0;
    assert(septets@.skip(0) == septets@);
    while i < septets.len()
        invariant
            i <= septets@.len(),
            spec_gsm7_decode(septets@) == out@ + spec_gsm7_decode(septets@.skip(i as int)),
        decreases septets@.len() - i,
    {
        let s = septets[i];
        let ghost rest = septets@.skip(i as int);
        if s == 0x1B {
            if i + 1 < septets.len() {
                push_char(&mut out, gsm7_extension(septets[i + 1]));
                assert(rest.skip(2) == septets@.skip(i + 2));
                i = i + 2;
            } else {
                assert(spec_gsm7_decode(rest) == Seq::<char>::empty());
                assert(out@ + Seq::<char>::empty() == out@);
                i = i + 1;
                assert(septets@.skip(i as int) == Seq::<u8>::empty());
            }
        } else {
            if s < 128 {
                push_char(&mut out, gsm7_basic_char(s));
            }
            assert(rest.skip(1) == septets@.skip(i + 1));
            i = i + 1;
        }
    }
    assert(septets@.skip(i as int) == Seq::<u8>::empty());
    out
}

/// The 7-bit value stored at bit position `bit` of `data` (LSB-first packing).
pub open spec fn septet_at(data: Seq<u8>, bit: int) -> u8 {
    let byte = bit / 8;
    let next: u16 = if byte + 1 < data.len() { data[byte + 1] as u16 } else { 0 };
    let v: u16 = (data[byte] as u16) | ((next * 256) as u16);
    ((v >> ((bit % 8) as u16)) & 0x7F) as u8
}

/// How many septets, starting from septet `j`, can be read before either `num` septets
/// are read or a septet would start past the end of `data`.
pub open spec fn unpack_len(data: Seq<u8>, num: int, bit_offset: int, j: int) -> int
    decreases num - j,
{
    if j < num && (bit_offset + 7 * j) / 8 < data.len() {
        unpack_len(data, num, bit_offset, j + 1)
    } else {
        j
    }
}

/// The septets read from `data` starting at bit `bit_offset`: at most `num`, stopping at
/// the first septet that would start past the end of `data`.
pub open spec fn spec_unpack(data: Seq<u8>, num: int, bit_offset: int) -> Seq<u8> {
    Seq::new(
        unpack_len(data, num, bit_offset, 0) as nat,
        |j: int| septet_at(data, bit_offset + 7 * j),
    )
}

proof fn lemma_unpack_len_bounds(data: Seq<u8>, num: int, bit_offset: int, j: int)
    requires
        0 <= j,
    ensures
        j <= unpack_len(data, num, bit_offset, j),
        j <= num ==> unpack_len(data, num, bit_offset, j) <= num,
    decreases num - j,
{
    if j < num && (bit_offset + 7 * j) / 8 < data.len() {
        lemma_unpack_len_bounds(data, num, bit_offset, j + 1);
    }
}

fn unpack_septets(data: &[u8], num_septets: usize, bit_offset: usize) -> (out: Vec<u8>)
    requires
        bit_offset + 7 * num_septets < 0x1_0000_0000,
    ensures
        out@ == spec_unpack(data@, num_septets as int, bit_offset as int),
{
    let mut out: Vec<u8> = Vec::new();
    let mut i: usize = 0;
    while i < num_septets
        invariant
            bit_offset + 7 * num_septets < 0x1_0000_0000,
            i <= num_septets,
            out@.len() == i,
            unpack_len(data@, num_septets as int, bit_offset as int, i as int) == unpack_len(
                data@,
                num_septets as int,
                bit_offset as int,
                0,
            ),
            forall|j: int|
                0 <= j < i ==> #[trigger] out@[j] == septet_at(data@, bit_offset + 7 * j),
        ensures
            out@.len() == i,
            unpack_len(data@, num_septets as int, bit_offset as int, 0) == i,
            forall|j: int|
                0 <= j < i ==> #[trigger] out@[j] == septet_at(data@, bit_offset + 7 * j),
        decreases num_septets - i,
    {
        let bit = bit_offset + i * 7;
        let byte = bit / 8;
        let shift = bit % 8;
        if byte >= data.len() {
            break;
        }
        let next: u16 = if byte + 1 < data.len() { data[byte + 1] as u16 } else { 0 };
        assert(next < 256);
        assert(next * 256 < 65536);
        let v: u16 = (data[byte] as u16) | ((next * 256) as u16);
        out.push(((v >> (shift as u16)) & 0x7F) as u8);
        i = i + 1;
    }
    assert(out@ =~= spec_unpack(data@, num_septets as int, bit_offset as int));
    out
}

/// Text of UCS-2 / UTF-16BE bytes: surrogate pairs combine, unpaired or invalid code units
/// are dropped, and a trailing odd byte is ignored.
pub open spec fn spec_ucs2_decode(d: Seq<u8>) -> Seq<char>
    decreases d.len(),
{
    if d.len() < 2 {
        Seq::empty()
    } else {
        let code = d[0] as int * 256 + d[1] as int;
        if 0xD800 <= code <= 0xDBFF && d.len() >= 4 && 0xDC00 <= (d[2] as int * 256 + d[3] as int)
            <= 0xDFFF {
            let low = d[2] as int * 256 + d[3] as int;
            let cp = (code - 0xD800) * 1024 + (low - 0xDC00) + 0x10000;
            seq![cp as char] + spec_ucs2_decode(d.skip(4))
        } else if is_scalar(code) {
            seq![code as char] + spec_ucs2_decode(d.skip(2))
        } else {
            spec_ucs2_decode(d.skip(2))
        }
    }
}

fn ucs2_bytes_to_utf8(data: &[u8]) -> (out: String)
    ensures
        out@ == spec_ucs2_decode(data@),
{
    let mut out = new_string();
    let mut i: usize = 0;
    assert(data@.skip(0) == data@);
    while data.len() - i >= 2
        invariant
            i <= data@.len(),
            spec_ucs2_decode(data@) == out@ + spec_ucs2_decode(data@.skip(i as int)),
        decreases data@.len() - i,
    {
        let ghost rest = data@.skip(i as int);
        assert(rest[0] == data@[i as int] && rest[1] == data@[i + 1]);
        let code: u32 = (data[i] as u32) * 256 + data[i + 1] as u32;
        if 0xD800 <= code && code <= 0xDBFF && data.len() - i >= 4 {
            let low: u32 = (data[i + 2] as u32) * 256 + data[i + 3] as u32;
            if 0xDC00 <= low && low <= 0xDFFF {
                assert(rest[2] == data@[i + 2] && rest[3] == data@[i + 3]);
                let cp: u32 = (code - 0xD800) * 1024 + (low - 0xDC00) + 0x10000;
                match char_from_u32(cp) {
                    Some(c) => push_char(&mut out, c),
                    None => {},
                }
                assert(rest.skip(4) == data@.skip(i + 4));
                i = i + 4;
                continue;
            }
        }
        match char_from_u32(code) {
            Some(c) => push_char(&mut out, c),
            None => {},
        }
        assert(rest.skip(2) == data@.skip(i + 2));
        i = i + 2;
    }
    assert(spec_ucs2_decode(data@.skip(i as int)) == Seq::<char>::empty());
    assert(out@ + Seq::<char>::empty() == out@);
    out
}

/// The `k`-th BCD nibble of `data`: low nibble first within each byte.
pub open spec fn bcd_nibble(data: Seq<u8>, k: int) -> u8 {
    if k % 2 == 0 {
        data[k / 2] & 0x0F
    } else {
        (data[k / 2] >> 4) & 0x0F
    }
}

/// Index of the first nibble at or after `k` that ends the digit string: either the
/// limit or a nibble that is not a decimal digit.
pub open spec fn bcd_len(data: Seq<u8>, limit: int, k: int) -> int
    decreases limit - k,
{
    if k < limit && bcd_nibble(data, k) <= 9 {
        bcd_len(data, limit, k + 1)
    } else {
        k
    }
}

/// The digit string read from the first `byte_len` bytes of `data`: at most `digit_len`
/// digits, stopping at the first nibble that is not a decimal digit.
pub open spec fn spec_bcd_decode(data: Seq<u8>, byte_len: int, digit_len: int) -> Seq<char> {
    let limit = if 2 * byte_len < digit_len { 2 * byte_len } else { digit_len };
    Seq::new(bcd_len(data, limit, 0) as nat, |k: int| digit_char(bcd_nibble(data, k) as nat))
}

fn decode_bcd_address(data: &[u8], byte_len: usize, digit_len: usize) -> (out: String)
    requires
        byte_len <= data@.len(),
    ensures
        out@ == spec_bcd_decode(data@, byte_len as int, digit_len as int),
{
    let ghost limit: int = if 2 * byte_len < digit_len { 2 * byte_len } else { digit_len as int };
    let mut out = new_string();
    let mut k: usize = 0;
    while k / 2 < byte_len && k < digit_len
        invariant
            byte_len <= data@.len(),
            limit == (if 2 * byte_len < digit_len { 2 * byte_len } else { digit_len as int }),
            k <= limit,
            out@.len() == k,
            bcd_len(data@, limit, k as int) == bcd_len(data@, limit, 0),
            forall|t: int|
                0 <= t < k ==> #[trigger] out@[t] == digit_char(bcd_nibble(data@, t) as nat),
        ensures
            out@.len() == k,
            bcd_len(data@, limit, 0) == k,
            forall|t: int|
                0 <= t < k ==> #[trigger] out@[t] == digit_char(bcd_nibble(data@, t) as nat),
        decreases limit - k,
    {
        let b = data[k / 2];
        let nib: u8 = if k % 2 == 0 { b & 0x0F } else { (b >> 4) & 0x0F };
        assert(nib == bcd_nibble(data@, k as int));
        if nib > 9 {
            break;
        }
        push_char(&mut out, (48 + nib) as char);
        k = k + 1;
    }
    assert(out@ =~= spec_bcd_decode(data@, byte_len as int, digit_len as int));
    out
}

/// Semi-octet swapped decimal pair (`0x21` reads as 12).
pub open spec fn swap_nibbles(b: u8) -> nat {
    ((b & 0x0F) as nat) * 10 + (((b >> 4) & 0x0F) as nat)
}

/// Quarter hours of a TP-SCTS time-zone octet (sign bit removed).
pub open spec fn scts_tz_quarters(b: u8) -> nat {
    ((b & 0x0F) as nat) * 10 + ((((b >> 4) & 0x0F) & 0x07) as nat)
}

/// `yy/MM/dd,HH:mm:ss±zz` for a 7-octet service-centre time stamp; empty when shorter.
pub open spec fn spec_scts(d: Seq<u8>) -> Seq<char> {
    if d.len() < 7 {
        Seq::empty()
    } else {
        spec_decimal_pad2(swap_nibbles(d[0])) + seq!['/'] + spec_decimal_pad2(swap_nibbles(d[1]))
            + seq!['/'] + spec_decimal_pad2(swap_nibbles(d[2])) + seq![','] + spec_decimal_pad2(
            swap_nibbles(d[3]),
        ) + seq![':'] + spec_decimal_pad2(swap_nibbles(d[4])) + seq![':'] + spec_decimal_pad2(
            swap_nibbles(d[5]),
        ) + seq![if (((d[6] >> 4) & 0x0F) & 0x08) != 0 { '-' } else { '+' }] + spec_decimal_pad2(
            scts_tz_quarters(d[6]),
        )
    }
}

fn swap_octet(b: u8) -> (r: u8)
    ensures
        r as nat == swap_nibbles(b),
{
    assert(b & 0x0F <= 15 && (b >> 4) & 0x0F <= 15) by (bit_vector);
    (b & 0x0F) * 10 + ((b >> 4) & 0x0F)
}

fn decode_scts(data: &[u8]) -> (out: String)
    ensures
        out@ == spec_scts(data@),
{
    if data.len() < 7 {
        return new_string();
    }
    let tz_raw = data[6];
    let tz_hi = (tz_raw >> 4) & 0x0F;
    let negative = (tz_hi & 0x08) != 0;
    assert(tz_raw & 0x0F <= 15 && ((tz_raw >> 4) & 0x0F) & 0x07 <= 7) by (bit_vector);
    let tz_q: u8 = (tz_raw & 0x0F) * 10 + (tz_hi & 0x07);
    let mut out = new_string();
    push_decimal_pad2(&mut out, swap_octet(data[0]) as u64);
    push_char(&mut out, '/');
    push_decimal_pad2(&mut out, swap_octet(data[1]) as u64);
    push_char(&mut out, '/');
    push_decimal_pad2(&mut out, swap_octet(data[2]) as u64);
    push_char(&mut out, ',');
    push_decimal_pad2(&mut out, swap_octet(data[3]) as u64);
    push_char(&mut out, ':');
    push_decimal_pad2(&mut out, swap_octet(data[4]) as u64);
    push_char(&mut out, ':');
    push_decimal_pad2(&mut out, swap_octet(data[5]) as u64);
    push_char(&mut out, if negative { '-' } else { '+' });
    push_decimal_pad2(&mut out, tz_q as u64);
    assert(out@ =~= spec_scts(data@));
    out
}


// ---------------------------------------------------------------------------
// SMS-DELIVER parser
// ---------------------------------------------------------------------------

/// Why a PDU was rejected.
#[derive(Debug, Clone, Copy)]
pub enum PduFault {
    InvalidHex,
    TruncatedBeforeSca,
    ScaTooLong,
    TruncatedBeforeFirstOctet,
    TruncatedBeforeOa,
    TruncatedBeforeOaToa,
    OaBytesTruncated,
    TruncatedBeforePid,
    TruncatedBeforeDcs,
    TruncatedBeforeScts,
    TruncatedBeforeUdl,
    UdlExceedsRemaining,
    UdhMissingUdhl,
    UdhTooLong,
    UdhSeptetsExceedUdl,
    UdhExceedsUcs2Body,
    UdhExceedsEightBitBody,
}

/// The message carried by `SmsError::MalformedPdu` for each fault.
pub open spec fn pdu_fault_text(f: PduFault) -> Seq<char> {
    match f {
        PduFault::InvalidHex => "invalid hex"@,
        PduFault::TruncatedBeforeSca => "truncated before SCA"@,
        PduFault::ScaTooLong => "SCA too long"@,
        PduFault::TruncatedBeforeFirstOctet => "truncated before first octet"@,
        PduFault::TruncatedBeforeOa => "truncated before OA"@,
        PduFault::TruncatedBeforeOaToa => "truncated before OA TOA"@,
        PduFault::OaBytesTruncated => "OA bytes truncated"@,
        PduFault::TruncatedBeforePid => "truncated before PID"@,
        PduFault::TruncatedBeforeDcs => "truncated before DCS"@,
        PduFault::TruncatedBeforeScts => "truncated before SCTS"@,
        PduFault::TruncatedBeforeUdl => "truncated before UDL"@,
        PduFault::UdlExceedsRemaining => "UDL > remaining"@,
        PduFault::UdhMissingUdhl => "UDH missing UDHL"@,
        PduFault::UdhTooLong => "UDH too long"@,
        PduFault::UdhSeptetsExceedUdl => "UDH header septets > UDL"@,
        PduFault::UdhExceedsUcs2Body => "UDH > UCS2 body"@,
        PduFault::UdhExceedsEightBitBody => "UDH > 8bit body"@,
    }
}

fn pdu_fault_message(f: PduFault) -> (m: &'static str)
    ensures
        m@ == pdu_fault_text(f),
{
    match f {
        PduFault::InvalidHex => "invalid hex",
        PduFault::TruncatedBeforeSca => "truncated before SCA",
        PduFault::ScaTooLong => "SCA too long",
        PduFault::TruncatedBeforeFirstOctet => "truncated before first octet",
        PduFault::TruncatedBeforeOa => "truncated before OA",
        PduFault::TruncatedBeforeOaToa => "truncated before OA TOA",
        PduFault::OaBytesTruncated => "OA bytes truncated",
        PduFault::TruncatedBeforePid => "truncated before PID",
        PduFault::TruncatedBeforeDcs => "truncated before DCS",
        PduFault::TruncatedBeforeScts => "truncated before SCTS",
        PduFault::TruncatedBeforeUdl => "truncated before UDL",
        PduFault::UdlExceedsRemaining => "UDL > remaining",
        PduFault::UdhMissingUdhl => "UDH missing UDHL",
        PduFault::UdhTooLong => "UDH too long",
        PduFault::UdhSeptetsExceedUdl => "UDH header septets > UDL",
        PduFault::UdhExceedsUcs2Body => "UDH > UCS2 body",
        PduFault::UdhExceedsEightBitBody => "UDH > 8bit body",
    }
}

/// Text alphabet selected by the data coding scheme.
#[derive(Debug, Clone, Copy)]
pub enum Alphabet {
    Gsm7,
    Eight,
    Ucs2,
}

/// The alphabet a TP-DCS octet selects (3GPP TS 23.038 general and message-class groups).
pub open spec fn spec_alphabet(dcs: u8) -> Alphabet {
    if (dcs & 0xC0) == 0x00 {
        let a = (dcs >> 2) & 0x03;
        if a == 1 {
            Alphabet::Eight
        } else if a == 2 {
            Alphabet::Ucs2
        } else {
            Alphabet::Gsm7
        }
    } else if (dcs & 0xF0) == 0xF0 {
        if (dcs & 0x04) != 0 {
            Alphabet::Eight
        } else {
            Alphabet::Gsm7
        }
    } else if (dcs & 0xF0) == 0xE0 {
        Alphabet::Ucs2
    } else {
        Alphabet::Gsm7
    }
}

fn alphabet_of(dcs: u8) -> (a: Alphabet)
    ensures
        a == spec_alphabet(dcs),
{
    if (dcs & 0xC0) == 0x00 {
        let a = (dcs >> 2) & 0x03;
        if a == 1 {
            Alphabet::Eight
        } else if a == 2 {
            Alphabet::Ucs2
        } else {
            Alphabet::Gsm7
        }
    } else if (dcs & 0xF0) == 0xF0 {
        if (dcs & 0x04) != 0 {
            Alphabet::Eight
        } else {
            Alphabet::Gsm7
        }
    } else if (dcs & 0xF0) == 0xE0 {
        Alphabet::Ucs2
    } else {
        Alphabet::Gsm7
    }
}

/// What the user-data header says about concatenation and port addressing.
#[derive(Debug, Clone, Copy)]
pub struct UdhInfo {
    /// (reference, total parts, part number) from the last concatenation element.
    pub concat: Option<(u16, u8, u8)>,
    /// Destination port from the last port-addressing element.
    pub port: Option<u16>,
}

/// Walks the information elements of a user-data header occupying `b[ie..end)`; a later
/// element of the same kind replaces an earlier one, and an element that overruns the
/// header ends the walk.
pub open spec fn scan_udh(b: Seq<u8>, ie: int, end: int, acc: UdhInfo) -> UdhInfo
    decreases end - ie,
{
    if ie + 1 < end {
        let iei = b[ie];
        let iedl = b[ie + 1] as int;
        let d = ie + 2;
        if d + iedl > end {
            acc
        } else {
            let next = if iei == 0x00 && iedl == 3 {
                UdhInfo { concat: Some((b[d] as u16, b[d + 1], b[d + 2])), ..acc }
            } else if iei == 0x08 && iedl == 4 {
                UdhInfo {
                    concat: Some(((b[d] as int * 256 + b[d + 1] as int) as u16, b[d + 2], b[d + 3])),
                    ..acc
                }
            } else if iei == 0x05 && iedl == 4 {
                UdhInfo { port: Some((b[d] as int * 256 + b[d + 1] as int) as u16), ..acc }
            } else if iei == 0x04 && iedl == 2 {
                UdhInfo { port: Some(b[d] as u16), ..acc }
            } else {
                acc
            };
            scan_udh(b, d + iedl, end, next)
        }
    } else {
        acc
    }
}

/// Originating address: GSM-7 packed alphanumerics when the type of number says so,
/// otherwise BCD digits, with `+` for international numbers.
pub open spec fn spec_pdu_sender(b: Seq<u8>, p: int, oa_digits: int, oa_toa: u8) -> Seq<char> {
    let oa_bytes = (oa_digits + 1) / 2;
    if (oa_toa & 0x70) == 0x50 {
        spec_gsm7_decode(spec_unpack(b.subrange(p, p + oa_bytes), (oa_bytes * 8) / 7, 0))
    } else {
        let digits = spec_bcd_decode(b.skip(p), oa_bytes, oa_digits);
        if (oa_toa & 0x70) == 0x10 {
            seq!['+'] + digits
        } else {
            digits
        }
    }
}

/// Fill bits that align the first septet after a `udh_total`-byte header.
pub open spec fn udh_fill_bits(udh_total: int) -> int {
    (7 - ((udh_total * 8) % 7)) % 7
}

/// Decoded message text, given the user data `ud`, the UDL octet and the header size.
pub open spec fn spec_pdu_content(alpha: Alphabet, ud: Seq<u8>, udl: int, udh_total: int) -> Result<
    Seq<char>,
    PduFault,
> {
    match alpha {
        Alphabet::Gsm7 => {
            if udh_total > 0 {
                let bits = udh_total * 8 + udh_fill_bits(udh_total);
                let header_septets = bits / 7;
                if header_septets > udl {
                    Err(PduFault::UdhSeptetsExceedUdl)
                } else {
                    Ok(spec_gsm7_decode(spec_unpack(ud, udl - header_septets, bits)))
                }
            } else {
                Ok(spec_gsm7_decode(spec_unpack(ud, udl, 0)))
            }
        },
        Alphabet::Ucs2 => {
            if udh_total > ud.len() {
                Err(PduFault::UdhExceedsUcs2Body)
            } else {
                Ok(spec_ucs2_decode(ud.skip(udh_total)))
            }
        },
        Alphabet::Eight => {
            if udh_total > ud.len() {
                Err(PduFault::UdhExceedsEightBitBody)
            } else {
                Ok(ud.skip(udh_total).map_values(|x: u8| x as char))
            }
        },
    }
}

/// The SMS-DELIVER PDU spelled by the bytes `b` (SCA, first octet, OA, PID, DCS, SCTS,
/// UDL, UD), or why the bytes are not one.
pub open spec fn spec_parse_sms_pdu(b: Seq<u8>) -> Result<SpecSmsPdu, PduFault> {
    let n = b.len() as int;
    if n == 0 {
        Err(PduFault::TruncatedBeforeSca)
    } else if 1 + b[0] as int > n {
        Err(PduFault::ScaTooLong)
    } else if 1 + b[0] as int >= n {
        Err(PduFault::TruncatedBeforeFirstOctet)
    } else {
        let p1 = 1 + b[0] as int;
        let udhi = (b[p1] & 0x40) != 0;
        if p1 + 1 >= n {
            Err(PduFault::TruncatedBeforeOa)
        } else if p1 + 2 >= n {
            Err(PduFault::TruncatedBeforeOaToa)
        } else {
            let oa_digits = b[p1 + 1] as int;
            let oa_toa = b[p1 + 2];
            let oa_bytes = (oa_digits + 1) / 2;
            let p3 = p1 + 3;
            if p3 + oa_bytes > n {
                Err(PduFault::OaBytesTruncated)
            } else {
                let p4 = p3 + oa_bytes;
                if p4 >= n {
                    Err(PduFault::TruncatedBeforePid)
                } else if p4 + 1 >= n {
                    Err(PduFault::TruncatedBeforeDcs)
                } else if p4 + 9 > n {
                    Err(PduFault::TruncatedBeforeScts)
                } else if p4 + 9 >= n {
                    Err(PduFault::TruncatedBeforeUdl)
                } else {
                    let dcs = b[p4 + 1];
                    let alpha = spec_alphabet(dcs);
                    let udl = b[p4 + 9] as int;
                    let p = p4 + 10;
                    let rem = n - p;
                    if !(alpha is Gsm7) && udl > rem {
                        Err(PduFault::UdlExceedsRemaining)
                    } else {
                        let ud_bytes = if !(alpha is Gsm7) { udl } else { rem };
                        if udhi && ud_bytes < 1 {
                            Err(PduFault::UdhMissingUdhl)
                        } else if udhi && b[p] as int + 1 > ud_bytes {
                            Err(PduFault::UdhTooLong)
                        } else {
                            let udh_total = if udhi { b[p] as int + 1 } else { 0 };
                            let none = UdhInfo { concat: None, port: None };
                            let info = if udhi { scan_udh(b, p + 1, p + udh_total, none) } else { none };
                            let ud = b.subrange(p, p + ud_bytes);
                            match spec_pdu_content(alpha, ud, udl, udh_total) {
                                Err(f) => Err(f),
                                Ok(content) => Ok(SpecSmsPdu {
                                    sender: spec_pdu_sender(b, p3, oa_digits, oa_toa),
                                    timestamp: spec_scts(b.subrange(p4 + 2, p4 + 9)),
                                    content,
                                    is_concatenated: info.concat is Some,
                                    concat_ref: match info.concat { Some(c) => c.0, None => 0 },
                                    concat_total: match info.concat { Some(c) => c.1, None => 0 },
                                    concat_part: match info.concat { Some(c) => c.2, None => 0 },
                                    dcs,
                                    destination_port: info.port,
                                    user_data_payload: ud.skip(udh_total),
                                }),
                            }
                        }
                    }
                }
            }
        }
    }
}

/// Parsing of a hex-encoded PDU string.
pub open spec fn spec_parse_sms_pdu_hex(hex: Seq<char>) -> Result<SpecSmsPdu, PduFault> {
    match spec_hex_to_bytes(hex) {
        None => Err(PduFault::InvalidHex),
        Some(b) => spec_parse_sms_pdu(b),
    }
}

fn scan_udh_exec(buf: &[u8], start: usize, end: usize) -> (info: UdhInfo)
    requires
        start <= end <= buf@.len(),
    ensures
        info == scan_udh(buf@, start as int, end as int, UdhInfo { concat: None, port: None }),
{
    let mut info = UdhInfo { concat: None, port: None };
    let mut ie = start;
    while end - ie >= 2
        invariant
            start <= ie <= end,
            end <= buf@.len(),
            scan_udh(buf@, ie as int, end as int, info) == scan_udh(
                buf@,
                start as int,
                end as int,
                UdhInfo { concat: None, port: None },
            ),
        ensures
            info == scan_udh(buf@, start as int, end as int, UdhInfo { concat: None, port: None }),
        decreases end - ie,
    {
        let iei = buf[ie];
        let iedl = buf[ie + 1] as usize;
        let d = ie + 2;
        if iedl > end - d {
            break;
        }
        if iei == 0x00 && iedl == 3 {
            info = UdhInfo { concat: Some((buf[d] as u16, buf[d + 1], buf[d + 2])), port: info.port };
        } else if iei == 0x08 && iedl == 4 {
            let r: u16 = (buf[d] as u16) * 256 + buf[d + 1] as u16;
            info = UdhInfo { concat: Some((r, buf[d + 2], buf[d + 3])), port: info.port };
        } else if iei == 0x05 && iedl == 4 {
            let port: u16 = (buf[d] as u16) * 256 + buf[d + 1] as u16;
            info = UdhInfo { concat: info.concat, port: Some(port) };
        } else if iei == 0x04 && iedl == 2 {
            info = UdhInfo { concat: info.concat, port: Some(buf[d] as u16) };
        }
        ie = d + iedl;
    }
    info
}

fn bytes_to_latin1(data: &[u8]) -> (out: String)
    ensures
        out@ == data@.map_values(|x: u8| x as char),
{
    let mut out = new_string();
    let mut i: usize = 0;
    while i < data.len()
        invariant
            i <= data@.len(),
            out@ == data@.take(i as int).map_values(|x: u8| x as char),
        decreases data@.len() - i,
    {
        push_char(&mut out, data[i] as char);
        i = i + 1;
        assert(data@.take(i as int).map_values(|x: u8| x as char) =~= data@.take((i - 1) as int).map_values(
            |x: u8| x as char,
        ).push(data@[i - 1] as char));
    }
    assert(data@.take(data@.len() as int) == data@);
    out
}

fn pdu_content(alpha: Alphabet, ud: &[u8], udl: usize, udh_total: usize) -> (r: Result<String, PduFault>)
    requires
        udl <= 255,
        udh_total <= 256,
    ensures
        r is Ok <==> spec_pdu_content(alpha, ud@, udl as int, udh_total as int) is Ok,
        r matches Ok(s) ==> spec_pdu_content(alpha, ud@, udl as int, udh_total as int) == Ok::<
            Seq<char>,
            PduFault,
        >(s@),
        r matches Err(f) ==> spec_pdu_content(alpha, ud@, udl as int, udh_total as int) == Err::<
            Seq<char>,
            PduFault,
        >(f),
{
    match alpha {
        Alphabet::Gsm7 => {
            if udh_total > 0 {
                let udh_bits = udh_total * 8;
                let fill = (7 - (udh_bits % 7)) % 7;
                let header_septets = (udh_bits + fill) / 7;
                if header_septets > udl {
                    return Err(PduFault::UdhSeptetsExceedUdl);
                }
                let septets = unpack_septets(ud, udl - header_septets, udh_bits + fill);
                Ok(gsm7_septets_to_utf8(septets.as_slice()))
            } else {
                let septets = unpack_septets(ud, udl, 0);
                Ok(gsm7_septets_to_utf8(septets.as_slice()))
            }
        },
        Alphabet::Ucs2 => {
            if udh_total > ud.len() {
                return Err(PduFault::UdhExceedsUcs2Body);
            }
            let body = vstd::slice::slice_subrange(ud, udh_total, ud.len());
            assert(body@ == ud@.skip(udh_total as int));
            Ok(ucs2_bytes_to_utf8(body))
        },
        Alphabet::Eight => {
            if udh_total > ud.len() {
                return Err(PduFault::UdhExceedsEightBitBody);
            }
            let body = vstd::slice::slice_subrange(ud, udh_total, ud.len());
            assert(body@ == ud@.skip(udh_total as int));
            Ok(bytes_to_latin1(body))
        },
    }
}

fn pdu_error(f: PduFault) -> (e: SmsError)
    ensures
        e matches SmsError::MalformedPdu(m) && m@ == pdu_fault_text(f),
{
    SmsError::MalformedPdu(pdu_fault_message(f))
}

/// Parse a hex-encoded SMS-DELIVER PDU.
pub fn parse_sms_pdu(hex_pdu: &str) -> (r: Result<SmsPdu, SmsError>)
    ensures
        r is Ok <==> spec_parse_sms_pdu_hex(hex_pdu@) is Ok,
        r matches Ok(p) ==> spec_parse_sms_pdu_hex(hex_pdu@) == Ok::<SpecSmsPdu, PduFault>(p@),
        r matches Err(e) ==> (spec_parse_sms_pdu_hex(hex_pdu@) matches Err(f) && e matches SmsError::MalformedPdu(m)
            && m@ == pdu_fault_text(f)),
{
    let buf = match hex_to_bytes(hex_pdu) {
        Some(b) => b,
        None => return Err(pdu_error(PduFault::InvalidHex)),
    };
    let ghost b = buf@;
    let n = buf.len();
    if n == 0 {
        return Err(pdu_error(PduFault::TruncatedBeforeSca));
    }
    let sca_len = buf[0] as usize;
    if 1 + sca_len > n {
        return Err(pdu_error(PduFault::ScaTooLong));
    }
    let p1 = 1 + sca_len;
    if p1 >= n {
        return Err(pdu_error(PduFault::TruncatedBeforeFirstOctet));
    }
    let first_octet = buf[p1];
    let udhi = (first_octet & 0x40) != 0;
    if p1 + 1 >= n {
        return Err(pdu_error(PduFault::TruncatedBeforeOa));
    }
    let oa_digits = buf[p1 + 1] as usize;
    if p1 + 2 >= n {
        return Err(pdu_error(PduFault::TruncatedBeforeOaToa));
    }
    let oa_toa = buf[p1 + 2];
    let oa_bytes = (oa_digits + 1) / 2;
    let p3 = p1 + 3;
    if p3 + oa_bytes > n {
        return Err(pdu_error(PduFault::OaBytesTruncated));
    }
    let sender = if (oa_toa & 0x70) == 0x50 {
        let scount = (oa_bytes * 8) / 7;
        let oa = vstd::slice::slice_subrange(buf.as_slice(), p3, p3 + oa_bytes);
        let septets = unpack_septets(oa, scount, 0);
        gsm7_septets_to_utf8(septets.as_slice())
    } else {
        let tail = vstd::slice::slice_subrange(buf.as_slice(), p3, n);
        assert(tail@ == b.skip(p3 as int));
        let digits = decode_bcd_address(tail, oa_bytes, oa_digits);
        if (oa_toa & 0x70) == 0x10 {
            let mut s = new_string();
            push_char(&mut s, '+');
            push_str(&mut s, digits.as_str());
            assert(s@ == seq!['+'] + digits@);
            s
        } else {
            digits
        }
    };
    let p4 = p3 + oa_bytes;
    if p4 >= n {
        return Err(pdu_error(PduFault::TruncatedBeforePid));
    }
    if p4 + 1 >= n {
        return Err(pdu_error(PduFault::TruncatedBeforeDcs));
    }
    let dcs = buf[p4 + 1];
    let alpha = alphabet_of(dcs);
    if p4 + 9 > n {
        return Err(pdu_error(PduFault::TruncatedBeforeScts));
    }
    let timestamp = decode_scts(vstd::slice::slice_subrange(buf.as_slice(), p4 + 2, p4 + 9));
    if p4 + 9 >= n {
        return Err(pdu_error(PduFault::TruncatedBeforeUdl));
    }
    let udl = buf[p4 + 9] as usize;
    let p = p4 + 10;
    let rem = n - p;
    let gsm7 = match alpha {
        Alphabet::Gsm7 => true,
        _ => false,
    };
    if !gsm7 && udl > rem {
        return Err(pdu_error(PduFault::UdlExceedsRemaining));
    }
    let ud_bytes = if !gsm7 { udl } else { rem };
    if udhi && ud_bytes < 1 {
        return Err(pdu_error(PduFault::UdhMissingUdhl));
    }
    if udhi && buf[p] as usize + 1 > ud_bytes {
        return Err(pdu_error(PduFault::UdhTooLong));
    }
    let udh_total: usize = if udhi { buf[p] as usize + 1 } else { 0 };
    let info = if udhi {
        scan_udh_exec(buf.as_slice(), p + 1, p + udh_total)
    } else {
        UdhInfo { concat: None, port: None }
    };
    let ud = vstd::slice::slice_subrange(buf.as_slice(), p, p + ud_bytes);
    let content = match pdu_content(alpha, ud, udl, udh_total) {
        Ok(c) => c,
        Err(f) => return Err(pdu_error(f)),
    };
    let payload = vstd::slice::slice_to_vec(vstd::slice::slice_subrange(ud, udh_total, ud.len()));
    let (is_concatenated, concat_ref, concat_total, concat_part) = match info.concat {
        Some((r, t, q)) => (true, r, t, q),
        None => (false, 0, 0, 0),
    };
    let pdu = SmsPdu {
        sender,
        timestamp,
        content,
        is_concatenated,
        concat_ref,
        concat_total,
        concat_part,
        dcs,
        destination_port: info.port,
        user_data_payload: payload,
    };
    assert(payload@ == ud@.skip(udh_total as int));
    assert(pdu@ == spec_parse_sms_pdu(b).unwrap());
    Ok(pdu)
}


// ---------------------------------------------------------------------------
// SMS-SUBMIT encoder
// ---------------------------------------------------------------------------

/// GSM-7 septets for one code point: empty when the code point has no GSM-7 form.
pub open spec fn spec_gsm7_encode(cp: u32) -> Seq<u8> {
    if cp == 0x24 {
        seq![0x02u8]
    } else if cp == 0x40 {
        seq![0x00u8]
    } else if cp == 0x5F {
        seq![0x11u8]
    } else if cp == 0x60 {
        seq![]
    } else if cp == 0x5B {
        seq![0x1Bu8, 0x3Cu8]
    } else if cp == 0x5C {
        seq![0x1Bu8, 0x2Fu8]
    } else if cp == 0x5D {
        seq![0x1Bu8, 0x3Eu8]
    } else if cp == 0x5E {
        seq![0x1Bu8, 0x14u8]
    } else if cp == 0x7B {
        seq![0x1Bu8, 0x28u8]
    } else if cp == 0x7C {
        seq![0x1Bu8, 0x40u8]
    } else if cp == 0x7D {
        seq![0x1Bu8, 0x29u8]
    } else if cp == 0x7E {
        seq![0x1Bu8, 0x3Du8]
    } else if 0x20 <= cp && cp <= 0x7E {
        seq![cp as u8]
    } else if cp == 0x0A {
        seq![0x0Au8]
    } else if cp == 0x0D {
        seq![0x0Du8]
    } else if cp == 0x0C {
        seq![0x1Bu8, 0x0Au8]
    } else if cp == 0x00A1 {
        seq![0x40u8]
    } else if cp == 0x00A3 {
        seq![0x01u8]
    } else if cp == 0x00A4 {
        seq![0x24u8]
    } else if cp == 0x00A5 {
        seq![0x03u8]
    } else if cp == 0x00A7 {
        seq![0x5Fu8]
    } else if cp == 0x00BF {
        seq![0x60u8]
    } else if cp == 0x00C4 {
        seq![0x5Bu8]
    } else if cp == 0x00C5 {
        seq![0x0Eu8]
    } else if cp == 0x00C6 {
        seq![0x1Cu8]
    } else if cp == 0x00C7 {
        seq![0x09u8]
    } else if cp == 0x00C9 {
        seq![0x1Fu8]
    } else if cp == 0x00D1 {
        seq![0x5Du8]
    } else if cp == 0x00D6 {
        seq![0x5Cu8]
    } else if cp == 0x00D8 {
        seq![0x0Bu8]
    } else if cp == 0x00DC {
        seq![0x5Eu8]
    } else if cp == 0x00DF {
        seq![0x1Eu8]
    } else if cp == 0x00E0 {
        seq![0x7Fu8]
    } else if cp == 0x00E4 {
        seq![0x7Bu8]
    } else if cp == 0x00E5 {
        seq![0x0Fu8]
    } else if cp == 0x00E6 {
        seq![0x1Du8]
    } else if cp == 0x00E8 {
        seq![0x04u8]
    } else if cp == 0x00E9 {
        seq![0x05u8]
    } else if cp == 0x00EC {
        seq![0x07u8]
    } else if cp == 0x00F1 {
        seq![0x7Du8]
    } else if cp == 0x00F2 {
        seq![0x08u8]
    } else if cp == 0x00F6 {
        seq![0x7Cu8]
    } else if cp == 0x00F8 {
        seq![0x0Cu8]
    } else if cp == 0x00F9 {
        seq![0x06u8]
    } else if cp == 0x00FC {
        seq![0x7Eu8]
    } else if cp == 0x0393 {
        seq![0x13u8]
    } else if cp == 0x0394 {
        seq![0x10u8]
    } else if cp == 0x0398 {
        seq![0x19u8]
    } else if cp == 0x039B {
        seq![0x14u8]
    } else if cp == 0x039E {
        seq![0x1Au8]
    } else if cp == 0x03A0 {
        seq![0x16u8]
    } else if cp == 0x03A3 {
        seq![0x18u8]
    } else if cp == 0x03A6 {
        seq![0x12u8]
    } else if cp == 0x03A8 {
        seq![0x17u8]
    } else if cp == 0x03A9 {
        seq![0x15u8]
    } else if cp == 0x20AC {
        seq![0x1Bu8, 0x65u8]
    } else {
        seq![]
    }
}

/// Try to encode a Unicode code point as GSM-7 septets.
/// Returns the septet count (0, 1 or 2) and the septets.
fn encode_gsm7_char(cp: u32) -> (r: (usize, u8, u8))
    ensures
        r.0 <= 2,
        r.0 == spec_gsm7_encode(cp).len(),
        r.0 >= 1 ==> r.1 == spec_gsm7_encode(cp)[0],
        r.0 == 2 ==> r.2 == spec_gsm7_encode(cp)[1],
{
    if cp == 0x24 {
        (1, 0x02, 0)
    } else if cp == 0x40 {
        (1, 0x00, 0)
    } else if cp == 0x5F {
        (1, 0x11, 0)
    } else if cp == 0x60 {
        (0, 0, 0)
    } else if cp == 0x5B {
        (2, 0x1B, 0x3C)
    } else if cp == 0x5C {
        (2, 0x1B, 0x2F)
    } else if cp == 0x5D {
        (2, 0x1B, 0x3E)
    } else if cp == 0x5E {
        (2, 0x1B, 0x14)
    } else if cp == 0x7B {
        (2, 0x1B, 0x28)
    } else if cp == 0x7C {
        (2, 0x1B, 0x40)
    } else if cp == 0x7D {
        (2, 0x1B, 0x29)
    } else if cp == 0x7E {
        (2, 0x1B, 0x3D)
    } else if 0x20 <= cp && cp <= 0x7E {
        (1, cp as u8, 0)
    } else if cp == 0x0A {
        (1, 0x0A, 0)
    } else if cp == 0x0D {
        (1, 0x0D, 0)
    } else if cp == 0x0C {
        (2, 0x1B, 0x0A)
    } else if cp == 0x00A1 {
        (1, 0x40, 0)
    } else if cp == 0x00A3 {
        (1, 0x01, 0)
    } else if cp == 0x00A4 {
        (1, 0x24, 0)
    } else if cp == 0x00A5 {
        (1, 0x03, 0)
    } else if cp == 0x00A7 {
        (1, 0x5F, 0)
    } else if cp == 0x00BF {
        (1, 0x60, 0)
    } else if cp == 0x00C4 {
        (1, 0x5B, 0)
    } else if cp == 0x00C5 {
        (1, 0x0E, 0)
    } else if cp == 0x00C6 {
        (1, 0x1C, 0)
    } else if cp == 0x00C7 {
        (1, 0x09, 0)
    } else if cp == 0x00C9 {
        (1, 0x1F, 0)
    } else if cp == 0x00D1 {
        (1, 0x5D, 0)
    } else if cp == 0x00D6 {
        (1, 0x5C, 0)
    } else if cp == 0x00D8 {
        (1, 0x0B, 0)
    } else if cp == 0x00DC {
        (1, 0x5E, 0)
    } else if cp == 0x00DF {
        (1, 0x1E, 0)
    } else if cp == 0x00E0 {
        (1, 0x7F, 0)
    } else if cp == 0x00E4 {
        (1, 0x7B, 0)
    } else if cp == 0x00E5 {
        (1, 0x0F, 0)
    } else if cp == 0x00E6 {
        (1, 0x1D, 0)
    } else if cp == 0x00E8 {
        (1, 0x04, 0)
    } else if cp == 0x00E9 {
        (1, 0x05, 0)
    } else if cp == 0x00EC {
        (1, 0x07, 0)
    } else if cp == 0x00F1 {
        (1, 0x7D, 0)
    } else if cp == 0x00F2 {
        (1, 0x08, 0)
    } else if cp == 0x00F6 {
        (1, 0x7C, 0)
    } else if cp == 0x00F8 {
        (1, 0x0C, 0)
    } else if cp == 0x00F9 {
        (1, 0x06, 0)
    } else if cp == 0x00FC {
        (1, 0x7E, 0)
    } else if cp == 0x0393 {
        (1, 0x13, 0)
    } else if cp == 0x0394 {
        (1, 0x10, 0)
    } else if cp == 0x0398 {
        (1, 0x19, 0)
    } else if cp == 0x039B {
        (1, 0x14, 0)
    } else if cp == 0x039E {
        (1, 0x1A, 0)
    } else if cp == 0x03A0 {
        (1, 0x16, 0)
    } else if cp == 0x03A3 {
        (1, 0x18, 0)
    } else if cp == 0x03A6 {
        (1, 0x12, 0)
    } else if cp == 0x03A8 {
        (1, 0x17, 0)
    } else if cp == 0x03A9 {
        (1, 0x15, 0)
    } else if cp == 0x20AC {
        (2, 0x1B, 0x65)
    } else {
        (0, 0, 0)
    }
}

/// Every character of `cs` has a GSM-7 form.
pub open spec fn spec_is_gsm7(cs: Seq<char>) -> bool {
    forall|i: int| 0 <= i < cs.len() ==> (#[trigger] spec_gsm7_encode(cs[i] as u32)).len() > 0
}

/// GSM-7 septets for a whole text.
pub open spec fn spec_gsm7_septets(cs: Seq<char>) -> Seq<u8>
    decreases cs.len(),
{
    if cs.len() == 0 {
        Seq::empty()
    } else {
        spec_gsm7_septets(cs.drop_last()) + spec_gsm7_encode(cs.last() as u32)
    }
}

/// Bitwise OR of `v` into byte `i` of `d`; bytes past the end are left alone.
pub open spec fn or_byte(d: Seq<u8>, i: int, v: u8) -> Seq<u8> {
    if 0 <= i < d.len() {
        d.update(i, d[i] | v)
    } else {
        d
    }
}

/// Bytes needed for `n` septets after `bit_offset` bits.
pub open spec fn packed_len(n: int, bit_offset: int) -> int {
    (bit_offset + 7 * n + 7) / 8
}

/// The first `n` septets of `s` packed LSB-first into `len` zero bytes from `bit_offset` on:
/// septet `i` occupies bits `bit_offset + 7i ..` of the little-endian bit stream.
pub open spec fn pack_prefix(s: Seq<u8>, n: int, bit_offset: int, len: int) -> Seq<u8>
    decreases n,
{
    if n <= 0 {
        Seq::new(len as nat, |i: int| 0u8)
    } else {
        let prev = pack_prefix(s, n - 1, bit_offset, len);
        let bit_pos = bit_offset + 7 * (n - 1);
        let shifted: u16 = ((s[n - 1] & 0x7F) as u16) << ((bit_pos % 8) as u16);
        or_byte(or_byte(prev, bit_pos / 8, (shifted & 0xFF) as u8), bit_pos / 8 + 1, (shifted >> 8) as u8)
    }
}

proof fn lemma_pack_prefix_len(s: Seq<u8>, n: int, bit_offset: int, len: int)
    requires
        len >= 0,
    ensures
        pack_prefix(s, n, bit_offset, len).len() == len,
    decreases n,
{
    if n > 0 {
        lemma_pack_prefix_len(s, n - 1, bit_offset, len);
    }
}

/// `septets` packed LSB-first after `bit_offset` leading zero bits.
pub open spec fn spec_pack_septets(s: Seq<u8>, bit_offset: int) -> Seq<u8> {
    if s.len() == 0 {
        Seq::new(((bit_offset + 7) / 8) as nat, |i: int| 0u8)
    } else {
        pack_prefix(s, s.len() as int, bit_offset, packed_len(s.len() as int, bit_offset))
    }
}

/// Pack septets into bytes with optional bit offset (for UDH alignment).
pub fn pack_septets(septets: &[u8], bit_offset: usize) -> (out: Vec<u8>)
    requires
        bit_offset + 7 * septets@.len() + 7 <= usize::MAX,
    ensures
        out@ == spec_pack_septets(septets@, bit_offset as int),
{
    if septets.len() == 0 {
        let out = zero_bytes((bit_offset + 7) / 8);
        return out;
    }
    let num_bytes = (bit_offset + septets.len() * 7 + 7) / 8;
    let mut out = zero_bytes(num_bytes);
    let mut i: usize = 0;
    while i < septets.len()
        invariant
            bit_offset + 7 * septets@.len() + 7 <= usize::MAX,
            num_bytes == packed_len(septets@.len() as int, bit_offset as int),
            out@.len() == num_bytes,
            i <= septets@.len(),
            out@ == pack_prefix(septets@, i as int, bit_offset as int, num_bytes as int),
        decreases septets@.len() - i,
    {
        let s = septets[i];
        let val = (s & 0x7F) as u16;
        let bit_pos = bit_offset + i * 7;
        let byte_idx = bit_pos / 8;
        let bit_off = bit_pos % 8;
        assert(val < 128) by (bit_vector)
            requires
                val == (s & 0x7F) as u16,
        ;
        let shifted: u16 = val << (bit_off as u16);
        let ghost prev = out@;
        if byte_idx < num_bytes {
            let lo = out[byte_idx] | ((shifted & 0xFF) as u8);
            out.set(byte_idx, lo);
        }
        let ghost mid = out@;
        assert(mid == or_byte(prev, byte_idx as int, (shifted & 0xFF) as u8));
        if byte_idx + 1 < num_bytes {
            let hi = out[byte_idx + 1] | ((shifted >> 8) as u8);
            out.set(byte_idx + 1, hi);
        }
        assert(out@ == or_byte(mid, byte_idx + 1, (shifted >> 8) as u8));
        i = i + 1;
        assert(out@ == pack_prefix(septets@, i as int, bit_offset as int, num_bytes as int));
    }
    out
}

fn zero_bytes(n: usize) -> (out: Vec<u8>)
    ensures
        out@ == Seq::new(n as nat, |i: int| 0u8),
{
    let mut out: Vec<u8> = Vec::new();
    let mut i: usize = 0;
    while i < n
        invariant
            i <= n,
            out@ == Seq::new(i as nat, |k: int| 0u8),
        decreases n - i,
    {
        out.push(0);
        i = i + 1;
        assert(out@ =~= Seq::new(i as nat, |k: int| 0u8));
    }
    out
}

fn append_bytes(out: &mut Vec<u8>, data: &[u8])
    ensures
        final(out)@ == old(out)@ + data@,
{
    out.extend_from_slice(data);
    assert(out@ =~= old(out)@ + data@);
}

/// Returns true iff every code point in `s` can be represented in GSM-7.
pub fn is_gsm7_compatible(s: &str) -> (r: bool)
    ensures
        r == spec_is_gsm7(s@),
{
    let cps = str_to_chars(s);
    let mut i: usize = 0;
    while i < cps.len()
        invariant
            cps@ == s@,
            i <= cps@.len(),
            forall|k: int| 0 <= k < i ==> (#[trigger] spec_gsm7_encode(cps@[k] as u32)).len() > 0,
        decreases cps@.len() - i,
    {
        let (n, _, _) = encode_gsm7_char(cps[i] as u32);
        if n == 0 {
            assert(spec_gsm7_encode(cps@[i as int] as u32).len() == 0);
            return false;
        }
        i = i + 1;
    }
    true
}

/// UTF-16 big-endian bytes of a text.
pub open spec fn spec_utf16be(cs: Seq<char>) -> Seq<u8>
    decreases cs.len(),
{
    if cs.len() == 0 {
        Seq::empty()
    } else {
        spec_utf16be(cs.drop_last()) + utf16be_char(cs.last() as u32)
    }
}

/// UTF-16 big-endian bytes of one code point.
pub open spec fn utf16be_char(cp: u32) -> Seq<u8> {
    if cp <= 0xFFFF {
        seq![(cp >> 8) as u8, (cp & 0xFF) as u8]
    } else if cp <= 0x10FFFF {
        let adj = (cp - 0x10000) as u32;
        let hi = (0xD800 + (adj >> 10)) as u16;
        let lo = (0xDC00 + (adj & 0x3FF)) as u16;
        seq![(hi >> 8) as u8, (hi & 0xFF) as u8, (lo >> 8) as u8, (lo & 0xFF) as u8]
    } else {
        Seq::empty()
    }
}

fn code_points_to_utf16be(cps: &[char]) -> (out: Vec<u8>)
    ensures
        out@ == spec_utf16be(cps@),
{
    let mut out: Vec<u8> = Vec::new();
    let mut i: usize = 0;
    while i < cps.len()
        invariant
            i <= cps@.len(),
            out@ == spec_utf16be(cps@.take(i as int)),
        decreases cps@.len() - i,
    {
        let cp = cps[i] as u32;
        let ghost prev = out@;
        if cp <= 0xFFFF {
            out.push((cp >> 8) as u8);
            out.push((cp & 0xFF) as u8);
        } else if cp <= 0x10FFFF {
            let adj = cp - 0x10000;
            assert(adj >> 10 <= 0x3FF && adj & 0x3FF <= 0x3FF) by (bit_vector)
                requires
                    adj <= 0xFFFFF,
            ;
            let hi = (0xD800 + (adj >> 10)) as u16;
            let lo = (0xDC00 + (adj & 0x3FF)) as u16;
            out.push((hi >> 8) as u8);
            out.push((hi & 0xFF) as u8);
            out.push((lo >> 8) as u8);
            out.push((lo & 0xFF) as u8);
        }
        assert(out@ =~= prev + utf16be_char(cp));
        i = i + 1;
        assert(cps@.take(i as int).drop_last() == cps@.take((i - 1) as int));
    }
    assert(cps@.take(cps@.len() as int) == cps@);
    out
}

/// ASCII decimal digit characters.
pub open spec fn is_ascii_digit(c: char) -> bool {
    48 <= (c as u32) <= 57
}

/// The ASCII digits of `s`, in order.
pub open spec fn ascii_digits(s: Seq<char>) -> Seq<char>
    decreases s.len(),
{
    if s.len() == 0 {
        Seq::empty()
    } else if is_ascii_digit(s.last()) {
        ascii_digits(s.drop_last()).push(s.last())
    } else {
        ascii_digits(s.drop_last())
    }
}

/// Whether `c` occurs in `s`.
pub open spec fn seq_has(s: Seq<char>, c: char) -> bool
    decreases s.len(),
{
    if s.len() == 0 {
        false
    } else {
        s.last() == c || seq_has(s.drop_last(), c)
    }
}

/// Semi-octet packing of decimal digits, low nibble first, `F`-padded.
pub open spec fn spec_bcd_digits(d: Seq<char>) -> Seq<u8>
    decreases d.len(),
{
    if d.len() == 0 {
        Seq::empty()
    } else if d.len() == 1 {
        seq![(0xF0 + ((d[0] as u32) - 48)) as u8]
    } else {
        seq![((((d[1] as u32) - 48) * 16) + ((d[0] as u32) - 48)) as u8] + spec_bcd_digits(d.skip(2))
    }
}

/// TP-DA address field: digit count, type of address (international when the number
/// holds a `+`), then the BCD digits.
pub open spec fn spec_bcd_phone(phone: Seq<char>) -> Seq<u8> {
    let digits = ascii_digits(phone);
    seq![digits.len() as u8, if seq_has(phone, '+') { 0x91u8 } else { 0x81u8 }] + spec_bcd_digits(digits)
}

fn encode_bcd_phone(phone: &str, out: &mut Vec<u8>)
    ensures
        final(out)@ == old(out)@ + spec_bcd_phone(phone@),
{
    let cs = str_to_chars(phone);
    let mut digits: Vec<char> = Vec::new();
    let mut international = false;
    let mut i: usize = 0;
    while i < cs.len()
        invariant
            cs@ == phone@,
            i <= cs@.len(),
            digits@ == ascii_digits(cs@.take(i as int)),
            forall|t: int| 0 <= t < digits@.len() ==> is_ascii_digit(#[trigger] digits@[t]),
            international == seq_has(cs@.take(i as int), '+'),
        decreases cs@.len() - i,
    {
        let c = cs[i];
        if c == '+' {
            international = true;
        } else if 48 <= (c as u32) && (c as u32) <= 57 {
            digits.push(c);
        }
        i = i + 1;
        assert(cs@.take(i as int).drop_last() == cs@.take((i - 1) as int));
    }
    assert(cs@.take(cs@.len() as int) == cs@);
    out.push(digits.len() as u8);
    out.push(if international { 0x91 } else { 0x81 });
    let ghost base = out@;
    assert(digits@.skip(0) == digits@);
    let mut k: usize = 0;
    while k < digits.len()
        invariant
            k <= digits@.len(),
            forall|t: int| 0 <= t < digits@.len() ==> is_ascii_digit(#[trigger] digits@[t]),
            base + spec_bcd_digits(digits@) == out@ + spec_bcd_digits(digits@.skip(k as int)),
        decreases digits@.len() - k,
    {
        let ghost rest = digits@.skip(k as int);
        assert(is_ascii_digit(digits@[k as int]));
        let lo = (digits[k] as u32 - 48) as u8;
        if k + 1 < digits.len() {
            assert(is_ascii_digit(digits@[k + 1]));
            let hi = (digits[k + 1] as u32 - 48) as u8;
            out.push(hi * 16 + lo);
            assert(rest.skip(2) == digits@.skip(k + 2));
            assert(spec_bcd_digits(rest) == seq![(hi * 16 + lo) as u8] + spec_bcd_digits(rest.skip(2)));
            k = k + 2;
        } else {
            out.push(0xF0 + lo);
            assert(rest.len() == 1);
            assert(spec_bcd_digits(rest) == seq![(0xF0 + lo) as u8]);
            k = digits.len();
            assert(digits@.skip(k as int) == Seq::<char>::empty());
        }
    }
    assert(digits@.skip(k as int) == Seq::<char>::empty());
    assert(out@ =~= old(out)@ + spec_bcd_phone(phone@));
}

/// Septet count of the next GSM-7 part starting at `pos`: 153 septets, one or two fewer
/// when the cut would separate an ESC from the character it introduces.
pub open spec fn gsm7_chunk_len(s: Seq<u8>, pos: int) -> int {
    let remaining = s.len() - pos;
    if remaining > 153 {
        if s[pos + 152] == 0x1B {
            152
        } else if s[pos + 151] == 0x1B {
            151
        } else {
            153
        }
    } else {
        remaining
    }
}

/// (start, end) of each GSM-7 part from `pos` on.
pub open spec fn gsm7_chunks(s: Seq<u8>, pos: int) -> Seq<(int, int)>
    decreases s.len() - pos,
{
    if 0 <= pos < s.len() {
        let c = gsm7_chunk_len(s, pos);
        seq![(pos, pos + c)] + gsm7_chunks(s, pos + c)
    } else {
        Seq::empty()
    }
}

/// Byte count of the next UCS-2 part starting at `pos`: 134 bytes, or 132 when the cut
/// would separate a surrogate pair.
pub open spec fn ucs2_chunk_len(u: Seq<u8>, pos: int) -> int {
    let remaining = u.len() - pos;
    if remaining > 134 {
        let hi = u[pos + 132] as int * 256 + u[pos + 133] as int;
        if 0xD800 <= hi <= 0xDBFF {
            132
        } else {
            134
        }
    } else {
        remaining
    }
}

/// (start, end) of each UCS-2 part from `pos` on.
pub open spec fn ucs2_chunks(u: Seq<u8>, pos: int) -> Seq<(int, int)>
    decreases u.len() - pos,
{
    if 0 <= pos < u.len() {
        let c = ucs2_chunk_len(u, pos);
        seq![(pos, pos + c)] + ucs2_chunks(u, pos + c)
    } else {
        Seq::empty()
    }
}

/// SMS-SUBMIT header: no SCA, first octet (TP-SRR, TP-UDHI), TP-MR 0, destination.
pub open spec fn submit_header(phone: Seq<char>, srr: bool, udhi: bool) -> Seq<u8> {
    let fo: u8 = if udhi {
        if srr { 0x61 } else { 0x41 }
    } else {
        if srr { 0x21 } else { 0x01 }
    };
    seq![0x00u8, fo, 0x00u8] + spec_bcd_phone(phone)
}

/// The 6-byte concatenation header (8-bit reference).
pub open spec fn concat_udh(concat_ref: u8, total: int, part: int) -> Seq<u8> {
    seq![0x05u8, 0x00u8, 0x03u8, concat_ref, total as u8, part as u8]
}

/// PDU bytes of every part for a GSM-7 text.
pub open spec fn spec_gsm7_pdus(phone: Seq<char>, s: Seq<u8>, max_parts: int, srr: bool, concat_ref: u8) -> Seq<Seq<u8>> {
    if s.len() <= 160 {
        if max_parts < 1 {
            Seq::empty()
        } else {
            seq![submit_header(phone, srr, false) + seq![0x00u8, 0x00u8, s.len() as u8] + spec_pack_septets(s, 0)]
        }
    } else {
        let chunks = gsm7_chunks(s, 0);
        if chunks.len() > max_parts {
            Seq::empty()
        } else {
            Seq::new(
                chunks.len(),
                |k: int|
                    submit_header(phone, srr, true) + seq![
                        0x00u8,
                        0x00u8,
                        (7 + (chunks[k].1 - chunks[k].0)) as u8,
                    ] + concat_udh(concat_ref, chunks.len() as int, k + 1) + spec_pack_septets(
                        s.subrange(chunks[k].0, chunks[k].1),
                        49,
                    ).skip(6),
            )
        }
    }
}

/// PDU bytes of every part for a UCS-2 text.
pub open spec fn spec_ucs2_pdus(phone: Seq<char>, u: Seq<u8>, max_parts: int, srr: bool, concat_ref: u8) -> Seq<Seq<u8>> {
    if u.len() <= 140 {
        if max_parts < 1 {
            Seq::empty()
        } else {
            seq![submit_header(phone, srr, false) + seq![0x00u8, 0x08u8, u.len() as u8] + u]
        }
    } else {
        let chunks = ucs2_chunks(u, 0);
        if chunks.len() > max_parts {
            Seq::empty()
        } else {
            Seq::new(
                chunks.len(),
                |k: int|
                    submit_header(phone, srr, true) + seq![
                        0x00u8,
                        0x08u8,
                        (6 + (chunks[k].1 - chunks[k].0)) as u8,
                    ] + concat_udh(concat_ref, chunks.len() as int, k + 1) + u.subrange(
                        chunks[k].0,
                        chunks[k].1,
                    ),
            )
        }
    }
}

/// PDU bytes of every part of a message: GSM-7 when every character has a GSM-7 form,
/// UCS-2 otherwise; nothing for empty input or when more than `max_parts` parts are needed.
pub open spec fn spec_submit_pdus(phone: Seq<char>, body: Seq<char>, max_parts: int, srr: bool, concat_ref: u8) -> Seq<Seq<u8>> {
    if phone.len() == 0 || body.len() == 0 {
        Seq::empty()
    } else if spec_is_gsm7(body) {
        spec_gsm7_pdus(phone, spec_gsm7_septets(body), max_parts, srr, concat_ref)
    } else {
        spec_ucs2_pdus(phone, spec_utf16be(body), max_parts, srr, concat_ref)
    }
}

/// `pdus` carries exactly the PDUs `bytes`, hex-encoded, each with its TPDU length.
pub open spec fn submit_pdus_match(pdus: Seq<SmsSubmitPdu>, bytes: Seq<Seq<u8>>) -> bool {
    &&& pdus.len() == bytes.len()
    &&& forall|k: int| 0 <= k < pdus.len() ==> #[trigger] submit_pdu_matches(pdus[k], bytes[k])
}

/// One PDU matches its bytes.
pub open spec fn submit_pdu_matches(p: SmsSubmitPdu, bytes: Seq<u8>) -> bool {
    p.hex@ == spec_bytes_to_hex(bytes) && p.tpdu_len == (bytes.len() - 1) as u8
}


fn gsm7_septets_of(cps: &[char]) -> (r: Option<Vec<u8>>)
    ensures
        r is Some <==> spec_is_gsm7(cps@),
        r matches Some(v) ==> v@ == spec_gsm7_septets(cps@),
{
    let mut out: Vec<u8> = Vec::new();
    let mut i: usize = 0;
    while i < cps.len()
        invariant
            i <= cps@.len(),
            out@ == spec_gsm7_septets(cps@.take(i as int)),
            forall|k: int| 0 <= k < i ==> (#[trigger] spec_gsm7_encode(cps@[k] as u32)).len() > 0,
        decreases cps@.len() - i,
    {
        let (n, a, b) = encode_gsm7_char(cps[i] as u32);
        if n == 0 {
            return None;
        }
        let ghost prev = out@;
        out.push(a);
        if n == 2 {
            out.push(b);
        }
        assert(out@ =~= prev + spec_gsm7_encode(cps@[i as int] as u32));
        i = i + 1;
        assert(cps@.take(i as int).drop_last() == cps@.take((i - 1) as int));
    }
    assert(cps@.take(cps@.len() as int) == cps@);
    Some(out)
}

fn submit_header_bytes(phone: &str, srr: bool, udhi: bool) -> (out: Vec<u8>)
    ensures
        out@ == submit_header(phone@, srr, udhi),
{
    let mut pdu: Vec<u8> = Vec::new();
    pdu.push(0x00);
    let fo: u8 = if udhi {
        if srr { 0x61 } else { 0x41 }
    } else {
        if srr { 0x21 } else { 0x01 }
    };
    pdu.push(fo);
    pdu.push(0x00);
    encode_bcd_phone(phone, &mut pdu);
    assert(pdu@ =~= submit_header(phone@, srr, udhi));
    pdu
}

fn finish_pdu(pdu: &[u8]) -> (r: SmsSubmitPdu)
    requires
        pdu@.len() >= 1,
    ensures
        submit_pdu_matches(r, pdu@),
{
    SmsSubmitPdu { tpdu_len: (pdu.len() - 1) as u8, hex: bytes_to_hex(pdu) }
}

proof fn lemma_gsm7_chunks_shape(s: Seq<u8>, pos: int)
    requires
        0 <= pos <= s.len(),
    ensures
        forall|k: int|
            0 <= k < gsm7_chunks(s, pos).len() ==> pos <= (#[trigger] gsm7_chunks(s, pos)[k]).0
                < gsm7_chunks(s, pos)[k].1 <= s.len() && gsm7_chunks(s, pos)[k].1 - gsm7_chunks(
                s,
                pos,
            )[k].0 <= 153,
        gsm7_chunks(s, pos).len() <= s.len() - pos,
    decreases s.len() - pos,
{
    if pos < s.len() {
        let c = gsm7_chunk_len(s, pos);
        lemma_gsm7_chunks_shape(s, pos + c);
        let rest = gsm7_chunks(s, pos + c);
        assert forall|k: int| 0 <= k < gsm7_chunks(s, pos).len() implies pos <= (#[trigger] gsm7_chunks(s, pos)[k]).0
            < gsm7_chunks(s, pos)[k].1 <= s.len() && gsm7_chunks(s, pos)[k].1 - gsm7_chunks(s, pos)[k].0 <= 153 by {
            if k > 0 {
                assert(gsm7_chunks(s, pos)[k] == rest[k - 1]);
            }
        }
    }
}

proof fn lemma_ucs2_chunks_shape(u: Seq<u8>, pos: int)
    requires
        0 <= pos <= u.len(),
    ensures
        forall|k: int|
            0 <= k < ucs2_chunks(u, pos).len() ==> pos <= (#[trigger] ucs2_chunks(u, pos)[k]).0
                < ucs2_chunks(u, pos)[k].1 <= u.len() && ucs2_chunks(u, pos)[k].1 - ucs2_chunks(
                u,
                pos,
            )[k].0 <= 134,
        ucs2_chunks(u, pos).len() <= u.len() - pos,
    decreases u.len() - pos,
{
    if pos < u.len() {
        let c = ucs2_chunk_len(u, pos);
        lemma_ucs2_chunks_shape(u, pos + c);
        let rest = ucs2_chunks(u, pos + c);
        assert forall|k: int| 0 <= k < ucs2_chunks(u, pos).len() implies pos <= (#[trigger] ucs2_chunks(u, pos)[k]).0
            < ucs2_chunks(u, pos)[k].1 <= u.len() && ucs2_chunks(u, pos)[k].1 - ucs2_chunks(u, pos)[k].0 <= 134 by {
            if k > 0 {
                assert(ucs2_chunks(u, pos)[k] == rest[k - 1]);
            }
        }
    }
}

fn build_gsm7_pdus(phone: &str, septets: &[u8], max_parts: usize, srr: bool, concat_ref: u8) -> (r: Vec<SmsSubmitPdu>)
    requires
        septets@.len() < 0x1000_0000,
    ensures
        submit_pdus_match(r@, spec_gsm7_pdus(phone@, septets@, max_parts as int, srr, concat_ref)),
{
    let ghost s = septets@;
    if septets.len() <= 160 && max_parts < 1 {
        let out: Vec<SmsSubmitPdu> = Vec::new();
        proof {
            assert(submit_pdus_match(out@, spec_gsm7_pdus(phone@, s, max_parts as int, srr, concat_ref)));
        }
        return out;
    }
    if septets.len() <= 160 {
        let packed = pack_septets(septets, 0);
        let mut pdu = submit_header_bytes(phone, srr, false);
        pdu.push(0x00);
        pdu.push(0x00);
        pdu.push(septets.len() as u8);
        append_bytes(&mut pdu, packed.as_slice());
        let ghost expected = spec_gsm7_pdus(phone@, s, max_parts as int, srr, concat_ref);
        assert(pdu@ =~= expected[0]);
        let mut out: Vec<SmsSubmitPdu> = Vec::new();
        out.push(finish_pdu(pdu.as_slice()));
        return out;
    }
    // Multi-part: split into 153-septet chunks (ESC-safe)
    let mut slices: Vec<(usize, usize)> = Vec::new();
    let mut pos: usize = 0;
    while pos < septets.len()
        invariant
            pos <= s.len(),
            s == septets@,
            slices@.map_values(|c: (usize, usize)| (c.0 as int, c.1 as int)) + gsm7_chunks(s, pos as int)
                == gsm7_chunks(s, 0),
        decreases s.len() - pos,
    {
        let remaining = septets.len() - pos;
        let mut chunk = if remaining < 153 { remaining } else { 153 };
        if chunk == 153 && remaining > 153 {
            if septets[pos + 152] == 0x1B {
                chunk = 152;
            } else if septets[pos + 151] == 0x1B {
                chunk = 151;
            }
        }
        assert(chunk == gsm7_chunk_len(s, pos as int));
        let ghost before = slices@.map_values(|c: (usize, usize)| (c.0 as int, c.1 as int));
        slices.push((pos, pos + chunk));
        assert(slices@.map_values(|c: (usize, usize)| (c.0 as int, c.1 as int)) =~= before.push(
            (pos as int, (pos + chunk) as int),
        ));
        assert(gsm7_chunks(s, pos as int) == seq![(pos as int, (pos + chunk) as int)] + gsm7_chunks(
            s,
            pos + chunk,
        ));
        pos = pos + chunk;
    }
    let ghost chunks = gsm7_chunks(s, 0);
    assert(gsm7_chunks(s, pos as int) == Seq::<(int, int)>::empty());
    assert(slices@.map_values(|c: (usize, usize)| (c.0 as int, c.1 as int)) =~= chunks);
    proof {
        lemma_gsm7_chunks_shape(s, 0);
    }
    let total = slices.len();
    if total > max_parts {
        let out: Vec<SmsSubmitPdu> = Vec::new();
        return out;
    }
    let ghost expected = spec_gsm7_pdus(phone@, s, max_parts as int, srr, concat_ref);
    let mut result: Vec<SmsSubmitPdu> = Vec::new();
    let mut part_num: usize = 0;
    while part_num < total
        invariant
            s == septets@,
            s.len() > 160,
            total == slices@.len(),
            total <= max_parts,
            total == chunks.len(),
            chunks == gsm7_chunks(s, 0),
            slices@.map_values(|c: (usize, usize)| (c.0 as int, c.1 as int)) == chunks,
            forall|k: int|
                0 <= k < chunks.len() ==> 0 <= (#[trigger] chunks[k]).0 < chunks[k].1 <= s.len()
                    && chunks[k].1 - chunks[k].0 <= 153,
            expected == spec_gsm7_pdus(phone@, s, max_parts as int, srr, concat_ref),
            part_num <= total,
            result@.len() == part_num,
            forall|k: int| 0 <= k < part_num ==> #[trigger] submit_pdu_matches(result@[k], expected[k]),
        decreases total - part_num,
    {
        let (start, end) = slices[part_num];
        assert((start as int, end as int) == chunks[part_num as int]);
        let chunk = vstd::slice::slice_subrange(septets, start, end);
        let mut packed = pack_septets(chunk, 49);
        proof {
            let n = end - start;
            lemma_pack_prefix_len(chunk@, n as int, 49, packed_len(n as int, 49));
            assert(packed_len(n as int, 49) >= 7);
        }
        packed.set(0, 0x05);
        packed.set(1, 0x00);
        packed.set(2, 0x03);
        packed.set(3, concat_ref);
        packed.set(4, total as u8);
        packed.set(5, (part_num + 1) as u8);
        let udl = (7 + (end - start)) as u8;
        let mut pdu = submit_header_bytes(phone, srr, true);
        pdu.push(0x00);
        pdu.push(0x00);
        pdu.push(udl);
        append_bytes(&mut pdu, packed.as_slice());
        assert(packed@ =~= concat_udh(concat_ref, total as int, part_num + 1) + spec_pack_septets(
            s.subrange(start as int, end as int),
            49,
        ).skip(6));
        assert(pdu@ =~= expected[part_num as int]);
        result.push(finish_pdu(pdu.as_slice()));
        part_num = part_num + 1;
    }
    result
}

fn build_ucs2_pdus(phone: &str, ucs2: &[u8], max_parts: usize, srr: bool, concat_ref: u8) -> (r: Vec<SmsSubmitPdu>)
    ensures
        submit_pdus_match(r@, spec_ucs2_pdus(phone@, ucs2@, max_parts as int, srr, concat_ref)),
{
    let ghost u = ucs2@;
    if ucs2.len() <= 140 && max_parts < 1 {
        let out: Vec<SmsSubmitPdu> = Vec::new();
        proof {
            assert(submit_pdus_match(out@, spec_ucs2_pdus(phone@, u, max_parts as int, srr, concat_ref)));
        }
        return out;
    }
    if ucs2.len() <= 140 {
        let mut pdu = submit_header_bytes(phone, srr, false);
        pdu.push(0x00);
        pdu.push(0x08);
        pdu.push(ucs2.len() as u8);
        append_bytes(&mut pdu, ucs2);
        let ghost expected = spec_ucs2_pdus(phone@, u, max_parts as int, srr, concat_ref);
        assert(pdu@ =~= expected[0]);
        let mut out: Vec<SmsSubmitPdu> = Vec::new();
        out.push(finish_pdu(pdu.as_slice()));
        return out;
    }
    // Multi-part: 134-byte chunks (surrogate-safe)
    let mut slices: Vec<(usize, usize)> = Vec::new();
    let mut pos: usize = 0;
    while pos < ucs2.len()
        invariant
            pos <= u.len(),
            u == ucs2@,
            slices@.map_values(|c: (usize, usize)| (c.0 as int, c.1 as int)) + ucs2_chunks(u, pos as int)
                == ucs2_chunks(u, 0),
        decreases u.len() - pos,
    {
        let remaining = ucs2.len() - pos;
        let mut chunk = if remaining < 134 { remaining } else { 134 };
        if chunk == 134 && remaining > 134 {
            let hi: u16 = (ucs2[pos + 132] as u16) * 256 + ucs2[pos + 133] as u16;
            if 0xD800 <= hi && hi <= 0xDBFF {
                chunk = 132;
            }
        }
        assert(chunk == ucs2_chunk_len(u, pos as int));
        let ghost before = slices@.map_values(|c: (usize, usize)| (c.0 as int, c.1 as int));
        slices.push((pos, pos + chunk));
        assert(slices@.map_values(|c: (usize, usize)| (c.0 as int, c.1 as int)) =~= before.push(
            (pos as int, (pos + chunk) as int),
        ));
        assert(ucs2_chunks(u, pos as int) == seq![(pos as int, (pos + chunk) as int)] + ucs2_chunks(
            u,
            pos + chunk,
        ));
        pos = pos + chunk;
    }
    let ghost chunks = ucs2_chunks(u, 0);
    assert(ucs2_chunks(u, pos as int) == Seq::<(int, int)>::empty());
    assert(slices@.map_values(|c: (usize, usize)| (c.0 as int, c.1 as int)) =~= chunks);
    proof {
        lemma_ucs2_chunks_shape(u, 0);
    }
    let total = slices.len();
    if total > max_parts {
        let out: Vec<SmsSubmitPdu> = Vec::new();
        return out;
    }
    let ghost expected = spec_ucs2_pdus(phone@, u, max_parts as int, srr, concat_ref);
    let mut result: Vec<SmsSubmitPdu> = Vec::new();
    let mut part_num: usize = 0;
    while part_num < total
        invariant
            u == ucs2@,
            u.len() > 140,
            total == slices@.len(),
            total <= max_parts,
            total == chunks.len(),
            chunks == ucs2_chunks(u, 0),
            slices@.map_values(|c: (usize, usize)| (c.0 as int, c.1 as int)) == chunks,
            forall|k: int|
                0 <= k < chunks.len() ==> 0 <= (#[trigger] chunks[k]).0 < chunks[k].1 <= u.len()
                    && chunks[k].1 - chunks[k].0 <= 134,
            expected == spec_ucs2_pdus(phone@, u, max_parts as int, srr, concat_ref),
            part_num <= total,
            result@.len() == part_num,
            forall|k: int| 0 <= k < part_num ==> #[trigger] submit_pdu_matches(result@[k], expected[k]),
        decreases total - part_num,
    {
        let (start, end) = slices[part_num];
        assert((start as int, end as int) == chunks[part_num as int]);
        let chunk = vstd::slice::slice_subrange(ucs2, start, end);
        let udl = (6 + (end - start)) as u8;
        let mut pdu = submit_header_bytes(phone, srr, true);
        pdu.push(0x00);
        pdu.push(0x08);
        pdu.push(udl);
        pdu.push(0x05);
        pdu.push(0x00);
        pdu.push(0x03);
        pdu.push(concat_ref);
        pdu.push(total as u8);
        pdu.push((part_num + 1) as u8);
        append_bytes(&mut pdu, chunk);
        assert(pdu@ =~= expected[part_num as int]);
        result.push(finish_pdu(pdu.as_slice()));
        part_num = part_num + 1;
    }
    result
}

/// Build SMS-SUBMIT PDU(s) for the given phone and UTF-8 body.
/// Returns empty vec on error (empty inputs or body exceeds `max_parts`).
/// Multi-part messages carry `concat_ref` as their concatenation reference.
pub fn build_sms_submit_pdus(
    phone: &str,
    body: &str,
    max_parts: usize,
    request_status_report: bool,
    concat_ref: u8,
) -> (r: Vec<SmsSubmitPdu>)
    requires
        body@.len() < 0x0800_0000,
    ensures
        submit_pdus_match(
            r@,
            spec_submit_pdus(phone@, body@, max_parts as int, request_status_report, concat_ref),
        ),
{
    if phone.unicode_len() == 0 || body.unicode_len() == 0 {
        return Vec::new();
    }
    let cps = str_to_chars(body);
    match gsm7_septets_of(cps.as_slice()) {
        Some(gsm7) => {
            proof {
                lemma_gsm7_septets_len(cps@);
            }
            build_gsm7_pdus(phone, gsm7.as_slice(), max_parts, request_status_report, concat_ref)
        },
        None => {
            let ucs2 = code_points_to_utf16be(cps.as_slice());
            build_ucs2_pdus(phone, ucs2.as_slice(), max_parts, request_status_report, concat_ref)
        },
    }
}

proof fn lemma_gsm7_septets_len(cs: Seq<char>)
    ensures
        spec_gsm7_septets(cs).len() <= 2 * cs.len(),
    decreases cs.len(),
{
    if cs.len() > 0 {
        lemma_gsm7_septets_len(cs.drop_last());
    }
}

/// Return the number of SMS parts needed for `body` (0 on error).
pub fn count_sms_parts(body: &str, max_parts: usize) -> (n: usize)
    requires
        body@.len() < 0x0800_0000,
    ensures
        n == spec_submit_pdus("+1"@, body@, max_parts as int, false, 0).len(),
{
    build_sms_submit_pdus("+1", body, max_parts, false, 0).len()
}


// ---------------------------------------------------------------------------
// Phone number helpers
// ---------------------------------------------------------------------------

/// Every byte of `b` is an ASCII decimal digit.
pub open spec fn all_digit_bytes(b: Seq<u8>) -> bool {
    forall|i: int| 0 <= i < b.len() ==> 0x30 <= #[trigger] b[i] <= 0x39
}

/// `b` is 14 bytes long and starts with `+86`.
pub open spec fn is_cn_e164_bytes(b: Seq<u8>) -> bool {
    b.len() == 14 && b[0] == 0x2B && b[1] == 0x38 && b[2] == 0x36
}

/// Display form of a phone number: 11 national digits or `+86` plus 11 digits become
/// `+86 xxx-xxxx-xxxx`; anything else is shown as is.
pub open spec fn spec_human_readable_phone(s: Seq<char>) -> Seq<char> {
    let b = encode_utf8(s);
    if b.len() == 11 && all_digit_bytes(b) {
        seq!['+', '8', '6', ' '] + str_slice(b, 0, 3) + seq!['-'] + str_slice(b, 3, 7) + seq!['-']
            + str_slice(b, 7, 11)
    } else if is_cn_e164_bytes(b) {
        seq!['+', '8', '6', ' '] + str_slice(b, 3, 6) + seq!['-'] + str_slice(b, 6, 10) + seq!['-']
            + str_slice(b, 10, 14)
    } else {
        s
    }
}

/// The byte offsets at which a `+86` number is cut fall on character boundaries.
pub open spec fn human_readable_phone_defined(s: Seq<char>) -> bool {
    let b = encode_utf8(s);
    is_cn_e164_bytes(b) ==> is_char_boundary(b, 6) && is_char_boundary(b, 10)
}

proof fn lemma_ascii_prefix_boundary(b: Seq<u8>, i: int)
    requires
        vstd::utf8::valid_utf8(b),
        0 <= i <= b.len(),
        forall|k: int| 0 <= k < i ==> #[trigger] b[k] < 0x80,
    ensures
        is_char_boundary(b, i),
    decreases i,
{
    if i > 0 {
        let tail = b.subrange(1, b.len() as int);
        assert(vstd::utf8::pop_first_scalar(b) == tail);
        assert forall|k: int| 0 <= k < i - 1 implies #[trigger] tail[k] < 0x80 by {
            assert(tail[k] == b[k + 1]);
        }
        lemma_ascii_prefix_boundary(tail, i - 1);
    }
}

/// Checks `human_readable_phone_defined`: whether the display formatting can slice
/// the number.
pub fn phone_displayable(number: &str) -> (r: bool)
    ensures
        r == human_readable_phone_defined(number@),
{
    let b = number.as_bytes();
    if b.len() == 14 && b[0] == 0x2B && b[1] == 0x38 && b[2] == 0x36 {
        number.is_char_boundary(6) && number.is_char_boundary(10)
    } else {
        true
    }
}

/// Format a phone number for display in forwarded messages.
/// `xxxxxxxxxxx` (11 digits) → `+86 xxx-xxxx-xxxx`
pub fn human_readable_phone(number: &str) -> (r: String)
    requires
        human_readable_phone_defined(number@),
    ensures
        r@ == spec_human_readable_phone(number@),
{
    let b = number.as_bytes();
    let ghost bs = b@;
    proof {
        encode_utf8_valid_utf8(number@);
    }
    if b.len() == 11 {
        let mut all = true;
        let mut i: usize = 0;
        while i < 11
            invariant
                b@ == bs,
                bs.len() == 11,
                i <= 11,
                all == (forall|k: int| 0 <= k < i ==> 0x30 <= #[trigger] bs[k] <= 0x39),
            decreases 11 - i,
        {
            if !(0x30 <= b[i] && b[i] <= 0x39) {
                all = false;
            }
            i = i + 1;
        }
        if all {
            proof {
                lemma_ascii_prefix_boundary(bs, 3);
                lemma_ascii_prefix_boundary(bs, 7);
                lemma_ascii_prefix_boundary(bs, 0);
                lemma_ascii_prefix_boundary(bs, 11);
            }
            let mut out = new_string();
            push_str(&mut out, "+86 ");
            push_str(&mut out, str_byte_range(number, 0, 3));
            push_char(&mut out, '-');
            push_str(&mut out, str_byte_range(number, 3, 7));
            push_char(&mut out, '-');
            push_str(&mut out, str_byte_range(number, 7, 11));
            proof {
                reveal_strlit("+86 ");
            }
            assert(out@ =~= spec_human_readable_phone(number@));
            return out;
        }
    }
    if b.len() == 14 && b[0] == 0x2B && b[1] == 0x38 && b[2] == 0x36 {
        proof {
            lemma_ascii_prefix_boundary(bs, 3);
            vstd::utf8::is_char_boundary_start_end_of_seq(bs);
        }
        let mut out = new_string();
        push_str(&mut out, "+86 ");
        push_str(&mut out, str_byte_range(number, 3, 6));
        push_char(&mut out, '-');
        push_str(&mut out, str_byte_range(number, 6, 10));
        push_char(&mut out, '-');
        push_str(&mut out, str_byte_range(number, 10, 14));
        proof {
            reveal_strlit("+86 ");
        }
        assert(out@ =~= spec_human_readable_phone(number@));
        return out;
    }
    crate::strutil::to_owned_string(number)
}

/// The `+` signs and ASCII digits of `s`, in order.
pub open spec fn phone_chars(s: Seq<char>) -> Seq<char>
    decreases s.len(),
{
    if s.len() == 0 {
        Seq::empty()
    } else if s.last() == '+' || is_ascii_digit(s.last()) {
        phone_chars(s.drop_last()).push(s.last())
    } else {
        phone_chars(s.drop_last())
    }
}

/// Formatting characters dropped; a leading `00` becomes `+`.
pub open spec fn spec_normalize_phone(s: Seq<char>) -> Seq<char> {
    let f = phone_chars(s);
    if f.len() >= 2 && f[0] == '0' && f[1] == '0' {
        seq!['+'] + f.skip(2)
    } else {
        f
    }
}

/// Strip formatting characters; convert leading "00" to "+".
pub fn normalize_phone(raw: &str) -> (r: String)
    ensures
        r@ == spec_normalize_phone(raw@),
{
    let cs = str_to_chars(raw);
    let mut kept: Vec<char> = Vec::new();
    let mut i: usize = 0;
    while i < cs.len()
        invariant
            i <= cs@.len(),
            kept@ == phone_chars(cs@.take(i as int)),
        decreases cs@.len() - i,
    {
        let c = cs[i];
        if c == '+' || (48 <= (c as u32) && (c as u32) <= 57) {
            kept.push(c);
        }
        i = i + 1;
        assert(cs@.take(i as int).last() == c);
        assert(cs@.take(i as int).drop_last() =~= cs@.take(i - 1));
    }
    assert(cs@.take(cs@.len() as int) =~= cs@);
    if kept.len() >= 2 && kept[0] == '0' && kept[1] == '0' {
        let mut out = new_string();
        push_char(&mut out, '+');
        let rest = chars_to_string(vstd::slice::slice_subrange(kept.as_slice(), 2, kept.len()));
        push_str(&mut out, rest.as_str());
        assert(out@ =~= spec_normalize_phone(raw@));
        out
    } else {
        chars_to_string(kept.as_slice())
    }
}

// ---------------------------------------------------------------------------
// Timestamps
// ---------------------------------------------------------------------------

/// The date and time fields of a `yy/MM/dd,HH:mm:ss` stamp can be cut out at their byte
/// offsets.
pub open spec fn ts_fields_sliceable(b: Seq<u8>) -> bool {
    b.len() >= 17 ==> {
        &&& is_char_boundary(b, 2)
        &&& is_char_boundary(b, 3)
        &&& is_char_boundary(b, 5)
        &&& is_char_boundary(b, 6)
        &&& is_char_boundary(b, 8)
        &&& is_char_boundary(b, 9)
        &&& is_char_boundary(b, 11)
        &&& is_char_boundary(b, 12)
        &&& is_char_boundary(b, 14)
        &&& is_char_boundary(b, 15)
        &&& is_char_boundary(b, 17)
    }
}

/// Magnitude of a UTC offset in minutes.
pub open spec fn abs_minutes(m: i32) -> nat {
    if m < 0 { (-(m as int)) as nat } else { m as nat }
}

/// `20yy-MM-ddTHH:mm:ss±hh:mm` for a modem time stamp and a UTC offset in minutes; empty
/// when the stamp is shorter than 17 bytes.
pub open spec fn spec_timestamp_to_rfc3339(ts: Seq<char>, gmt_offset_minutes: i32) -> Seq<char> {
    let b = encode_utf8(ts);
    if b.len() < 17 {
        Seq::empty()
    } else {
        seq!['2', '0'] + str_slice(b, 0, 2) + seq!['-'] + str_slice(b, 3, 5) + seq!['-'] + str_slice(
            b,
            6,
            8,
        ) + seq!['T'] + str_slice(b, 9, 11) + seq![':'] + str_slice(b, 12, 14) + seq![':']
            + str_slice(b, 15, 17) + seq![if gmt_offset_minutes < 0 { '-' } else { '+' }]
            + spec_decimal_pad2(abs_minutes(gmt_offset_minutes) / 60) + seq![':'] + spec_decimal_pad2(
            abs_minutes(gmt_offset_minutes) % 60,
        )
    }
}

/// Convert a CMGR/PDU timestamp to RFC 3339.
/// `gmt_offset_minutes` is e.g. 480 for UTC+8, -300 for UTC-5.
pub fn timestamp_to_rfc3339(ts: &str, gmt_offset_minutes: i32) -> (r: String)
    requires
        ts_fields_sliceable(encode_utf8(ts@)),
    ensures
        r@ == spec_timestamp_to_rfc3339(ts@, gmt_offset_minutes),
{
    let b = ts.as_bytes();
    if b.len() < 17 {
        return new_string();
    }
    proof {
        encode_utf8_valid_utf8(ts@);
        vstd::utf8::is_char_boundary_start_end_of_seq(b@);
    }
    let abs_mins: u32 = if gmt_offset_minutes < 0 {
        (-(gmt_offset_minutes as i64)) as u32
    } else {
        gmt_offset_minutes as u32
    };
    let abs_h = abs_mins / 60;
    let abs_m = abs_mins % 60;
    let mut out = new_string();
    push_char(&mut out, '2');
    push_char(&mut out, '0');
    push_str(&mut out, str_byte_range(ts, 0, 2));
    push_char(&mut out, '-');
    push_str(&mut out, str_byte_range(ts, 3, 5));
    push_char(&mut out, '-');
    push_str(&mut out, str_byte_range(ts, 6, 8));
    push_char(&mut out, 'T');
    push_str(&mut out, str_byte_range(ts, 9, 11));
    push_char(&mut out, ':');
    push_str(&mut out, str_byte_range(ts, 12, 14));
    push_char(&mut out, ':');
    push_str(&mut out, str_byte_range(ts, 15, 17));
    push_char(&mut out, if gmt_offset_minutes < 0 { '-' } else { '+' });
    push_decimal_pad2(&mut out, abs_h as u64);
    push_char(&mut out, ':');
    push_decimal_pad2(&mut out, abs_m as u64);
    assert(out@ =~= spec_timestamp_to_rfc3339(ts@, gmt_offset_minutes));
    out
}


/// Appends the RFC 3339 form of a modem time stamp; returns false, appending nothing,
/// when the stamp is shorter than 17 bytes.
pub fn push_timestamp_rfc3339(out: &mut String, ts: &str, gmt_offset_minutes: i32) -> (r: bool)
    requires
        ts_fields_sliceable(encode_utf8(ts@)),
    ensures
        r == (encode_utf8(ts@).len() >= 17),
        r ==> final(out)@ == old(out)@ + spec_timestamp_to_rfc3339(ts@, gmt_offset_minutes),
        !r ==> final(out)@ == old(out)@,
{
    let n = ts.as_bytes().len();
    assert(n == encode_utf8(ts@).len());
    if n < 17 {
        return false;
    }
    let s = timestamp_to_rfc3339(ts, gmt_offset_minutes);
    crate::strutil::push_str(out, s.as_str());
    true
}

/// A two-character field parsed as an integer, 0 when it does not parse.
pub open spec fn field_value(b: Seq<u8>, i: int, j: int) -> int {
    match spec_parse_i64(str_slice(b, i, j)) {
        Some(v) => v,
        None => 0,
    }
}

/// Days in the months of a non-leap year before month `mo` (1-based).
pub open spec fn days_before_month(mo: int) -> int {
    if mo <= 1 { 0 }
    else if mo == 2 { 31 }
    else if mo == 3 { 59 }
    else if mo == 4 { 90 }
    else if mo == 5 { 120 }
    else if mo == 6 { 151 }
    else if mo == 7 { 181 }
    else if mo == 8 { 212 }
    else if mo == 9 { 243 }
    else if mo == 10 { 273 }
    else if mo == 11 { 304 }
    else { 334 }
}

/// Gregorian leap years.
pub open spec fn is_leap_year(year: int) -> bool {
    (year % 4 == 0 && year % 100 != 0) || year % 400 == 0
}

/// Days from 1970-01-01 to the given date.
pub open spec fn days_since_epoch(year: int, mo: int, dd: int) -> int {
    let leaps = (year - 1) / 4 - (year - 1) / 100 + (year - 1) / 400 - 477;
    let doy = days_before_month(mo) + dd - 1 + if mo > 2 && is_leap_year(year) { 1int } else { 0int };
    (year - 1970) * 365 + leaps + doy
}

/// The fields of a stamp pass the range checks.
pub open spec fn ts_fields_valid(b: Seq<u8>) -> bool {
    let mo = field_value(b, 3, 5);
    let dd = field_value(b, 6, 8);
    1 <= mo <= 12 && 1 <= dd <= 31 && field_value(b, 9, 11) <= 23 && field_value(b, 12, 14) <= 59
        && field_value(b, 15, 17) <= 60
}

/// Local seconds since the epoch named by the date and time fields.
pub open spec fn ts_local_seconds(b: Seq<u8>) -> int {
    days_since_epoch(2000 + field_value(b, 0, 2), field_value(b, 3, 5), field_value(b, 6, 8))
        * 86400 + field_value(b, 9, 11) * 3600 + field_value(b, 12, 14) * 60 + field_value(b, 15, 17)
}

/// Signed quarter-hour count after the sign byte, 0 when it does not parse.
pub open spec fn ts_tz_quarters(b: Seq<u8>) -> int {
    let raw = match spec_parse_i64(str_slice(b, 18, b.len() as int)) {
        Some(v) => v,
        None => 0,
    };
    if b[17] == 0x2D { -raw } else { raw }
}

/// UTC seconds since the epoch for a `yy/MM/dd,HH:mm:ss±zz` stamp; 0 when the stamp is
/// shorter than 17 bytes or a field is out of range.
pub open spec fn spec_pdu_timestamp_to_unix(b: Seq<u8>) -> int {
    if b.len() < 17 || !ts_fields_valid(b) {
        0
    } else if b.len() >= 18 {
        ts_local_seconds(b) - ts_tz_quarters(b) * 15 * 60
    } else {
        ts_local_seconds(b)
    }
}

/// The stamp can be cut at its field offsets, and the zone arithmetic stays in `i64`.
pub open spec fn pdu_timestamp_defined(b: Seq<u8>) -> bool {
    &&& ts_fields_sliceable(b)
    &&& (b.len() >= 18 && ts_fields_valid(b)) ==> {
        &&& is_char_boundary(b, 18)
        &&& i64::MIN <= ts_tz_quarters(b) * 15 * 60 <= i64::MAX
        &&& i64::MIN <= ts_local_seconds(b) - ts_tz_quarters(b) * 15 * 60 <= i64::MAX
    }
}

fn field_at(ts: &str, i: usize, j: usize) -> (v: i64)
    requires
        i <= j <= encode_utf8(ts@).len(),
        is_char_boundary(encode_utf8(ts@), i as int),
        is_char_boundary(encode_utf8(ts@), j as int),
    ensures
        v == field_value(encode_utf8(ts@), i as int, j as int),
        vstd::utf8::valid_utf8(encode_utf8(ts@).subrange(i as int, j as int)),
{
    match parse_i64(str_byte_range(ts, i, j)) {
        Some(v) => v,
        None => 0,
    }
}

fn days_before_month_exec(mo: i64) -> (d: i64)
    requires
        1 <= mo <= 12,
    ensures
        d == days_before_month(mo as int),
{
    if mo == 1 { 0 }
    else if mo == 2 { 31 }
    else if mo == 3 { 59 }
    else if mo == 4 { 90 }
    else if mo == 5 { 120 }
    else if mo == 6 { 151 }
    else if mo == 7 { 181 }
    else if mo == 8 { 212 }
    else if mo == 9 { 243 }
    else if mo == 10 { 273 }
    else if mo == 11 { 304 }
    else { 334 }
}

/// Convert a PDU timestamp to a UTC Unix timestamp (seconds since epoch).
/// Returns 0 on parse error.
pub fn pdu_timestamp_to_unix(ts: &str) -> (r: i64)
    requires
        pdu_timestamp_defined(encode_utf8(ts@)),
    ensures
        r == spec_pdu_timestamp_to_unix(encode_utf8(ts@)),
{
    let b = ts.as_bytes();
    let ghost bs = b@;
    if b.len() < 17 {
        return 0;
    }
    proof {
        encode_utf8_valid_utf8(ts@);
        vstd::utf8::is_char_boundary_start_end_of_seq(bs);
    }
    let yy = field_at(ts, 0, 2);
    let mo = field_at(ts, 3, 5);
    let dd = field_at(ts, 6, 8);
    let hh = field_at(ts, 9, 11);
    let mm = field_at(ts, 12, 14);
    let ss = field_at(ts, 15, 17);
    if !(1 <= mo && mo <= 12) || !(1 <= dd && dd <= 31) || hh > 23 || mm > 59 || ss > 60 {
        return 0;
    }
    proof {
        lemma_two_char_field_bounds(bs, 0, 2);
        lemma_two_char_field_bounds(bs, 9, 11);
        lemma_two_char_field_bounds(bs, 12, 14);
        lemma_two_char_field_bounds(bs, 15, 17);
    }
    let year: i64 = 2000 + yy;
    let is_leap = (year % 4 == 0 && year % 100 != 0) || year % 400 == 0;
    let leaps: i64 = (year - 1) / 4 - (year - 1) / 100 + (year - 1) / 400 - (1969 / 4 - 1969 / 100
        + 1969 / 400);
    let doy: i64 = days_before_month_exec(mo) + dd - 1 + if mo > 2 && is_leap { 1 } else { 0 };
    let days: i64 = (year - 1970) * 365 + leaps + doy;
    let local: i64 = days * 86400 + hh * 3600 + mm * 60 + ss;
    assert(local == ts_local_seconds(bs));
    if b.len() >= 18 {
        let sign: i64 = if b[17] == 0x2D { -1 } else { 1 };
        let raw: i64 = match parse_i64(str_byte_range(ts, 18, b.len())) {
            Some(v) => v,
            None => 0,
        };
        proof {
            assert(sign * raw == ts_tz_quarters(bs)) by (nonlinear_arith)
                requires
                    sign == -1 || sign == 1,
                    sign == -1 ==> ts_tz_quarters(bs) == -raw,
                    sign == 1 ==> ts_tz_quarters(bs) == raw,
            ;
        }
        let tz_offset_min: i64 = sign * raw * 15;
        local - tz_offset_min * 60
    } else {
        local
    }
}

/// A field of at most two characters parses to a value in -9..=99.
proof fn lemma_two_char_field_bounds(b: Seq<u8>, i: int, j: int)
    requires
        j - i == 2,
        0 <= i,
        j <= b.len(),
        vstd::utf8::valid_utf8(b.subrange(i, j)),
    ensures
        -9 <= field_value(b, i, j) <= 99,
{
    let cs = str_slice(b, i, j);
    lemma_decode_len_le(b.subrange(i, j));
    lemma_parse_small(cs);
}

proof fn lemma_decode_len_le(bytes: Seq<u8>)
    requires
        vstd::utf8::valid_utf8(bytes),
    ensures
        vstd::utf8::decode_utf8(bytes).len() <= bytes.len(),
    decreases bytes.len(),
{
    if bytes.len() > 0 {
        lemma_decode_len_le(vstd::utf8::pop_first_scalar(bytes));
    }
}

proof fn lemma_parse_small(cs: Seq<char>)
    requires
        cs.len() <= 2,
    ensures
        spec_parse_i64(cs) matches Some(v) ==> -9 <= v <= 99,
{
    let signed = cs.len() > 0 && (cs[0] == '-' || cs[0] == '+');
    let d = if signed { cs.skip(1) } else { cs };
    if d.len() > 0 && crate::strutil::all_dec_digits(d) {
        assert(crate::strutil::is_dec_digit(d[0]));
        let v0 = d[0] as u32 - 48;
        assert(d.take(1).drop_last() =~= Seq::<char>::empty());
        assert(d.take(1).last() == d[0]);
        assert(crate::strutil::digits_value(Seq::<char>::empty()) == 0);
        assert(crate::strutil::digits_value(d.take(1)) == v0);
        if d.len() == 2 {
            assert(crate::strutil::is_dec_digit(d[1]));
            assert(d.drop_last() =~= d.take(1));
            assert(d.last() == d[1]);
            assert(crate::strutil::digits_value(d) == v0 * 10 + (d[1] as u32 - 48));
        } else {
            assert(d =~= d.take(1));
        }
    }
}


// ---------------------------------------------------------------------------
// CLIP
// ---------------------------------------------------------------------------

/// The number of a `+CLIP: "<number>",...` line: the text between the first two double
/// quotes, when the line starts with `+CLIP:` and a comma follows the closing quote.
pub open spec fn spec_parse_clip_line(line: Seq<char>) -> Option<Seq<char>> {
    let tag = seq!['+', 'C', 'L', 'I', 'P', ':'];
    if !(line.len() >= 6 && line.take(6) == tag) {
        None
    } else {
        let q1 = find_char_from(line, '"', 0);
        if q1 < 0 {
            None
        } else {
            let rest = line.skip(q1 + 1);
            let q2 = find_char_from(rest, '"', 0);
            if q2 < 0 {
                None
            } else if q2 + 1 < rest.len() && rest[q2 + 1] == ',' {
                Some(rest.take(q2))
            } else {
                None
            }
        }
    }
}

/// Parse a +CLIP URC line. Returns the caller number (may be empty for withheld).
pub fn parse_clip_line(line: &str) -> (r: Option<String>)
    ensures
        match spec_parse_clip_line(line@) {
            Some(n) => r matches Some(s) && s@ == n,
            None => r is None,
        },
{
    let cs = str_to_chars(line);
    let tag = ['+', 'C', 'L', 'I', 'P', ':'];
    if !crate::strutil::chars_start_with(cs.as_slice(), tag.as_slice()) {
        assert(tag@ =~= seq!['+', 'C', 'L', 'I', 'P', ':']);
        return None;
    }
    assert(tag@ =~= seq!['+', 'C', 'L', 'I', 'P', ':']);
    let q1 = match find_char_at(cs.as_slice(), '"', 0) {
        Some(q) => q,
        None => return None,
    };
    proof {
        lemma_find_char_range(cs@, '"', 0);
    }
    assert(q1 < cs.len());
    let rest = vstd::slice::slice_subrange(cs.as_slice(), q1 + 1, cs.len());
    assert(rest@ =~= cs@.skip(q1 + 1));
    let q2 = match find_char_at(rest, '"', 0) {
        Some(q) => q,
        None => return None,
    };
    proof {
        lemma_find_char_range(rest@, '"', 0);
    }
    if q2 + 1 < rest.len() && rest[q2 + 1] == ',' {
        let head = vstd::slice::slice_subrange(rest, 0, q2);
        assert(head@ =~= rest@.take(q2 as int));
        let num = chars_to_string(head);
        Some(num)
    } else {
        None
    }
}

// ---------------------------------------------------------------------------
// SMS-STATUS-REPORT parser
// ---------------------------------------------------------------------------

/// Mathematical model of a parsed status report.
pub struct SpecStatusReport {
    pub message_ref: u8,
    pub recipient: Seq<char>,
    pub sc_timestamp: Seq<char>,
    pub discharge_time: Seq<char>,
    pub status: u8,
    pub delivered: bool,
    pub status_text: Seq<char>,
}

impl View for StatusReport {
    type V = SpecStatusReport;

    open spec fn view(&self) -> SpecStatusReport {
        SpecStatusReport {
            message_ref: self.message_ref,
            recipient: self.recipient@,
            sc_timestamp: self.sc_timestamp@,
            discharge_time: self.discharge_time@,
            status: self.status,
            delivered: self.delivered,
            status_text: self.status_text@,
        }
    }
}

/// Why a status report was rejected.
#[derive(Debug, Clone, Copy)]
pub enum ReportFault {
    InvalidHex,
    Empty,
    TruncatedFirstOctet,
    NotStatusReport,
    TruncatedMr,
    TruncatedRa,
    RaBytesTruncated,
    TimestampsTruncated,
    StatusMissing,
}

/// The message carried by `SmsError::MalformedPdu` for each status-report fault.
pub open spec fn report_fault_text(f: ReportFault) -> Seq<char> {
    match f {
        ReportFault::InvalidHex => "invalid hex in status report"@,
        ReportFault::Empty => "empty status report"@,
        ReportFault::TruncatedFirstOctet => "truncated SR first octet"@,
        ReportFault::NotStatusReport => "not a STATUS-REPORT"@,
        ReportFault::TruncatedMr => "truncated SR MR"@,
        ReportFault::TruncatedRa => "truncated SR RA"@,
        ReportFault::RaBytesTruncated => "SR RA bytes truncated"@,
        ReportFault::TimestampsTruncated => "SR timestamps truncated"@,
        ReportFault::StatusMissing => "SR status byte missing"@,
    }
}

fn report_fault_message(f: ReportFault) -> (m: &'static str)
    ensures
        m@ == report_fault_text(f),
{
    match f {
        ReportFault::InvalidHex => "invalid hex in status report",
        ReportFault::Empty => "empty status report",
        ReportFault::TruncatedFirstOctet => "truncated SR first octet",
        ReportFault::NotStatusReport => "not a STATUS-REPORT",
        ReportFault::TruncatedMr => "truncated SR MR",
        ReportFault::TruncatedRa => "truncated SR RA",
        ReportFault::RaBytesTruncated => "SR RA bytes truncated",
        ReportFault::TimestampsTruncated => "SR timestamps truncated",
        ReportFault::StatusMissing => "SR status byte missing",
    }
}

/// The character `'0' + n` used for a recipient semi-octet.
pub open spec fn nibble_char(n: u8) -> char {
    ((48 + n) as u8) as char
}

/// Recipient digits from the first `k` address bytes: low then high nibble, the high one
/// only while fewer than `ra_digits` digits were written.
pub open spec fn sr_digits(d: Seq<u8>, k: int, ra_digits: int) -> Seq<char>
    decreases k,
{
    if k <= 0 {
        Seq::empty()
    } else {
        let byte = d[k - 1];
        let lo = seq![nibble_char(byte & 0x0F)];
        let hi = if 2 * (k - 1) + 1 < ra_digits {
            seq![nibble_char((byte >> 4) & 0x0F)]
        } else {
            Seq::empty()
        };
        sr_digits(d, k - 1, ra_digits) + lo + hi
    }
}

/// Lower-case two-digit hex of a byte, `0x`-prefixed (`{:#04x}`).
pub open spec fn hex_byte_lower(st: u8) -> Seq<char> {
    seq!['0', 'x', hex_digit_lower(st >> 4), hex_digit_lower(st & 0x0F)]
}

/// Lower-case hex digit.
pub open spec fn hex_digit_lower(n: u8) -> char {
    if n < 10 { ((48 + n) as u8) as char } else { ((87 + n) as u8) as char }
}

/// Human-readable text of a TP-Status value.
pub open spec fn spec_sr_status_text(st: u8) -> Seq<char> {
    if st == 0x00 {
        "delivered"@
    } else if st == 0x01 {
        "forwarded, unconfirmed"@
    } else if st == 0x02 {
        "replaced"@
    } else if 0x20 <= st <= 0x2F {
        if st == 0x20 {
            "temporary failure, still trying (congestion)"@
        } else if st == 0x21 {
            "temporary failure, still trying (SME busy)"@
        } else {
            "temporary failure, still trying ("@ + hex_byte_lower(st) + ")"@
        }
    } else if 0x40 <= st <= 0x4F {
        if st == 0x40 {
            "permanent failure (remote procedure error)"@
        } else if st == 0x41 {
            "permanent failure (incompatible destination)"@
        } else {
            "permanent failure ("@ + hex_byte_lower(st) + ")"@
        }
    } else if 0x60 <= st <= 0x6F {
        if st == 0x60 {
            "temporary failure, stopped trying (congestion)"@
        } else {
            "temporary failure, stopped trying ("@ + hex_byte_lower(st) + ")"@
        }
    } else {
        "unknown status "@ + hex_byte_lower(st)
    }
}

pub(crate) fn hex_digit_lower_exec(n: u8) -> (c: char)
    requires
        n < 16,
    ensures
        c == hex_digit_lower(n),
{
    if n < 10 { (48 + n) as char } else { (87 + n) as char }
}

fn push_hex_byte_lower(out: &mut String, st: u8)
    ensures
        final(out)@ == old(out)@ + hex_byte_lower(st),
{
    assert(st >> 4 < 16 && st & 0x0F < 16) by (bit_vector);
    push_char(out, '0');
    push_char(out, 'x');
    push_char(out, hex_digit_lower_exec(st >> 4));
    push_char(out, hex_digit_lower_exec(st & 0x0F));
    assert(final(out)@ =~= old(out)@ + hex_byte_lower(st));
}

fn sr_status_text(st: u8) -> (r: String)
    ensures
        r@ == spec_sr_status_text(st),
{
    let mut out = new_string();
    if st == 0x00 {
        push_str(&mut out, "delivered");
    } else if st == 0x01 {
        push_str(&mut out, "forwarded, unconfirmed");
    } else if st == 0x02 {
        push_str(&mut out, "replaced");
    } else if 0x20 <= st && st <= 0x2F {
        if st == 0x20 {
            push_str(&mut out, "temporary failure, still trying (congestion)");
        } else if st == 0x21 {
            push_str(&mut out, "temporary failure, still trying (SME busy)");
        } else {
            push_str(&mut out, "temporary failure, still trying (");
            push_hex_byte_lower(&mut out, st);
            push_str(&mut out, ")");
        }
    } else if 0x40 <= st && st <= 0x4F {
        if st == 0x40 {
            push_str(&mut out, "permanent failure (remote procedure error)");
        } else if st == 0x41 {
            push_str(&mut out, "permanent failure (incompatible destination)");
        } else {
            push_str(&mut out, "permanent failure (");
            push_hex_byte_lower(&mut out, st);
            push_str(&mut out, ")");
        }
    } else if 0x60 <= st && st <= 0x6F {
        if st == 0x60 {
            push_str(&mut out, "temporary failure, stopped trying (congestion)");
        } else {
            push_str(&mut out, "temporary failure, stopped trying (");
            push_hex_byte_lower(&mut out, st);
            push_str(&mut out, ")");
        }
    } else {
        push_str(&mut out, "unknown status ");
        push_hex_byte_lower(&mut out, st);
    }
    assert(out@ =~= spec_sr_status_text(st));
    out
}

/// The SMS-STATUS-REPORT spelled by `b` (SCA, first octet, MR, RA, SCTS, DT, ST), or why
/// the bytes are not one.
pub open spec fn spec_parse_status_report(b: Seq<u8>) -> Result<SpecStatusReport, ReportFault> {
    let n = b.len() as int;
    if n == 0 {
        Err(ReportFault::Empty)
    } else {
        let p1 = 1 + b[0] as int;
        if p1 >= n {
            Err(ReportFault::TruncatedFirstOctet)
        } else if (b[p1] & 0x03) != 0x02 {
            Err(ReportFault::NotStatusReport)
        } else if p1 + 1 >= n {
            Err(ReportFault::TruncatedMr)
        } else if p1 + 3 >= n {
            Err(ReportFault::TruncatedRa)
        } else {
            let ra_digits = b[p1 + 2] as int;
            let ra_toa = b[p1 + 3];
            let ra_bytes = (ra_digits + 1) / 2;
            let p = p1 + 4;
            if p + ra_bytes > n {
                Err(ReportFault::RaBytesTruncated)
            } else {
                let q = p + ra_bytes;
                if q + 14 > n {
                    Err(ReportFault::TimestampsTruncated)
                } else if q + 14 >= n {
                    Err(ReportFault::StatusMissing)
                } else {
                    let status = b[q + 14];
                    Ok(SpecStatusReport {
                        message_ref: b[p1 + 1],
                        recipient: (if (ra_toa & 0x70) == 0x10 { seq!['+'] } else { Seq::empty() })
                            + sr_digits(b.subrange(p, q), ra_bytes, ra_digits),
                        sc_timestamp: spec_scts(b.subrange(q, q + 7)),
                        discharge_time: spec_scts(b.subrange(q + 7, q + 14)),
                        status,
                        delivered: status == 0,
                        status_text: spec_sr_status_text(status),
                    })
                }
            }
        }
    }
}

/// Parsing of a hex-encoded status report.
pub open spec fn spec_parse_status_report_hex(hex: Seq<char>) -> Result<SpecStatusReport, ReportFault> {
    match spec_hex_to_bytes(hex) {
        None => Err(ReportFault::InvalidHex),
        Some(b) => spec_parse_status_report(b),
    }
}

fn report_error(f: ReportFault) -> (e: SmsError)
    ensures
        e matches SmsError::MalformedPdu(m) && m@ == report_fault_text(f),
{
    SmsError::MalformedPdu(report_fault_message(f))
}

fn decode_sr_recipient(raw: &[u8], pos: usize, ra_bytes: usize, ra_digits: usize, ra_toa: u8) -> (recipient: String)
    requires
        pos + ra_bytes <= raw@.len(),
        ra_digits <= 255,
        ra_bytes == (ra_digits + 1) / 2,
    ensures
        recipient@ == (if (ra_toa & 0x70) == 0x10 { seq!['+'] } else { Seq::<char>::empty() })
            + sr_digits(raw@.subrange(pos as int, (pos + ra_bytes) as int), ra_bytes as int, ra_digits as int),
{
    let mut recipient = new_string();
    if (ra_toa & 0x70) == 0x10 {
        push_char(&mut recipient, '+');
    }
    let ghost prefix = recipient@;
    let ghost ra = raw@.subrange(pos as int, (pos + ra_bytes) as int);
    let mut k: usize = 0;
    while k < ra_bytes
        invariant
            pos + ra_bytes <= raw.len(),
            ra == raw@.subrange(pos as int, (pos + ra_bytes) as int),
            k <= ra_bytes,
            ra_bytes <= 128,
            recipient@ == prefix + sr_digits(ra, k as int, ra_digits as int),
        decreases ra_bytes - k,
    {
        let byte = raw[pos + k];
        assert(byte == ra[k as int]);
        assert(byte & 0x0F < 16 && (byte >> 4) & 0x0F < 16) by (bit_vector);
        let d1 = byte & 0x0F;
        let d2 = (byte >> 4) & 0x0F;
        push_char(&mut recipient, (48 + d1) as char);
        if k * 2 + 1 < ra_digits {
            push_char(&mut recipient, (48 + d2) as char);
        }
        k = k + 1;
        assert(recipient@ =~= prefix + sr_digits(ra, k as int, ra_digits as int));
    }
    recipient
}

/// Parse a hex-encoded SMS-STATUS-REPORT PDU (+CDS URC).
#[verifier::rlimit(60)]
#[verifier::spinoff_prover]
pub fn parse_status_report(hex_pdu: &str) -> (r: Result<StatusReport, SmsError>)
    ensures
        r is Ok <==> spec_parse_status_report_hex(hex_pdu@) is Ok,
        r matches Ok(p) ==> spec_parse_status_report_hex(hex_pdu@) == Ok::<SpecStatusReport, ReportFault>(p@),
        r matches Err(e) ==> (spec_parse_status_report_hex(hex_pdu@) matches Err(f)
            && e matches SmsError::MalformedPdu(m) && m@ == report_fault_text(f)),
{
    let raw = match hex_to_bytes(hex_pdu) {
        Some(b) => b,
        None => return Err(report_error(ReportFault::InvalidHex)),
    };
    let ghost b = raw@;
    let n = raw.len();
    let mut pos: usize = 0;
    if pos >= n {
        return Err(report_error(ReportFault::Empty));
    }
    let sca_len = raw[pos] as usize;
    pos = pos + 1 + sca_len;
    if pos >= n {
        return Err(report_error(ReportFault::TruncatedFirstOctet));
    }
    let first = raw[pos];
    pos = pos + 1;
    if (first & 0x03) != 0x02 {
        return Err(report_error(ReportFault::NotStatusReport));
    }
    if pos >= n {
        return Err(report_error(ReportFault::TruncatedMr));
    }
    let message_ref = raw[pos];
    pos = pos + 1;
    if pos + 1 >= n {
        return Err(report_error(ReportFault::TruncatedRa));
    }
    let ra_digits = raw[pos] as usize;
    pos = pos + 1;
    let ra_toa = raw[pos];
    pos = pos + 1;
    let ra_bytes = (ra_digits + 1) / 2;
    if pos + ra_bytes > n {
        return Err(report_error(ReportFault::RaBytesTruncated));
    }
    let recipient = decode_sr_recipient(raw.as_slice(), pos, ra_bytes, ra_digits, ra_toa);
    pos = pos + ra_bytes;
    if pos + 14 > n {
        return Err(report_error(ReportFault::TimestampsTruncated));
    }
    let sc_timestamp = decode_scts(vstd::slice::slice_subrange(raw.as_slice(), pos, pos + 7));
    pos = pos + 7;
    let discharge_time = decode_scts(vstd::slice::slice_subrange(raw.as_slice(), pos, pos + 7));
    pos = pos + 7;
    if pos >= n {
        return Err(report_error(ReportFault::StatusMissing));
    }
    let status = raw[pos];
    let delivered = status == 0x00;
    let status_text = sr_status_text(status);
    let rep = StatusReport {
        message_ref,
        recipient,
        sc_timestamp,
        discharge_time,
        status,
        delivered,
        status_text,
    };
    assert(rep@ == spec_parse_status_report(b)->Ok_0);
    Ok(rep)
}

/// The septets of one encodable character decode back to it: a single septet below
/// 128 that is not ESC, or ESC and an extension-table septet.
#[verifier::rlimit(100)]
#[verifier::spinoff_prover]
proof fn lemma_gsm7_unit(c: char)
    requires
        spec_gsm7_encode(c as u32).len() > 0,
    ensures
        ({
            let e = spec_gsm7_encode(c as u32);
            (e.len() == 1 && e[0] != 0x1B && e[0] < 128 && gsm7_basic(e[0]) == c) || (e.len() == 2 && e[0]
                == 0x1B && gsm7_ext(e[1]) == c)
        }),
{
}

proof fn lemma_decode_unit_prefix(c: char, y: Seq<u8>)
    requires
        spec_gsm7_encode(c as u32).len() > 0,
    ensures
        spec_gsm7_decode(spec_gsm7_encode(c as u32) + y) == seq![c] + spec_gsm7_decode(y),
{
    lemma_gsm7_unit(c);
    let e = spec_gsm7_encode(c as u32);
    let s = e + y;
    if e.len() == 1 {
        assert(s[0] == e[0]);
        assert(s.skip(1) =~= y);
    } else {
        assert(s[0] == 0x1B);
        assert(s[1] == e[1]);
        assert(s.skip(2) =~= y);
    }
}

proof fn lemma_decode_septets_prefix(cs: Seq<char>, y: Seq<u8>)
    requires
        spec_is_gsm7(cs),
    ensures
        spec_gsm7_decode(spec_gsm7_septets(cs) + y) == cs + spec_gsm7_decode(y),
    decreases cs.len(),
{
    if cs.len() == 0 {
        assert(spec_gsm7_septets(cs) + y =~= y);
        assert(cs + spec_gsm7_decode(y) =~= spec_gsm7_decode(y));
    } else {
        let init = cs.drop_last();
        let last = cs.last();
        assert(spec_is_gsm7(init)) by {
            assert forall|i: int| 0 <= i < init.len() implies (#[trigger] spec_gsm7_encode(init[i] as u32)).len() > 0 by {
                assert(init[i] == cs[i]);
                assert(spec_gsm7_encode(cs[i] as u32).len() > 0);
            }
        }
        assert(spec_gsm7_encode(cs[cs.len() - 1] as u32).len() > 0);
        let e = spec_gsm7_encode(last as u32);
        lemma_decode_septets_prefix(init, e + y);
        lemma_decode_unit_prefix(last, y);
        assert(spec_gsm7_septets(cs) + y =~= spec_gsm7_septets(init) + (e + y));
        assert(init + (seq![last] + spec_gsm7_decode(y)) =~= cs + spec_gsm7_decode(y));
    }
}

/// One character at a time: a character has at most two septets, each below 128; two
/// septets start with ESC; and the septets of an encodable character decode back to it.
#[verifier::rlimit(100)]
#[verifier::spinoff_prover]
pub proof fn lemma_gsm7_char_law(c: char)
    ensures
        spec_gsm7_encode(c as u32).len() <= 2,
        spec_gsm7_encode(c as u32).len() == 2 ==> spec_gsm7_encode(c as u32)[0] == 0x1B,
        forall|i: int| 0 <= i < spec_gsm7_encode(c as u32).len() ==> #[trigger] spec_gsm7_encode(c as u32)[i] < 0x80,
        spec_gsm7_encode(c as u32).len() > 0 ==> spec_gsm7_decode(spec_gsm7_encode(c as u32)) == seq![c],
{
    let e = spec_gsm7_encode(c as u32);
    if e.len() > 0 {
        lemma_decode_unit_prefix(c, Seq::empty());
        assert(e + Seq::<u8>::empty() =~= e);
        assert(seq![c] + spec_gsm7_decode(Seq::<u8>::empty()) =~= seq![c]);
    }
}

/// GSM-7 round trip: the septets of a text that has a GSM-7 form decode back to the
/// text.
pub proof fn lemma_gsm7_roundtrip(cs: Seq<char>)
    requires
        spec_is_gsm7(cs),
    ensures
        spec_gsm7_decode(spec_gsm7_septets(cs)) == cs,
{
    lemma_decode_septets_prefix(cs, Seq::empty());
    assert(spec_gsm7_septets(cs) + Seq::<u8>::empty() =~= spec_gsm7_septets(cs));
    assert(cs + spec_gsm7_decode(Seq::<u8>::empty()) =~= cs);
}

proof fn lemma_u16_bytes(h: u16)
    ensures
        ((h >> 8) as u8) as int * 256 + ((h & 0xFF) as u8) as int == h as int,
{
    assert(((h >> 8) as u8) as int * 256 + ((h & 0xFF) as u8) as int == h as int) by (bit_vector);
}

proof fn lemma_bmp_bytes(cp: u32)
    requires
        cp <= 0xFFFF,
    ensures
        ((cp >> 8) as u8) as int * 256 + ((cp & 0xFF) as u8) as int == cp as int,
{
    assert(cp <= 0xFFFF ==> ((cp >> 8) as u8) as int * 256 + ((cp & 0xFF) as u8) as int == cp as int) by (bit_vector);
}

proof fn lemma_surrogate_split(adj: u32)
    requires
        adj < 0x100000,
    ensures
        (adj >> 10) < 0x400,
        (adj & 0x3FF) < 0x400,
        (adj >> 10) as int * 1024 + (adj & 0x3FF) as int == adj as int,
{
    assert(adj < 0x100000 ==> (adj >> 10) < 0x400) by (bit_vector);
    assert((adj & 0x3FF) < 0x400) by (bit_vector);
    assert((adj >> 10) as int * 1024 + (adj & 0x3FF) as int == adj as int) by (bit_vector);
}

proof fn lemma_ucs2_unit_prefix(c: char, y: Seq<u8>)
    ensures
        spec_ucs2_decode(utf16be_char(c as u32) + y) == seq![c] + spec_ucs2_decode(y),
{
    let cp = c as u32;
    let e = utf16be_char(cp);
    let d = e + y;
    if cp <= 0xFFFF {
        lemma_bmp_bytes(cp);
        assert(d[0] == e[0] && d[1] == e[1]);
        let code = d[0] as int * 256 + d[1] as int;
        assert(code == cp as int);
        assert(is_scalar(code));
        assert(d.skip(2) =~= y);
        assert((code as char) == c);
    } else {
        let adj = (cp - 0x10000) as u32;
        lemma_surrogate_split(adj);
        let hi = (0xD800 + (adj >> 10)) as u16;
        let lo = (0xDC00 + (adj & 0x3FF)) as u16;
        lemma_u16_bytes(hi);
        lemma_u16_bytes(lo);
        assert(d[0] == e[0] && d[1] == e[1] && d[2] == e[2] && d[3] == e[3]);
        let code = d[0] as int * 256 + d[1] as int;
        let low = d[2] as int * 256 + d[3] as int;
        assert(code == hi as int);
        assert(low == lo as int);
        assert((code - 0xD800) * 1024 + (low - 0xDC00) + 0x10000 == cp as int);
        assert(d.skip(4) =~= y);
        assert(((cp as int) as char) == c);
    }
}

proof fn lemma_ucs2_prefix(cs: Seq<char>, y: Seq<u8>)
    ensures
        spec_ucs2_decode(spec_utf16be(cs) + y) == cs + spec_ucs2_decode(y),
    decreases cs.len(),
{
    if cs.len() == 0 {
        assert(spec_utf16be(cs) + y =~= y);
        assert(cs + spec_ucs2_decode(y) =~= spec_ucs2_decode(y));
    } else {
        let init = cs.drop_last();
        let last = cs.last();
        let e = utf16be_char(last as u32);
        lemma_ucs2_prefix(init, e + y);
        lemma_ucs2_unit_prefix(last, y);
        assert(spec_utf16be(cs) + y =~= spec_utf16be(init) + (e + y));
        assert(init + (seq![last] + spec_ucs2_decode(y)) =~= cs + spec_ucs2_decode(y));
    }
}

/// UCS-2 round trip: the UTF-16 bytes of any text decode back to the text.
pub proof fn lemma_ucs2_roundtrip(cs: Seq<char>)
    ensures
        spec_ucs2_decode(spec_utf16be(cs)) == cs,
{
    lemma_ucs2_prefix(cs, Seq::empty());
    assert(spec_utf16be(cs) + Seq::<u8>::empty() =~= spec_utf16be(cs));
    assert(cs + spec_ucs2_decode(Seq::<u8>::empty()) =~= cs);
}


// ---------------------------------------------------------------------------
// Septet packing round trip
// ---------------------------------------------------------------------------

/// Bit `b` of the little-endian bit stream held in `d` (0 past the end).
pub open spec fn stream_bit(d: Seq<u8>, b: int) -> u8 {
    if 0 <= b && b / 8 < d.len() {
        (d[b / 8] >> ((b % 8) as u8)) & 1
    } else {
        0
    }
}

/// Bit `b` of the stream that holds the first `n` septets of `s` from bit `bit_offset` on.
pub open spec fn packed_bit(s: Seq<u8>, n: int, bit_offset: int, b: int) -> u8 {
    if bit_offset <= b < bit_offset + 7 * n {
        ((s[(b - bit_offset) / 7] & 0x7F) >> (((b - bit_offset) % 7) as u8)) & 1
    } else {
        0
    }
}

proof fn lemma_or_bit(a: u8, x: u8, k: u8)
    by (bit_vector)
    requires
        k < 8,
    ensures
        (a >> k) & 1 == 0 ==> ((a | x) >> k) & 1 == (x >> k) & 1,
        (x >> k) & 1 == 0 ==> ((a | x) >> k) & 1 == (a >> k) & 1,
{
}

proof fn lemma_shifted_bits(sv: u8, sh: u16, c: u8)
    by (bit_vector)
    requires
        sh < 8,
        c < 8,
    ensures
        sh <= c as u16 ==> ((((((sv & 0x7F) as u16) << sh) & 0xFF) as u8) >> c) & 1 == ((sv
            & 0x7F) >> ((c as u16 - sh) as u8)) & 1,
        (c as u16) < sh ==> ((((((sv & 0x7F) as u16) << sh) & 0xFF) as u8) >> c) & 1 == 0,
        c as u16 + 8 - sh < 7 ==> ((((((sv & 0x7F) as u16) << sh) >> 8) as u8) >> c) & 1 == ((sv
            & 0x7F) >> ((c as u16 + 8 - sh) as u8)) & 1,
        c as u16 + 8 - sh >= 7 ==> ((((((sv & 0x7F) as u16) << sh) >> 8) as u8) >> c) & 1 == 0,
        ((sv & 0x7F) >> 7u8) & 1 == 0,
{
}

/// The bits of a partly packed buffer: the first `n` septets in place, zeros elsewhere.
proof fn lemma_pack_prefix_bits(s: Seq<u8>, n: int, off: int, len: int, b: int)
    requires
        0 <= n <= s.len(),
        0 <= off,
        off + 7 * n <= 8 * len,
        0 <= b < 8 * len,
    ensures
        stream_bit(pack_prefix(s, n, off, len), b) == packed_bit(s, n, off, b),
    decreases n,
{
    lemma_pack_prefix_len(s, n, off, len);
    let c = (b % 8) as u8;
    if n <= 0 {
        assert((0u8 >> c) & 1 == 0) by (bit_vector);
    } else {
        let prev = pack_prefix(s, n - 1, off, len);
        lemma_pack_prefix_len(s, n - 1, off, len);
        lemma_pack_prefix_bits(s, n - 1, off, len, b);
        let p = off + 7 * (n - 1);
        let k0 = p / 8;
        let sh = (p % 8) as u16;
        let sv = s[n - 1];
        let shifted: u16 = ((sv & 0x7F) as u16) << sh;
        let lo = (shifted & 0xFF) as u8;
        let hi = (shifted >> 8) as u8;
        let mid = or_byte(prev, k0, lo);
        let cur = pack_prefix(s, n, off, len);
        assert(cur == or_byte(mid, k0 + 1, hi));
        let kb = b / 8;
        lemma_shifted_bits(sv, sh, c);
        if kb == k0 {
            assert(cur[kb] == prev[kb] | lo);
            lemma_or_bit(prev[kb], lo, c);
            if p <= b < p + 7 {
                lemma_fundamental_div_mod_converse(b - off, 7, n - 1, b - p);
            }
        } else if kb == k0 + 1 {
            assert(cur[kb] == prev[kb] | hi);
            lemma_or_bit(prev[kb], hi, c);
            if b - p < 7 {
                lemma_fundamental_div_mod_converse(b - off, 7, n - 1, b - p);
            }
        } else {
            assert(cur[kb] == prev[kb]);
        }
    }
}

proof fn lemma_window_bit(b0: u8, b1: u8, present: bool, k: u16)
    by (bit_vector)
    requires
        k < 16,
    ensures
        k < 8 ==> ((((b0 as u16) | (((if present {
            b1 as u16
        } else {
            0u16
        }) * 256) as u16)) >> k) & 1) as u8 == (b0 >> (k as u8)) & 1,
        8 <= k && present ==> ((((b0 as u16) | (((if present {
            b1 as u16
        } else {
            0u16
        }) * 256) as u16)) >> k) & 1) as u8 == (b1 >> ((k - 8) as u8)) & 1,
        8 <= k && !present ==> ((((b0 as u16) | (((if present {
            b1 as u16
        } else {
            0u16
        }) * 256) as u16)) >> k) & 1) as u8 == 0,
{
}

proof fn lemma_seven_bits(v: u16, sh: u16, x: u8)
    by (bit_vector)
    requires
        sh < 8,
        x < 128,
        ((v >> sh) & 1) as u8 == (x >> 0u8) & 1,
        ((v >> ((sh + 1) as u16)) & 1) as u8 == (x >> 1u8) & 1,
        ((v >> ((sh + 2) as u16)) & 1) as u8 == (x >> 2u8) & 1,
        ((v >> ((sh + 3) as u16)) & 1) as u8 == (x >> 3u8) & 1,
        ((v >> ((sh + 4) as u16)) & 1) as u8 == (x >> 4u8) & 1,
        ((v >> ((sh + 5) as u16)) & 1) as u8 == (x >> 5u8) & 1,
        ((v >> ((sh + 6) as u16)) & 1) as u8 == (x >> 6u8) & 1,
    ensures
        ((v >> sh) & 0x7F) as u8 == x,
{
}

proof fn lemma_window_bit_at(d: Seq<u8>, q: int, t: int)
    requires
        0 <= q,
        q / 8 < d.len(),
        0 <= t < 7,
    ensures
        ({
            let byte = q / 8;
            let next: u16 = if byte + 1 < d.len() {
                d[byte + 1] as u16
            } else {
                0
            };
            let v: u16 = (d[byte] as u16) | ((next * 256) as u16);
            ((v >> ((q % 8 + t) as u16)) & 1) as u8 == stream_bit(d, q + t)
        }),
{
    let byte = q / 8;
    let present = byte + 1 < d.len();
    let b1: u8 = if present {
        d[byte + 1]
    } else {
        0
    };
    let k = q % 8 + t;
    lemma_window_bit(d[byte], b1, present, k as u16);
    if k < 8 {
        lemma_fundamental_div_mod_converse(q + t, 8, byte, k);
    } else {
        lemma_fundamental_div_mod_converse(q + t, 8, byte + 1, k - 8);
    }
}

/// Reading the septet at bit `q` gives `x` when the seven stream bits from `q` on are
/// those of `x`.
proof fn lemma_septet_at_bits(d: Seq<u8>, q: int, x: u8)
    requires
        0 <= q,
        q / 8 < d.len(),
        x < 128,
        forall|b: int| q <= b < q + 7 ==> #[trigger] stream_bit(d, b) == (x >> ((b - q) as u8)) & 1,
    ensures
        septet_at(d, q) == x,
{
    let byte = q / 8;
    let next: u16 = if byte + 1 < d.len() {
        d[byte + 1] as u16
    } else {
        0
    };
    let v: u16 = (d[byte] as u16) | ((next * 256) as u16);
    lemma_window_bit_at(d, q, 0);
    lemma_window_bit_at(d, q, 1);
    lemma_window_bit_at(d, q, 2);
    lemma_window_bit_at(d, q, 3);
    lemma_window_bit_at(d, q, 4);
    lemma_window_bit_at(d, q, 5);
    lemma_window_bit_at(d, q, 6);
    lemma_seven_bits(v, (q % 8) as u16, x);
}

proof fn lemma_unpack_len_full(data: Seq<u8>, num: int, off: int, j: int)
    requires
        0 <= j <= num,
        forall|i: int| j <= i < num ==> #[trigger] ((off + 7 * i) / 8) < data.len(),
    ensures
        unpack_len(data, num, off, j) == num,
    decreases num - j,
{
    if j < num {
        assert(((off + 7 * j) / 8) < data.len());
        lemma_unpack_len_full(data, num, off, j + 1);
    }
}

/// Septet packing round trip: septets below 128, packed from any bit offset and read back
/// from that offset, are the septets themselves.
pub proof fn lemma_septet_roundtrip(s: Seq<u8>, bit_offset: int)
    requires
        0 <= bit_offset,
        forall|i: int| 0 <= i < s.len() ==> #[trigger] s[i] < 128,
    ensures
        spec_unpack(spec_pack_septets(s, bit_offset), s.len() as int, bit_offset) == s,
{
    let n = s.len() as int;
    let d = spec_pack_septets(s, bit_offset);
    if n == 0 {
        assert(spec_unpack(d, 0, bit_offset) =~= s);
    } else {
        let len = packed_len(n, bit_offset);
        lemma_pack_prefix_len(s, n, bit_offset, len);
        assert(d.len() == len);
        assert forall|i: int| 0 <= i < n implies #[trigger] ((bit_offset + 7 * i) / 8) < d.len() by {
        }
        lemma_unpack_len_full(d, n, bit_offset, 0);
        assert forall|j: int| 0 <= j < n implies septet_at(d, bit_offset + 7 * j) == s[j] by {
            let q = bit_offset + 7 * j;
            let x = s[j];
            assert(x < 128);
            assert(x & 0x7F == x) by (bit_vector)
                requires
                    x < 128,
            ;
            assert forall|b: int| q <= b < q + 7 implies #[trigger] stream_bit(d, b) == (x >> ((b
                - q) as u8)) & 1 by {
                lemma_pack_prefix_bits(s, n, bit_offset, len, b);
                lemma_fundamental_div_mod_converse(b - bit_offset, 7, j, b - q);
            }
            lemma_septet_at_bits(d, q, x);
        }
        assert(spec_unpack(d, n, bit_offset) =~= s);
    }
}

/// The layout of packed septets: from any bit offset, `n` septets take
/// `ceil((bit_offset + 7n) / 8)` bytes, the first `bit_offset` bits are zero, septet `i`
/// (its low seven bits) fills bits `bit_offset + 7i ..= bit_offset + 7i + 6`, and the
/// bits after the last septet are zero.
pub proof fn lemma_pack_layout(s: Seq<u8>, bit_offset: int)
    requires
        0 <= bit_offset,
    ensures
        spec_pack_septets(s, bit_offset).len() == (bit_offset + 7 * s.len() + 7) / 8,
        forall|b: int| 0 <= b < 8 * spec_pack_septets(s, bit_offset).len() ==> #[trigger] stream_bit(
            spec_pack_septets(s, bit_offset),
            b,
        ) == packed_bit(s, s.len() as int, bit_offset, b),
        forall|b: int| 0 <= b < bit_offset ==> #[trigger] stream_bit(spec_pack_septets(s, bit_offset), b) == 0,
{
    let n = s.len() as int;
    let d = spec_pack_septets(s, bit_offset);
    if n == 0 {
        assert forall|b: int| 0 <= b < 8 * d.len() implies #[trigger] stream_bit(d, b) == packed_bit(s, n, bit_offset, b) by {
            assert(d[b / 8] == 0u8);
            let k = (b % 8) as u8;
            assert((0u8 >> k) & 1 == 0) by (bit_vector);
        }
    } else {
        let len = packed_len(n, bit_offset);
        lemma_pack_prefix_len(s, n, bit_offset, len);
        assert forall|b: int| 0 <= b < 8 * d.len() implies #[trigger] stream_bit(d, b) == packed_bit(s, n, bit_offset, b) by {
            lemma_pack_prefix_bits(s, n, bit_offset, len, b);
        }
    }
    assert forall|b: int| 0 <= b < bit_offset implies #[trigger] stream_bit(d, b) == 0 by {
        if b < 8 * d.len() {
            assert(stream_bit(d, b) == packed_bit(s, n, bit_offset, b));
        }
    }
}

/// The pieces that (start, end) ranges cut out of `s`, joined in order.
pub open spec fn joined_ranges(s: Seq<u8>, rs: Seq<(int, int)>) -> Seq<u8>
    decreases rs.len(),
{
    if rs.len() == 0 {
        Seq::empty()
    } else {
        s.subrange(rs[0].0, rs[0].1) + joined_ranges(s, rs.skip(1))
    }
}

/// The parts of a long GSM-7 message join back to its septets: from any position, the
/// parts follow one another without gap or overlap, each of 1 to 153 septets, and
/// together they are the rest of the message.
pub proof fn lemma_gsm7_parts_join(s: Seq<u8>, pos: int)
    requires
        0 <= pos <= s.len(),
    ensures
        joined_ranges(s, gsm7_chunks(s, pos)) == s.skip(pos),
        forall|k: int| 0 <= k < gsm7_chunks(s, pos).len() ==> 1 <= (#[trigger] gsm7_chunks(s, pos)[k]).1
            - gsm7_chunks(s, pos)[k].0 <= 153,
    decreases s.len() - pos,
{
    if pos < s.len() {
        let c = gsm7_chunk_len(s, pos);
        assert(1 <= c <= 153);
        let rest = gsm7_chunks(s, pos + c);
        let cs = gsm7_chunks(s, pos);
        assert(cs == seq![(pos, pos + c)] + rest);
        assert(cs.skip(1) =~= rest);
        lemma_gsm7_parts_join(s, pos + c);
        assert(s.subrange(pos, pos + c) + s.skip(pos + c) =~= s.skip(pos));
        assert forall|k: int| 0 <= k < cs.len() implies 1 <= (#[trigger] cs[k]).1 - cs[k].0 <= 153 by {
            if k > 0 {
                assert(cs[k] == rest[k - 1]);
            }
        }
    } else {
        assert(s.skip(pos) =~= Seq::<u8>::empty());
    }
}

/// The parts of a long UCS-2 message join back to its UTF-16 bytes: from any position,
/// the parts follow one another without gap or overlap, each of 1 to 134 bytes, and
/// together they are the rest of the message.
pub proof fn lemma_ucs2_parts_join(u: Seq<u8>, pos: int)
    requires
        0 <= pos <= u.len(),
    ensures
        joined_ranges(u, ucs2_chunks(u, pos)) == u.skip(pos),
        forall|k: int| 0 <= k < ucs2_chunks(u, pos).len() ==> 1 <= (#[trigger] ucs2_chunks(u, pos)[k]).1
            - ucs2_chunks(u, pos)[k].0 <= 134,
    decreases u.len() - pos,
{
    if pos < u.len() {
        let c = ucs2_chunk_len(u, pos);
        assert(1 <= c <= 134);
        let rest = ucs2_chunks(u, pos + c);
        let cs = ucs2_chunks(u, pos);
        assert(cs == seq![(pos, pos + c)] + rest);
        assert(cs.skip(1) =~= rest);
        lemma_ucs2_parts_join(u, pos + c);
        assert(u.subrange(pos, pos + c) + u.skip(pos + c) =~= u.skip(pos));
        assert forall|k: int| 0 <= k < cs.len() implies 1 <= (#[trigger] cs[k]).1 - cs[k].0 <= 134 by {
            if k > 0 {
                assert(cs[k] == rest[k - 1]);
            }
        }
    } else {
        assert(u.skip(pos) =~= Seq::<u8>::empty());
    }
}

// ---------------------------------------------------------------------------
// User-data header fields
// ---------------------------------------------------------------------------

/// Where the user data of an SMS-DELIVER starts: after the SCA (its length octet and
/// that many bytes), the first octet, the originating address (length, type, BCD
/// bytes), PID, DCS, the seven-octet time stamp and the UDL octet.
pub open spec fn deliver_ud_start(b: Seq<u8>) -> int {
    let p1 = 1 + b[0] as int;
    p1 + 3 + (b[p1 + 1] as int + 1) / 2 + 10
}

/// Whether the first octet of an SMS-DELIVER announces a user-data header (TP-UDHI).
pub open spec fn deliver_has_udh(b: Seq<u8>) -> bool {
    (b[1 + b[0] as int] & 0x40) != 0
}

/// A header holding the 8-bit concatenation element `00 03 r t p` reports reference
/// `r`, `t` parts in all and part number `p`, and no port.
pub proof fn lemma_udh_concat_8bit(b: Seq<u8>, ie: int)
    requires
        0 <= ie,
        ie + 5 <= b.len(),
        b[ie] == 0x00,
        b[ie + 1] == 3,
    ensures
        scan_udh(b, ie, ie + 5, UdhInfo { concat: None, port: None }) == (UdhInfo {
            concat: Some((b[ie + 2] as u16, b[ie + 3], b[ie + 4])),
            port: None,
        }),
{
    let acc = UdhInfo { concat: Some((b[ie + 2] as u16, b[ie + 3], b[ie + 4])), port: None };
    assert(scan_udh(b, ie + 5, ie + 5, acc) == acc);
}

/// A header holding the 16-bit concatenation element `08 04 rh rl t p` reports reference
/// `rh * 256 + rl`, `t` parts in all and part number `p`.
pub proof fn lemma_udh_concat_16bit(b: Seq<u8>, ie: int)
    requires
        0 <= ie,
        ie + 6 <= b.len(),
        b[ie] == 0x08,
        b[ie + 1] == 4,
    ensures
        scan_udh(b, ie, ie + 6, UdhInfo { concat: None, port: None }) == (UdhInfo {
            concat: Some(((b[ie + 2] as int * 256 + b[ie + 3] as int) as u16, b[ie + 4], b[ie + 5])),
            port: None,
        }),
{
    let acc = UdhInfo {
        concat: Some(((b[ie + 2] as int * 256 + b[ie + 3] as int) as u16, b[ie + 4], b[ie + 5])),
        port: None,
    };
    assert(scan_udh(b, ie + 6, ie + 6, acc) == acc);
}

/// A header holding the 16-bit port element `05 04 dh dl sh sl` reports destination port
/// `dh * 256 + dl` and no concatenation.
pub proof fn lemma_udh_port_16bit(b: Seq<u8>, ie: int)
    requires
        0 <= ie,
        ie + 6 <= b.len(),
        b[ie] == 0x05,
        b[ie + 1] == 4,
    ensures
        scan_udh(b, ie, ie + 6, UdhInfo { concat: None, port: None }) == (UdhInfo {
            concat: None,
            port: Some((b[ie + 2] as int * 256 + b[ie + 3] as int) as u16),
        }),
{
    let acc = UdhInfo { concat: None, port: Some((b[ie + 2] as int * 256 + b[ie + 3] as int) as u16) };
    assert(scan_udh(b, ie + 6, ie + 6, acc) == acc);
}

/// The concatenation fields of a parsed SMS-DELIVER come from its header: when the
/// header is the single 8-bit concatenation element `05 | 00 03 r t p`, the message is
/// part `p` of `t` with reference `r`.
pub proof fn lemma_parse_concat_8bit(b: Seq<u8>)
    requires
        spec_parse_sms_pdu(b) is Ok,
        deliver_has_udh(b),
        deliver_ud_start(b) + 6 <= b.len(),
        b[deliver_ud_start(b)] == 5,
        b[deliver_ud_start(b) + 1] == 0x00,
        b[deliver_ud_start(b) + 2] == 3,
    ensures
        spec_parse_sms_pdu(b)->Ok_0.is_concatenated,
        spec_parse_sms_pdu(b)->Ok_0.concat_ref == b[deliver_ud_start(b) + 3] as u16,
        spec_parse_sms_pdu(b)->Ok_0.concat_total == b[deliver_ud_start(b) + 4],
        spec_parse_sms_pdu(b)->Ok_0.concat_part == b[deliver_ud_start(b) + 5],
        spec_parse_sms_pdu(b)->Ok_0.destination_port is None,
{
    let u = deliver_ud_start(b);
    lemma_udh_concat_8bit(b, u + 1);
}

/// The port of a parsed SMS-DELIVER comes from its header: when the header is the single
/// 16-bit port element `06 | 05 04 dh dl sh sl`, the destination port is `dh * 256 + dl`
/// and the message is not a concatenated part.
pub proof fn lemma_parse_port_16bit(b: Seq<u8>)
    requires
        spec_parse_sms_pdu(b) is Ok,
        deliver_has_udh(b),
        deliver_ud_start(b) + 7 <= b.len(),
        b[deliver_ud_start(b)] == 6,
        b[deliver_ud_start(b) + 1] == 0x05,
        b[deliver_ud_start(b) + 2] == 4,
    ensures
        !spec_parse_sms_pdu(b)->Ok_0.is_concatenated,
        spec_parse_sms_pdu(b)->Ok_0.destination_port == Some(
            (b[deliver_ud_start(b) + 3] as int * 256 + b[deliver_ud_start(b) + 4] as int) as u16,
        ),
{
    let u = deliver_ud_start(b);
    lemma_udh_port_16bit(b, u + 1);
}

/// Every part of a message split into several SMS-SUBMIT PDUs carries the concatenation
/// header `05 00 03 ref n k` right after the destination, PID, DCS and UDL octets: `n`
/// is the number of parts and `k` the part's own number, counted from 1, whether the
/// text goes as GSM-7 or as UCS-2.
pub proof fn lemma_submit_parts_numbered(phone: Seq<char>, body: Seq<char>, max_parts: int, srr: bool, concat_ref: u8)
    ensures
        ({
            let pdus = spec_submit_pdus(phone, body, max_parts, srr, concat_ref);
            let h: int = 3 + spec_bcd_phone(phone).len() as int;
            pdus.len() > 1 ==> forall|k: int|
                0 <= k < pdus.len() ==> #[trigger] pdus[k].subrange(h + 3, h + 9) == seq![
                    0x05u8,
                    0x00u8,
                    0x03u8,
                    concat_ref,
                    pdus.len() as u8,
                    (k + 1) as u8,
                ]
        }),
{
    let pdus = spec_submit_pdus(phone, body, max_parts, srr, concat_ref);
    let h: int = 3 + spec_bcd_phone(phone).len() as int;
    if pdus.len() > 1 {
        assert forall|k: int| 0 <= k < pdus.len() implies #[trigger] pdus[k].subrange(h + 3, h + 9) == seq![
            0x05u8,
            0x00u8,
            0x03u8,
            concat_ref,
            pdus.len() as u8,
            (k + 1) as u8,
        ] by {
            let hd = submit_header(phone, srr, true);
            assert(hd.len() == h);
            let n = pdus.len() as int;
            let udh = concat_udh(concat_ref, n, k + 1);
            if spec_is_gsm7(body) {
                let st = spec_gsm7_septets(body);
                let chunks = gsm7_chunks(st, 0);
                let mid = seq![0x00u8, 0x00u8, (7 + (chunks[k].1 - chunks[k].0)) as u8];
                let rest = spec_pack_septets(st.subrange(chunks[k].0, chunks[k].1), 49).skip(6);
                assert(pdus[k] == hd + mid + udh + rest);
                assert((hd + mid + udh + rest).subrange(h + 3, h + 9) =~= udh);
            } else {
                let u = spec_utf16be(body);
                let chunks = ucs2_chunks(u, 0);
                let mid = seq![0x00u8, 0x08u8, (6 + (chunks[k].1 - chunks[k].0)) as u8];
                let rest = u.subrange(chunks[k].0, chunks[k].1);
                assert(pdus[k] == hd + mid + udh + rest);
                assert((hd + mid + udh + rest).subrange(h + 3, h + 9) =~= udh);
            }
        }
    }
}

/// The pieces of the PDUs from octet `o` on, joined in order.
pub open spec fn joined_payloads(ps: Seq<Seq<u8>>, o: int) -> Seq<u8>
    decreases ps.len(),
{
    if ps.len() == 0 {
        Seq::empty()
    } else {
        ps[0].skip(o) + joined_payloads(ps.skip(1), o)
    }
}

proof fn lemma_joined_payloads_ranges(ps: Seq<Seq<u8>>, o: int, u: Seq<u8>, rs: Seq<(int, int)>)
    requires
        ps.len() == rs.len(),
        forall|k: int| 0 <= k < ps.len() ==> (#[trigger] ps[k]).skip(o) == u.subrange(rs[k].0, rs[k].1),
    ensures
        joined_payloads(ps, o) == joined_ranges(u, rs),
    decreases ps.len(),
{
    if ps.len() > 0 {
        assert forall|k: int| 0 <= k < ps.skip(1).len() implies (#[trigger] ps.skip(1)[k]).skip(o) == u.subrange(
            rs.skip(1)[k].0,
            rs.skip(1)[k].1,
        ) by {
            assert(ps.skip(1)[k] == ps[k + 1]);
            assert(rs.skip(1)[k] == rs[k + 1]);
        }
        lemma_joined_payloads_ranges(ps.skip(1), o, u, rs.skip(1));
    }
}

proof fn lemma_ucs2_chunk_bounds(u: Seq<u8>, pos: int)
    requires
        0 <= pos <= u.len(),
    ensures
        forall|k: int| 0 <= k < ucs2_chunks(u, pos).len() ==> pos <= (#[trigger] ucs2_chunks(u, pos)[k]).0
            < ucs2_chunks(u, pos)[k].1 <= u.len(),
    decreases u.len() - pos,
{
    if pos < u.len() {
        let c = ucs2_chunk_len(u, pos);
        let rest = ucs2_chunks(u, pos + c);
        let cs = ucs2_chunks(u, pos);
        assert(cs == seq![(pos, pos + c)] + rest);
        lemma_ucs2_chunk_bounds(u, pos + c);
        assert forall|k: int| 0 <= k < cs.len() implies pos <= (#[trigger] cs[k]).0 < cs[k].1 <= u.len() by {
            if k > 0 {
                assert(cs[k] == rest[k - 1]);
            }
        }
    }
}

/// The parts of a message sent as UCS-2 in several SMS-SUBMIT PDUs announce a user-data
/// header in their first octet and carry, after their concatenation header, pieces that join back to the message's UTF-16 bytes in part
/// order, each piece announced by its UDL octet (six header octets plus the piece).
pub proof fn lemma_ucs2_parts_carry_body(phone: Seq<char>, body: Seq<char>, max_parts: int, srr: bool, concat_ref: u8)
    requires
        phone.len() > 0,
        body.len() > 0,
        !spec_is_gsm7(body),
        spec_submit_pdus(phone, body, max_parts, srr, concat_ref).len() > 1,
    ensures
        ({
            let pdus = spec_submit_pdus(phone, body, max_parts, srr, concat_ref);
            let h: int = 3 + spec_bcd_phone(phone).len() as int;
            &&& joined_payloads(pdus, h + 9) == spec_utf16be(body)
            &&& forall|k: int|
                0 <= k < pdus.len() ==> (#[trigger] pdus[k])[h + 1] == 0x08u8 && pdus[k][h + 2] == (6 + pdus[k].skip(
                    h + 9,
                ).len()) as u8 && pdus[k][1] == (if srr { 0x61u8 } else { 0x41u8 })
        }),
{
    let pdus = spec_submit_pdus(phone, body, max_parts, srr, concat_ref);
    let h: int = 3 + spec_bcd_phone(phone).len() as int;
    let u = spec_utf16be(body);
    let chunks = ucs2_chunks(u, 0);
    lemma_ucs2_parts_join(u, 0);
    let hd = submit_header(phone, srr, true);
    assert(hd.len() == h);
    lemma_ucs2_chunk_bounds(u, 0);
    assert(pdus == spec_ucs2_pdus(phone, u, max_parts, srr, concat_ref));
    assert(u.len() > 140);
    assert(chunks.len() <= max_parts);
    assert(pdus.len() == chunks.len());
    assert forall|k: int| 0 <= k < pdus.len() implies (#[trigger] pdus[k]).skip(h + 9) == u.subrange(
        chunks[k].0,
        chunks[k].1,
    ) && pdus[k][h + 1] == 0x08u8 && pdus[k][h + 2] == (6 + pdus[k].skip(h + 9).len()) as u8 && pdus[k][1] == (if srr {
        0x61u8
    } else {
        0x41u8
    }) by {
        let mid = seq![0x00u8, 0x08u8, (6 + (chunks[k].1 - chunks[k].0)) as u8];
        let udh = concat_udh(concat_ref, chunks.len() as int, k + 1);
        let rest = u.subrange(chunks[k].0, chunks[k].1);
        assert(pdus[k] == hd + mid + udh + rest);
        assert((hd + mid + udh + rest).skip(h + 9) =~= rest);
        assert((hd + mid + udh + rest)[1] == hd[1]);
    }
    lemma_joined_payloads_ranges(pdus, h + 9, u, chunks);
    assert(u.skip(0) =~= u);
}

/// The concatenation fields of a parsed SMS-DELIVER with a 16-bit reference: when the
/// header is the single element `06 | 08 04 rh rl t p`, the message is part `p` of `t`
/// with reference `rh * 256 + rl`.
pub proof fn lemma_parse_concat_16bit(b: Seq<u8>)
    requires
        spec_parse_sms_pdu(b) is Ok,
        deliver_has_udh(b),
        deliver_ud_start(b) + 7 <= b.len(),
        b[deliver_ud_start(b)] == 6,
        b[deliver_ud_start(b) + 1] == 0x08,
        b[deliver_ud_start(b) + 2] == 4,
    ensures
        spec_parse_sms_pdu(b)->Ok_0.is_concatenated,
        spec_parse_sms_pdu(b)->Ok_0.concat_ref == (b[deliver_ud_start(b) + 3] as int * 256 + b[deliver_ud_start(b)
            + 4] as int) as u16,
        spec_parse_sms_pdu(b)->Ok_0.concat_total == b[deliver_ud_start(b) + 5],
        spec_parse_sms_pdu(b)->Ok_0.concat_part == b[deliver_ud_start(b) + 6],
{
    let u = deliver_ud_start(b);
    lemma_udh_concat_16bit(b, u + 1);
}

/// How a long UCS-2 message is cut: every part but the last holds 134 bytes, or 132
/// when the 134th and 135th bytes would start a high surrogate (so no surrogate pair is
/// split across parts), and the last part ends the message.
pub proof fn lemma_ucs2_cut_rule(u: Seq<u8>, pos: int)
    requires
        0 <= pos <= u.len(),
    ensures
        forall|k: int|
            0 <= k < ucs2_chunks(u, pos).len() && (#[trigger] ucs2_chunks(u, pos)[k]).1 < u.len() ==> {
                let (a, e) = ucs2_chunks(u, pos)[k];
                &&& e - a == 132 || e - a == 134
                &&& (e - a == 132 <==> 0xD800 <= u[a + 132] as int * 256 + u[a + 133] as int <= 0xDBFF)
            },
        ucs2_chunks(u, pos).len() > 0 ==> ucs2_chunks(u, pos).last().1 == u.len(),
    decreases u.len() - pos,
{
    if pos < u.len() {
        let c = ucs2_chunk_len(u, pos);
        let rest = ucs2_chunks(u, pos + c);
        let cs = ucs2_chunks(u, pos);
        assert(cs == seq![(pos, pos + c)] + rest);
        lemma_ucs2_cut_rule(u, pos + c);
        assert forall|k: int| 0 <= k < cs.len() && (#[trigger] cs[k]).1 < u.len() implies {
            let (a, e) = cs[k];
            &&& e - a == 132 || e - a == 134
            &&& (e - a == 132 <==> 0xD800 <= u[a + 132] as int * 256 + u[a + 133] as int <= 0xDBFF)
        } by {
            if k > 0 {
                assert(cs[k] == rest[k - 1]);
            }
        }
        if rest.len() > 0 {
            assert(cs.last() == rest.last());
        }
    }
}

/// How a long GSM-7 message is cut: every part but the last holds 153 septets, or 152
/// when its 153rd septet would be an escape, or 151 when its 152nd would (so no escape
/// is parted from the character it introduces), and the last part ends the message.
pub proof fn lemma_gsm7_cut_rule(t: Seq<u8>, pos: int)
    requires
        0 <= pos <= t.len(),
    ensures
        forall|k: int|
            0 <= k < gsm7_chunks(t, pos).len() && (#[trigger] gsm7_chunks(t, pos)[k]).1 < t.len() ==> {
                let (a, e) = gsm7_chunks(t, pos)[k];
                &&& (e - a == 152 <==> t[a + 152] == 0x1B)
                &&& (e - a == 151 <==> t[a + 152] != 0x1B && t[a + 151] == 0x1B)
                &&& (e - a == 153 <==> t[a + 152] != 0x1B && t[a + 151] != 0x1B)
            },
        gsm7_chunks(t, pos).len() > 0 ==> gsm7_chunks(t, pos).last().1 == t.len(),
    decreases t.len() - pos,
{
    if pos < t.len() {
        let c = gsm7_chunk_len(t, pos);
        let rest = gsm7_chunks(t, pos + c);
        let cs = gsm7_chunks(t, pos);
        assert(cs == seq![(pos, pos + c)] + rest);
        lemma_gsm7_cut_rule(t, pos + c);
        assert forall|k: int| 0 <= k < cs.len() && (#[trigger] cs[k]).1 < t.len() implies {
            let (a, e) = cs[k];
            &&& (e - a == 152 <==> t[a + 152] == 0x1B)
            &&& (e - a == 151 <==> t[a + 152] != 0x1B && t[a + 151] == 0x1B)
            &&& (e - a == 153 <==> t[a + 152] != 0x1B && t[a + 151] != 0x1B)
        } by {
            if k > 0 {
                assert(cs[k] == rest[k - 1]);
            }
        }
        if rest.len() > 0 {
            assert(cs.last() == rest.last());
        }
    }
}

/// A header holding the 8-bit port element `04 02 d s` reports destination port `d`.
pub proof fn lemma_udh_port_8bit(b: Seq<u8>, ie: int)
    requires
        0 <= ie,
        ie + 4 <= b.len(),
        b[ie] == 0x04,
        b[ie + 1] == 2,
    ensures
        scan_udh(b, ie, ie + 4, UdhInfo { concat: None, port: None }) == (UdhInfo {
            concat: None,
            port: Some(b[ie + 2] as u16),
        }),
{
    let acc = UdhInfo { concat: None, port: Some(b[ie + 2] as u16) };
    assert(scan_udh(b, ie + 4, ie + 4, acc) == acc);
}

/// A header holding a concatenation element `00 03 r t p` and then a port element
/// `05 04 dh dl sh sl` reports both: elements of different kinds do not disturb each
/// other.
pub proof fn lemma_udh_concat_then_port(b: Seq<u8>, ie: int)
    requires
        0 <= ie,
        ie + 11 <= b.len(),
        b[ie] == 0x00,
        b[ie + 1] == 3,
        b[ie + 5] == 0x05,
        b[ie + 6] == 4,
    ensures
        scan_udh(b, ie, ie + 11, UdhInfo { concat: None, port: None }) == (UdhInfo {
            concat: Some((b[ie + 2] as u16, b[ie + 3], b[ie + 4])),
            port: Some((b[ie + 7] as int * 256 + b[ie + 8] as int) as u16),
        }),
{
    let a1 = UdhInfo { concat: Some((b[ie + 2] as u16, b[ie + 3], b[ie + 4])), port: None };
    let a2 = UdhInfo {
        concat: Some((b[ie + 2] as u16, b[ie + 3], b[ie + 4])),
        port: Some((b[ie + 7] as int * 256 + b[ie + 8] as int) as u16),
    };
    assert(scan_udh(b, ie + 11, ie + 11, a2) == a2);
    assert(scan_udh(b, ie + 5, ie + 11, a1) == a2);
}

} // verus!
