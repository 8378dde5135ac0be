//! Parsing of the compile-time configuration strings that the build injects.
//!
//! The values themselves are read from the build environment by the firmware binary;
//! this module holds the rules that turn those strings into settings.

use vstd::prelude::*;
use vstd::string::StringSliceAdditionalSpecFns;

verus! {

/// Only the exact text `true` enables a boolean setting.
pub open spec fn spec_bool_env_true(b: Seq<u8>) -> bool {
    b.len() == 4 && b[0] == 0x74 && b[1] == 0x72 && b[2] == 0x75 && b[3] == 0x65
}

/// The number spelled by the ASCII digits of `b`, other bytes ignored.
pub open spec fn digits_only_value(b: Seq<u8>) -> int
    decreases b.len(),
{
    if b.len() == 0 {
        0
    } else if 0x30 <= b.last() <= 0x39 {
        digits_only_value(b.drop_last()) * 10 + (b.last() - 0x30)
    } else {
        digits_only_value(b.drop_last())
    }
}

/// A signed setting: an optional leading `-`, then the digits of the rest.
pub open spec fn spec_i64_const(b: Seq<u8>) -> int {
    if b.len() == 0 {
        0
    } else if b[0] == 0x2D {
        -digits_only_value(b.skip(1))
    } else {
        digits_only_value(b)
    }
}

/// Whether a boolean setting is enabled.
pub fn parse_bool_env_true(s: &str) -> (r: bool)
    ensures
        r == spec_bool_env_true(s.spec_bytes()),
{
    let b = s.as_bytes();
    b.len() == 4 && b[0] == 0x74 && b[1] == 0x72 && b[2] == 0x75 && b[3] == 0x65
}

proof fn lemma_digits_value_nonneg(b: Seq<u8>)
    ensures
        digits_only_value(b) >= 0,
    decreases b.len(),
{
    if b.len() > 0 {
        lemma_digits_value_nonneg(b.drop_last());
    }
}

proof fn lemma_digits_value_prefix(b: Seq<u8>, i: int)
    requires
        0 <= i <= b.len(),
    ensures
        digits_only_value(b.take(i)) <= digits_only_value(b),
    decreases b.len() - i,
{
    if i < b.len() {
        lemma_digits_value_prefix(b, i + 1);
        assert(b.take(i + 1).drop_last() =~= b.take(i));
        lemma_digits_value_nonneg(b.take(i));
    } else {
        assert(b.take(i) =~= b);
    }
}

fn digits_value_from(b: &[u8], start: usize, max: u64) -> (acc: u64)
    requires
        start <= b@.len(),
        digits_only_value(b@.skip(start as int)) <= max,
    ensures
        acc == digits_only_value(b@.skip(start as int)),
{
    let ghost d = b@.skip(start as int);
    let mut i: usize = start;
    let mut acc: u64 = 0;
    assert(d.take(0) =~= Seq::<u8>::empty());
    while i < b.len()
        invariant
            start <= i <= b@.len(),
            d == b@.skip(start as int),
            digits_only_value(d) <= max,
            acc == digits_only_value(d.take(i - start)),
        decreases b@.len() - i,
    {
        let c = b[i];
        proof {
            lemma_digits_value_prefix(d, i - start + 1);
            assert(d.take(i - start + 1).drop_last() =~= d.take(i - start));
            assert(d.take(i - start + 1).last() == c);
        }
        if c >= 0x30 && c <= 0x39 {
            acc = acc * 10 + (c - 0x30) as u64;
        }
        i = i + 1;
    }
    assert(d.take(i - start) =~= d);
    acc
}

/// An unsigned setting: the digits of the text, other bytes ignored.
pub fn parse_u64_const(s: &str) -> (r: u64)
    requires
        digits_only_value(s.spec_bytes()) <= u64::MAX,
    ensures
        r == digits_only_value(s.spec_bytes()),
{
    let b = s.as_bytes();
    assert(b@.skip(0) =~= b@);
    digits_value_from(b, 0, u64::MAX)
}

/// An 8-bit setting: the digits of the text, truncated to the low 8 bits.
pub fn parse_u8_const(s: &str) -> (r: u8)
    requires
        digits_only_value(s.spec_bytes()) <= u64::MAX,
    ensures
        r == (digits_only_value(s.spec_bytes()) as u64) as u8,
{
    parse_u64_const(s) as u8
}

/// A 32-bit setting: the digits of the text, truncated to the low 32 bits.
pub fn parse_u32_const(s: &str) -> (r: u32)
    requires
        digits_only_value(s.spec_bytes()) <= u64::MAX,
    ensures
        r == (digits_only_value(s.spec_bytes()) as u64) as u32,
{
    parse_u64_const(s) as u32
}

/// A signed setting: an optional leading `-`, then the digits of the rest, other bytes
/// ignored.
pub fn parse_i64_const(s: &str) -> (r: i64)
    requires
        spec_i64_const(s.spec_bytes()) >= -i64::MAX,
        spec_i64_const(s.spec_bytes()) <= i64::MAX,
    ensures
        r == spec_i64_const(s.spec_bytes()),
{
    let b = s.as_bytes();
    if b.len() == 0 {
        return 0;
    }
    let neg = b[0] == 0x2D;
    let start: usize = if neg { 1 } else { 0 };
    assert(b@.skip(0) =~= b@);
    proof {
        lemma_digits_value_nonneg(b@.skip(start as int));
    }
    let acc = digits_value_from(b, start, 0x7FFF_FFFF_FFFF_FFFF);
    if neg {
        -(acc as i64)
    } else {
        acc as i64
    }
}

} // verus!
