//! Handwritten conversion of ASCII digit runs to integers.
//!
//! Functions without a suffix check every byte and report a value only for a
//! run of digits that fits the result type. The `_ne` suffix means no error
//! checking: the subtraction of `'0'` wraps modulo 256 and the accumulation
//! wraps modulo the width of the result, so a non-digit byte yields garbage
//! rather than an error. `_4ne` and `_2ne` are unrolled for a fixed count of
//! leading digits.
use vstd::arithmetic::div_mod::{lemma_add_mod_noop, lemma_mul_mod_noop_left};
use vstd::prelude::*;

verus! {

/// The byte `'0'`.
pub const ZERO: u8 = 48;

/// `c` is an ASCII digit `'0'..='9'`.
pub open spec fn is_digit(c: u8) -> bool {
    48 <= c <= 57
}

/// Every byte of `s` is an ASCII digit.
pub open spec fn all_digits(s: Seq<u8>) -> bool {
    forall|i: int| 0 <= i < s.len() ==> is_digit(#[trigger] s[i])
}

/// The byte `c` minus `'0'`, wrapping modulo 256 as `u8::wrapping_sub` does.
pub open spec fn digit_of(c: u8) -> int {
    if c >= 48 {
        c - 48
    } else {
        c + 208
    }
}

/// Base-10 positional value of `s`, each byte contributing `digit_of`.
/// On a run of ASCII digits this is the number the run spells.
pub open spec fn decimal_value(s: Seq<u8>) -> int
    decreases s.len(),
{
    if s.len() == 0 {
        0
    } else {
        decimal_value(s.drop_last()) * 10 + digit_of(s.last())
    }
}

pub proof fn lemma_decimal_value_nonneg(s: Seq<u8>)
    ensures
        decimal_value(s) >= 0,
    decreases s.len(),
{
    if s.len() > 0 {
        lemma_decimal_value_nonneg(s.drop_last());
    }
}

/// A prefix of a digit run is worth no more than the whole run.
pub proof fn lemma_prefix_value_le(s: Seq<u8>, j: int)
    requires
        0 <= j <= s.len(),
        all_digits(s),
    ensures
        decimal_value(s.subrange(0, j)) <= decimal_value(s),
    decreases s.len(),
{
    if j < s.len() {
        let d = s.drop_last();
        assert(all_digits(d)) by {
            assert forall|i: int| 0 <= i < d.len() implies is_digit(#[trigger] d[i]) by {
                assert(d[i] == s[i]);
            }
        }
        lemma_prefix_value_le(d, j);
        assert(d.subrange(0, j) =~= s.subrange(0, j));
        lemma_decimal_value_nonneg(d);
    } else {
        assert(s.subrange(0, j) =~= s);
    }
}

/// A run of four bytes, written out.
pub proof fn lemma_decimal_value_4(s: Seq<u8>)
    requires
        s.len() == 4,
    ensures
        decimal_value(s) == 1000 * digit_of(s[0]) + 100 * digit_of(s[1]) + 10 * digit_of(s[2])
            + digit_of(s[3]),
{
    let s3 = s.drop_last();
    let s2 = s3.drop_last();
    let s1 = s2.drop_last();
    let s0 = s1.drop_last();
    assert(decimal_value(s0) == 0);
    assert(s1.last() == s[0] && s2.last() == s[1] && s3.last() == s[2] && s.last() == s[3]);
    assert(decimal_value(s1) == digit_of(s[0]));
    assert(decimal_value(s2) == decimal_value(s1) * 10 + digit_of(s[1]));
    assert(decimal_value(s3) == decimal_value(s2) * 10 + digit_of(s[2]));
}

/// A run of seven bytes, written out.
pub proof fn lemma_decimal_value_7(s: Seq<u8>)
    requires
        s.len() == 7,
    ensures
        decimal_value(s) == 1000000 * digit_of(s[0]) + 100000 * digit_of(s[1]) + 10000 * digit_of(
            s[2],
        ) + 1000 * digit_of(s[3]) + 100 * digit_of(s[4]) + 10 * digit_of(s[5]) + digit_of(s[6]),
{
    let s6 = s.drop_last();
    lemma_decimal_value_4(s6.subrange(0, 4));
    let s5 = s6.drop_last();
    let s4 = s5.drop_last();
    assert(s4 =~= s6.subrange(0, 4));
    assert(s5.last() == s[4] && s6.last() == s[5] && s.last() == s[6]);
    assert(s4[0] == s[0] && s4[1] == s[1] && s4[2] == s[2] && s4[3] == s[3]);
    assert(decimal_value(s5) == decimal_value(s4) * 10 + digit_of(s[4]));
    assert(decimal_value(s6) == decimal_value(s5) * 10 + digit_of(s[5]));
    assert(decimal_value(s) == decimal_value(s6) * 10 + digit_of(s[6]));
}

/// A run of two bytes, written out.
pub proof fn lemma_decimal_value_2(s: Seq<u8>)
    requires
        s.len() == 2,
    ensures
        decimal_value(s) == 10 * digit_of(s[0]) + digit_of(s[1]),
{
    let s1 = s.drop_last();
    let s0 = s1.drop_last();
    assert(decimal_value(s0) == 0);
    assert(s1.last() == s[0] && s.last() == s[1]);
    assert(decimal_value(s1) == digit_of(s[0]));
}

/// Validating accumulation into a `u64`; `None` on a non-digit byte or when
/// the value passes `max`.
fn checked_decimal(value: &[u8], max: u64) -> (r: Option<u64>)
    requires
        max <= u32::MAX,
    ensures
        r is Some <==> all_digits(value@) && decimal_value(value@) <= max,
        r is Some ==> r.unwrap() == decimal_value(value@),
{
    let mut result: u64 = 0;
    let mut i: usize = 0;
    while i < value.len()
        invariant
            0 <= i <= value.len(),
            max <= u32::MAX,
            all_digits(value@.subrange(0, i as int)),
            result == decimal_value(value@.subrange(0, i as int)),
            result <= max,
        decreases value.len() - i,
    {
        let c = value[i];
        let digit = c.wrapping_sub(ZERO);
        let ghost prefix = value@.subrange(0, i as int + 1);
        assert(prefix.drop_last() =~= value@.subrange(0, i as int));
        if digit >= 10 {
            assert(!is_digit(value@[i as int]));
            return None;
        }
        let next: u64 = result * 10 + digit as u64;
        assert(next == decimal_value(prefix));
        assert(all_digits(prefix)) by {
            assert forall|k: int| 0 <= k < prefix.len() implies is_digit(#[trigger] prefix[k]) by {
                if k < i {
                    assert(prefix[k] == value@.subrange(0, i as int)[k]);
                }
            }
        }
        if next > max {
            proof {
                if all_digits(value@) {
                    lemma_prefix_value_le(value@, i as int + 1);
                }
            }
            return None;
        }
        result = next;
        i += 1;
    }
    assert(value@.subrange(0, value@.len() as int) =~= value@);
    Some(result)
}

/// Wrapping accumulation: the decimal value taken modulo `modulus`.
fn wrapping_decimal(value: &[u8], modulus: u64) -> (r: u64)
    requires
        0 < modulus <= 0x1_0000_0000,
    ensures
        r == decimal_value(value@) % (modulus as int),
{
    let mut result: u64 = 0;
    let mut i: usize = 0;
    assert(decimal_value(value@.subrange(0, 0)) == 0);
    assert(0int % (modulus as int) == 0) by (nonlinear_arith)
        requires modulus > 0;
    while i < value.len()
        invariant
            0 <= i <= value.len(),
            0 < modulus <= 0x1_0000_0000,
            result == decimal_value(value@.subrange(0, i as int)) % (modulus as int),
        decreases value.len() - i,
    {
        let digit = value[i].wrapping_sub(ZERO);
        let ghost prefix = value@.subrange(0, i as int + 1);
        let ghost before = decimal_value(value@.subrange(0, i as int));
        assert(prefix.drop_last() =~= value@.subrange(0, i as int));
        assert(digit == digit_of(value@[i as int]));
        let next: u64 = (result * 10 + digit as u64) % modulus;
        proof {
            let m = modulus as int;
            lemma_mul_mod_noop_left(before, 10, m);
            lemma_add_mod_noop((before % m) * 10, digit as int, m);
            lemma_add_mod_noop(before * 10, digit as int, m);
        }
        result = next;
        i += 1;
    }
    assert(value@.subrange(0, value@.len() as int) =~= value@);
    result
}

/// Parses a run of digits into a `u32`: `None` if a byte is not a digit or
/// the value does not fit.
pub fn u32(value: &[u8]) -> (r: Option<u32>)
    ensures
        r is Some <==> all_digits(value@) && decimal_value(value@) <= u32::MAX,
        r is Some ==> r.unwrap() == decimal_value(value@),
{
    match checked_decimal(value, u32::MAX as u64) {
        Some(v) => Some(v as u32),
        None => None,
    }
}

/// Accumulates the bytes into a `u32` without checking them.
pub fn u32_ne(value: &[u8]) -> (r: u32)
    ensures
        r == decimal_value(value@) % 0x1_0000_0000,
{
    wrapping_decimal(value, 0x1_0000_0000) as u32
}

/// Parses a run of digits into a `u16`: `None` if a byte is not a digit or
/// the value does not fit.
pub fn u16(value: &[u8]) -> (r: Option<u16>)
    ensures
        r is Some <==> all_digits(value@) && decimal_value(value@) <= u16::MAX,
        r is Some ==> r.unwrap() == decimal_value(value@),
{
    match checked_decimal(value, u16::MAX as u64) {
        Some(v) => Some(v as u16),
        None => None,
    }
}

/// Accumulates the bytes into a `u16` without checking them.
pub fn u16_ne(value: &[u8]) -> (r: u16)
    ensures
        r == decimal_value(value@) % 0x1_0000,
{
    wrapping_decimal(value, 0x1_0000) as u16
}

/// The first four bytes as a `u16`, unrolled and unchecked.
pub fn u16_4ne(value: &[u8]) -> (r: u16)
    requires
        value@.len() >= 4,
    ensures
        r == decimal_value(value@.subrange(0, 4)) % 0x1_0000,
{
    let d0 = value[0].wrapping_sub(ZERO) as u32;
    let d1 = value[1].wrapping_sub(ZERO) as u32;
    let d2 = value[2].wrapping_sub(ZERO) as u32;
    let d3 = value[3].wrapping_sub(ZERO) as u32;
    let sum: u32 = 1000 * d0 + 100 * d1 + 10 * d2 + d3;
    proof {
        lemma_decimal_value_4(value@.subrange(0, 4));
    }
    (sum % 0x1_0000) as u16
}

/// Parses a run of digits into a `u8`: `None` if a byte is not a digit or
/// the value does not fit.
pub fn u8(value: &[u8]) -> (r: Option<u8>)
    ensures
        r is Some <==> all_digits(value@) && decimal_value(value@) <= u8::MAX,
        r is Some ==> r.unwrap() == decimal_value(value@),
{
    match checked_decimal(value, u8::MAX as u64) {
        Some(v) => Some(v as u8),
        None => None,
    }
}

/// Accumulates the bytes into a `u8` without checking them.
pub fn u8_ne(value: &[u8]) -> (r: u8)
    ensures
        r == decimal_value(value@) % 0x100,
{
    wrapping_decimal(value, 0x100) as u8
}

/// The first two bytes as a `u8`, unrolled and unchecked.
pub fn u8_2ne(value: &[u8]) -> (r: u8)
    requires
        value@.len() >= 2,
    ensures
        r == decimal_value(value@.subrange(0, 2)) % 0x100,
{
    let d0 = value[0].wrapping_sub(ZERO) as u16;
    let d1 = value[1].wrapping_sub(ZERO) as u16;
    let sum: u16 = 10 * d0 + d1;
    proof {
        lemma_decimal_value_2(value@.subrange(0, 2));
    }
    (sum % 0x100) as u8
}

} // verus!
