//! Decoding of one fixed-width timestamp record.
//!
//! A record uses the round-trip format `YYYY-MM-DDTHH:mm:ss.fffffffZ`, which
//! is 28 bytes long:
//!
//! ```text
//!    2022-04-14T02:32:53.4028225Z
//!    **** ** ** ** ** ** *******
//!    0123456789012345678901234567
//! ```
//!
//! Only the starred digit fields are read. The separators at offsets 4, 7,
//! 10, 13, 16, 19 and 27 are never inspected.
//!
//! The fraction of a second is kept as written: seven digits, that is a count
//! of 100-nanosecond ticks. `MyDateTime::nanoseconds` scales it.
use crate::parse::{
    self, all_digits, decimal_value, digit_of, is_digit, lemma_decimal_value_2, lemma_decimal_value_4,
    lemma_decimal_value_7, ZERO,
};
use vstd::arithmetic::div_mod::{lemma_mod_add_multiples_vanish, lemma_small_mod};
use vstd::prelude::*;

verus! {

/// Length of one encoded record.
pub const RECORD_LEN: usize = 28;

/// One decoded point in time.
#[derive(Clone, Copy, Debug, PartialEq, Eq, Structural)]
pub struct MyDateTime {
    pub year: u16,
    pub month: u16,
    pub day: u16,
    pub hour: u16,
    pub minute: u16,
    pub second: u16,
    /// The seven fractional digits: units of 100 ns.
    pub microseconds: u32,
}

/// How much checking a decode does.
#[derive(Clone, Copy, Debug, PartialEq, Eq, Structural)]
pub enum DecodeMode {
    /// Every field byte must be a digit, and the record at least 28 bytes.
    Validating,
    /// No byte is checked; the record must be exactly 28 bytes.
    NonValidating,
}

/// The bytes `start .. start + width` of `s`.
pub open spec fn field(s: Seq<u8>, start: int, width: int) -> Seq<u8> {
    s.subrange(start, start + width)
}

/// `i` is the offset of a byte of one of the seven numeric fields.
pub open spec fn is_field_offset(i: int) -> bool {
    ||| 0 <= i <= 3
    ||| 5 <= i <= 6
    ||| 8 <= i <= 9
    ||| 11 <= i <= 12
    ||| 14 <= i <= 15
    ||| 17 <= i <= 18
    ||| 20 <= i <= 26
}

/// Every numeric field of `s` is made of digits.
pub open spec fn fields_are_digits(s: Seq<u8>) -> bool {
    &&& all_digits(field(s, 0, 4))
    &&& all_digits(field(s, 5, 2))
    &&& all_digits(field(s, 8, 2))
    &&& all_digits(field(s, 11, 2))
    &&& all_digits(field(s, 14, 2))
    &&& all_digits(field(s, 17, 2))
    &&& all_digits(field(s, 20, 7))
}

/// The fields of `s` read as numbers.
pub open spec fn fields_value(s: Seq<u8>) -> MyDateTime {
    MyDateTime {
        year: decimal_value(field(s, 0, 4)) as u16,
        month: decimal_value(field(s, 5, 2)) as u16,
        day: decimal_value(field(s, 8, 2)) as u16,
        hour: decimal_value(field(s, 11, 2)) as u16,
        minute: decimal_value(field(s, 14, 2)) as u16,
        second: decimal_value(field(s, 17, 2)) as u16,
        microseconds: decimal_value(field(s, 20, 7)) as u32,
    }
}

/// The fields of `s` read with wrapping arithmetic: the year modulo 2^16,
/// each two-digit field modulo 2^8 and the fraction modulo 2^32.
pub open spec fn fields_wrapping_value(s: Seq<u8>) -> MyDateTime {
    MyDateTime {
        year: (decimal_value(field(s, 0, 4)) % 0x1_0000) as u16,
        month: (decimal_value(field(s, 5, 2)) % 0x100) as u16,
        day: (decimal_value(field(s, 8, 2)) % 0x100) as u16,
        hour: (decimal_value(field(s, 11, 2)) % 0x100) as u16,
        minute: (decimal_value(field(s, 14, 2)) % 0x100) as u16,
        second: (decimal_value(field(s, 17, 2)) % 0x100) as u16,
        microseconds: (decimal_value(field(s, 20, 7)) % 0x1_0000_0000) as u32,
    }
}

/// What the validating decoder gives for `s`.
pub open spec fn validating_decode(s: Seq<u8>) -> Option<MyDateTime> {
    if s.len() >= RECORD_LEN && fields_are_digits(s) {
        Some(fields_value(s))
    } else {
        None
    }
}

/// What the non-validating decoder gives for `s`.
pub open spec fn wrapping_decode(s: Seq<u8>) -> Option<MyDateTime> {
    if s.len() == RECORD_LEN {
        Some(fields_wrapping_value(s))
    } else {
        None
    }
}

/// A two-byte field at `i`, unrolled: `10 * s[i] + s[i + 1] - 11 * '0'`.
pub open spec fn unrolled_2(s: Seq<u8>, i: int) -> int {
    10 * s[i] + s[i + 1] - 11 * 48
}

/// The year field, unrolled over the raw bytes.
pub open spec fn unrolled_year(s: Seq<u8>) -> int {
    1000 * s[0] + 100 * s[1] + 10 * s[2] + s[3] - 1111 * 48
}

/// The fraction field, unrolled over the raw bytes.
pub open spec fn unrolled_fraction(s: Seq<u8>) -> int {
    1000000 * s[20] + 100000 * s[21] + 10000 * s[22] + 1000 * s[23] + 100 * s[24] + 10 * s[25]
        + s[26] - 1111111 * 48
}

/// What the unrolled decoder gives for `s`: each sum taken modulo the width
/// of its field.
pub open spec fn unrolled_decode(s: Seq<u8>) -> Option<MyDateTime> {
    if s.len() == RECORD_LEN {
        Some(
            MyDateTime {
                year: (unrolled_year(s) % 0x1_0000) as u16,
                month: (unrolled_2(s, 5) % 0x1_0000) as u16,
                day: (unrolled_2(s, 8) % 0x1_0000) as u16,
                hour: (unrolled_2(s, 11) % 0x1_0000) as u16,
                minute: (unrolled_2(s, 14) % 0x1_0000) as u16,
                second: (unrolled_2(s, 17) % 0x1_0000) as u16,
                microseconds: (unrolled_fraction(s) % 0x1_0000_0000) as u32,
            },
        )
    } else {
        None
    }
}

/// The ten powers used to bound a run of digits.
pub open spec fn pow10(n: nat) -> int
    decreases n,
{
    if n == 0 {
        1
    } else {
        10 * pow10((n - 1) as nat)
    }
}

/// The powers of ten that bound the field widths.
pub proof fn lemma_pow10_values()
    ensures
        pow10(2) == 100,
        pow10(4) == 10000,
        pow10(7) == 10000000,
{
    reveal_with_fuel(pow10, 8);
}

/// A run of `n` digits is worth less than `10^n`.
pub proof fn lemma_digits_bound(s: Seq<u8>)
    requires
        all_digits(s),
    ensures
        0 <= decimal_value(s) < pow10(s.len()),
    decreases s.len(),
{
    if s.len() > 0 {
        let d = s.drop_last();
        assert(all_digits(d)) by {
            assert forall|i: int| 0 <= i < d.len() implies is_digit(#[trigger] d[i]) by {
                assert(d[i] == s[i]);
            }
        }
        lemma_digits_bound(d);
        assert(is_digit(s[s.len() - 1]));
        let a = decimal_value(d);
        let p = pow10(d.len());
        let g = digit_of(s.last());
        assert(0 <= g <= 9);
        assert(a * 10 + g < p * 10) by (nonlinear_arith)
            requires
                0 <= a < p,
                0 <= g <= 9,
        ;
    }
}

/// A digit field narrower than the modulus is unchanged by wrapping.
proof fn lemma_field_fits(s: Seq<u8>, start: int, width: int, modulus: int)
    requires
        0 <= start,
        0 <= width,
        start + width <= s.len(),
        all_digits(field(s, start, width)),
        pow10(width as nat) <= modulus,
    ensures
        decimal_value(field(s, start, width)) % modulus == decimal_value(field(s, start, width)),
{
    lemma_digits_bound(field(s, start, width));
    lemma_small_mod(decimal_value(field(s, start, width)) as nat, modulus as nat);
}

/// Subtracting a constant and wrapping by adding the modulus once.
proof fn lemma_wrap_once(x: int, m: int)
    requires
        m > 0,
    ensures
        (x + m) % m == x % m,
{
    lemma_mod_add_multiples_vanish(x, m);
}

/// On a 28-byte record whose numeric fields are all digits, the validating
/// and the non-validating decoders give the same fields.
pub proof fn lemma_decoders_agree(s: Seq<u8>)
    requires
        s.len() == RECORD_LEN,
        fields_are_digits(s),
    ensures
        validating_decode(s) is Some,
        validating_decode(s) == wrapping_decode(s),
        validating_decode(s) == unrolled_decode(s),
{
    lemma_pow10_values();
    lemma_field_fits(s, 0, 4, 0x1_0000);
    lemma_field_fits(s, 5, 2, 0x100);
    lemma_field_fits(s, 8, 2, 0x100);
    lemma_field_fits(s, 11, 2, 0x100);
    lemma_field_fits(s, 14, 2, 0x100);
    lemma_field_fits(s, 17, 2, 0x100);
    lemma_field_fits(s, 20, 7, 0x1_0000_0000);
    lemma_unrolled_digits(s);
}

/// On digit fields the unrolled sums are the field values.
proof fn lemma_unrolled_digits(s: Seq<u8>)
    requires
        s.len() == RECORD_LEN,
        fields_are_digits(s),
    ensures
        unrolled_decode(s) == Some(fields_value(s)),
{
    lemma_pow10_values();
    let y = field(s, 0, 4);
    let f = field(s, 20, 7);
    lemma_decimal_value_4(y);
    lemma_decimal_value_7(f);
    assert(is_digit(y[0]) && is_digit(y[1]) && is_digit(y[2]) && is_digit(y[3]));
    assert(is_digit(f[0]) && is_digit(f[1]) && is_digit(f[2]) && is_digit(f[3]));
    assert(is_digit(f[4]) && is_digit(f[5]) && is_digit(f[6]));
    lemma_field_fits(s, 0, 4, 0x1_0000);
    lemma_field_fits(s, 20, 7, 0x1_0000_0000);
    lemma_unrolled_2(s, 5);
    lemma_unrolled_2(s, 8);
    lemma_unrolled_2(s, 11);
    lemma_unrolled_2(s, 14);
    lemma_unrolled_2(s, 17);
}

/// A two-digit field read unrolled is its value.
proof fn lemma_unrolled_2(s: Seq<u8>, i: int)
    requires
        0 <= i,
        i + 2 <= s.len(),
        all_digits(field(s, i, 2)),
    ensures
        unrolled_2(s, i) % 0x1_0000 == decimal_value(field(s, i, 2)),
{
    let g = field(s, i, 2);
    lemma_decimal_value_2(g);
    assert(is_digit(g[0]) && is_digit(g[1]));
    lemma_pow10_values();
    lemma_field_fits(s, i, 2, 0x1_0000);
}

/// A record with a non-digit byte in a numeric field is refused by the
/// validating decoder, and still decoded by the non-validating one.
pub proof fn lemma_non_digit_rejected(s: Seq<u8>, i: int)
    requires
        s.len() >= RECORD_LEN,
        is_field_offset(i),
        !is_digit(s[i]),
    ensures
        validating_decode(s) is None,
        s.len() == RECORD_LEN ==> wrapping_decode(s) is Some,
{
    if 0 <= i <= 3 {
        assert(field(s, 0, 4)[i] == s[i]);
    } else if 5 <= i <= 6 {
        assert(field(s, 5, 2)[i - 5] == s[i]);
    } else if 8 <= i <= 9 {
        assert(field(s, 8, 2)[i - 8] == s[i]);
    } else if 11 <= i <= 12 {
        assert(field(s, 11, 2)[i - 11] == s[i]);
    } else if 14 <= i <= 15 {
        assert(field(s, 14, 2)[i - 14] == s[i]);
    } else if 17 <= i <= 18 {
        assert(field(s, 17, 2)[i - 17] == s[i]);
    } else {
        assert(field(s, 20, 7)[i - 20] == s[i]);
    }
}

/// A two-byte field at `i` read unrolled.
fn unrolled_pair(t: &[u8], i: usize) -> (r: u16)
    requires
        i + 2 <= t@.len(),
    ensures
        r == unrolled_2(t@, i as int) % 0x1_0000,
{
    let raw: u32 = 10 * t[i] as u32 + t[i + 1] as u32;
    let base: u32 = 11 * ZERO as u32;
    proof {
        lemma_wrap_once(raw - base, 0x1_0000);
    }
    ((raw + 0x1_0000 - base) % 0x1_0000) as u16
}

impl MyDateTime {
    /// Validating decode: `None` if the record is shorter than 28 bytes or a
    /// numeric field holds a non-digit byte.
    pub fn parse_validating(value: &[u8]) -> (r: Option<MyDateTime>)
        ensures
            r == validating_decode(value@),
            value@.len() < RECORD_LEN ==> r is None,
    {
        if value.len() < RECORD_LEN {
            return None;
        }
        let year = parse::u16(&value[0..4]);
        let month = parse::u8(&value[5..7]);
        let day = parse::u8(&value[8..10]);
        let hour = parse::u8(&value[11..13]);
        let minute = parse::u8(&value[14..16]);
        let second = parse::u8(&value[17..19]);
        let microseconds = parse::u32(&value[20..27]);
        proof {
            lemma_pow10_values();
            let s = value@;
            if all_digits(field(s, 0, 4)) {
                lemma_digits_bound(field(s, 0, 4));
            }
            if all_digits(field(s, 5, 2)) {
                lemma_digits_bound(field(s, 5, 2));
            }
            if all_digits(field(s, 8, 2)) {
                lemma_digits_bound(field(s, 8, 2));
            }
            if all_digits(field(s, 11, 2)) {
                lemma_digits_bound(field(s, 11, 2));
            }
            if all_digits(field(s, 14, 2)) {
                lemma_digits_bound(field(s, 14, 2));
            }
            if all_digits(field(s, 17, 2)) {
                lemma_digits_bound(field(s, 17, 2));
            }
            if all_digits(field(s, 20, 7)) {
                lemma_digits_bound(field(s, 20, 7));
            }
        }
        match (year, month, day, hour, minute, second, microseconds) {
            (Some(year), Some(month), Some(day), Some(hour), Some(minute), Some(second), Some(microseconds)) => {
                Some(
                    MyDateTime {
                        year,
                        month: month as u16,
                        day: day as u16,
                        hour: hour as u16,
                        minute: minute as u16,
                        second: second as u16,
                        microseconds,
                    },
                )
            },
            _ => None,
        }
    }

    /// Non-validating decode: the record must be exactly 28 bytes; any byte is
    /// accepted and a non-digit yields wrapped garbage.
    pub fn parse_noerrors(value: &[u8]) -> (r: Option<MyDateTime>)
        ensures
            r == wrapping_decode(value@),
    {
        if value.len() != RECORD_LEN {
            return None;
        }
        let year = parse::u16_ne(&value[0..4]);
        let month = parse::u8_2ne(&value[5..7]) as u16;
        let day = parse::u8_2ne(&value[8..10]) as u16;
        let hour = parse::u8_2ne(&value[11..13]) as u16;
        let minute = parse::u8_2ne(&value[14..16]) as u16;
        let second = parse::u8_2ne(&value[17..19]) as u16;
        let microseconds = parse::u32_ne(&value[20..27]);
        proof {
            let s = value@;
            assert(s.subrange(5, 7).subrange(0, 2) =~= field(s, 5, 2));
            assert(s.subrange(8, 10).subrange(0, 2) =~= field(s, 8, 2));
            assert(s.subrange(11, 13).subrange(0, 2) =~= field(s, 11, 2));
            assert(s.subrange(14, 16).subrange(0, 2) =~= field(s, 14, 2));
            assert(s.subrange(17, 19).subrange(0, 2) =~= field(s, 17, 2));
        }
        Some(MyDateTime { year, month, day, hour, minute, second, microseconds })
    }

    /// Unrolled non-validating decode: each field is one sum over its raw
    /// bytes less the weight of `'0'`, wrapping modulo the field's width. The
    /// record must be exactly 28 bytes.
    pub fn parse_unrolled(t: &[u8]) -> (r: Option<MyDateTime>)
        ensures
            r == unrolled_decode(t@),
    {
        if t.len() != RECORD_LEN {
            return None;
        }
        let year_raw: u32 = 1000 * t[0] as u32 + 100 * t[1] as u32 + 10 * t[2] as u32 + t[3] as u32;
        let year_base: u32 = 1111 * ZERO as u32;
        proof {
            lemma_wrap_once(year_raw - year_base, 0x1_0000);
        }
        let year = ((year_raw + 0x1_0000 - year_base) % 0x1_0000) as u16;
        let month = unrolled_pair(t, 5);
        let day = unrolled_pair(t, 8);
        let hour = unrolled_pair(t, 11);
        let minute = unrolled_pair(t, 14);
        let second = unrolled_pair(t, 17);
        let fraction_raw: u64 = 1000000 * t[20] as u64 + 100000 * t[21] as u64 + 10000 * t[22] as u64
            + 1000 * t[23] as u64 + 100 * t[24] as u64 + 10 * t[25] as u64 + t[26] as u64;
        let fraction_base: u64 = 1111111 * ZERO as u64;
        proof {
            lemma_wrap_once(fraction_raw - fraction_base, 0x1_0000_0000);
        }
        let microseconds = ((fraction_raw + 0x1_0000_0000 - fraction_base) % 0x1_0000_0000) as u32;
        Some(MyDateTime { year, month, day, hour, minute, second, microseconds })
    }

    /// Decodes with the checking that `mode` asks for.
    pub fn decode(value: &[u8], mode: DecodeMode) -> (r: Option<MyDateTime>)
        ensures
            r == (match mode {
                DecodeMode::Validating => validating_decode(value@),
                DecodeMode::NonValidating => wrapping_decode(value@),
            }),
    {
        match mode {
            DecodeMode::Validating => MyDateTime::parse_validating(value),
            DecodeMode::NonValidating => MyDateTime::parse_noerrors(value),
        }
    }

    /// The fraction of a second in nanoseconds.
    pub fn nanoseconds(&self) -> (r: u64)
        ensures
            r == self.microseconds * 100,
    {
        self.microseconds as u64 * 100
    }
}

} // verus!
