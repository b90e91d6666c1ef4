//! Decoding a record held as text: each numeric field is checked to be ASCII
//! digits, then read with std's integer parsing.
use crate::datetime::{
    field, lemma_digits_bound, lemma_pow10_values, pow10, validating_decode, MyDateTime, RECORD_LEN,
};
use crate::parse::{all_digits, decimal_value, is_digit, ZERO};
use vstd::prelude::*;
use vstd::string::StringSliceAdditionalSpecFns;
use vstd::utf8::{
    encode_utf8_valid_utf8, is_char_boundary, is_char_boundary_iff_not_is_continuation_byte,
    is_char_boundary_start_end_of_seq, length_of_first_scalar, pop_first_scalar, valid_first_scalar,
    valid_utf8, valid_utf8_split,
};

verus! {

/// The byte `'+'`.
pub open spec fn is_plus(c: u8) -> bool {
    c == 43
}

/// Text that std's unsigned integer parsing accepts as a number: an optional
/// `+` followed by at least one ASCII digit.
pub open spec fn unsigned_text(b: Seq<u8>) -> bool {
    ||| b.len() >= 1 && !is_plus(b[0]) && all_digits(b)
    ||| b.len() >= 2 && is_plus(b[0]) && all_digits(b.subrange(1, b.len() as int))
}

/// The digits of unsigned text, without its sign.
pub open spec fn unsigned_digits(b: Seq<u8>) -> Seq<u8> {
    if b.len() > 0 && is_plus(b[0]) {
        b.subrange(1, b.len() as int)
    } else {
        b
    }
}

/// Relies on `str::get` with a byte range: the bytes `start..end` when both
/// ends lie on character boundaries, `None` otherwise.
#[verifier::external_body]
fn str_get(s: &str, start: usize, end: usize) -> (r: Option<&str>)
    requires
        start <= end <= s.spec_bytes().len(),
    ensures
        r is Some <==> (is_char_boundary(s.spec_bytes(), start as int) && is_char_boundary(s.spec_bytes(), end as int)),
        r matches Some(t) ==> t.spec_bytes() == s.spec_bytes().subrange(start as int, end as int),
{
    s.get(start..end)
}

/// Relies on `str::parse::<u16>`: an optional `+` and at least one digit,
/// whose value fits.
#[verifier::external_body]
fn parse_u16_text(s: &str) -> (r: Option<u16>)
    ensures
        r is Some <==> (unsigned_text(s.spec_bytes()) && decimal_value(unsigned_digits(s.spec_bytes())) <= u16::MAX),
        r matches Some(v) ==> v == decimal_value(unsigned_digits(s.spec_bytes())),
{
    s.parse::<u16>().ok()
}

/// Relies on `str::parse::<u32>`: an optional `+` and at least one digit,
/// whose value fits.
#[verifier::external_body]
fn parse_u32_text(s: &str) -> (r: Option<u32>)
    ensures
        r is Some <==> (unsigned_text(s.spec_bytes()) && decimal_value(unsigned_digits(s.spec_bytes())) <= u32::MAX),
        r matches Some(v) ==> v == decimal_value(unsigned_digits(s.spec_bytes())),
{
    s.parse::<u32>().ok()
}

proof fn lemma_pow10_mono(a: nat, b: nat)
    requires
        a <= b,
    ensures
        1 <= pow10(a) <= pow10(b),
    decreases b,
{
    if b > 0 {
        if a < b {
            lemma_pow10_mono(a, (b - 1) as nat);
        }
        lemma_pow10_mono(0, (b - 1) as nat);
    }
}

/// Unsigned text of at most `width` bytes is worth less than `10^width`.
proof fn lemma_unsigned_bound(b: Seq<u8>, width: nat)
    requires
        unsigned_text(b),
        b.len() <= width,
    ensures
        0 <= decimal_value(unsigned_digits(b)) < pow10(width),
{
    lemma_digits_bound(unsigned_digits(b));
    lemma_pow10_mono(unsigned_digits(b).len(), width);
}

/// A run of ASCII digits inside valid UTF-8 starts and ends on character
/// boundaries.
pub proof fn lemma_digit_field_boundaries(b: Seq<u8>, start: int, width: int)
    requires
        valid_utf8(b),
        0 <= start,
        0 < width,
        start + width <= b.len(),
        all_digits(field(b, start, width)),
    ensures
        is_char_boundary(b, start),
        is_char_boundary(b, start + width),
    decreases width,
{
    assert(field(b, start, width)[0] == b[start]);
    assert(is_digit(b[start]));
    is_char_boundary_iff_not_is_continuation_byte(b, start);
    if width > 1 {
        assert(all_digits(field(b, start + 1, width - 1))) by {
            assert forall|i: int| 0 <= i < width - 1 implies is_digit(
                #[trigger] field(b, start + 1, width - 1)[i],
            ) by {
                assert(field(b, start + 1, width - 1)[i] == field(b, start, width)[i + 1]);
            }
        }
        lemma_digit_field_boundaries(b, start + 1, width - 1);
    } else {
        let e = start + 1;
        if e == b.len() {
            is_char_boundary_start_end_of_seq(b);
        } else {
            valid_utf8_split(b, start);
            let rest = b.subrange(start, b.len() as int);
            assert(rest[0] == b[start]);
            assert(valid_first_scalar(rest));
            assert(length_of_first_scalar(rest) == 1);
            let after = pop_first_scalar(rest);
            assert(after =~= b.subrange(e, b.len() as int));
            assert(valid_utf8(after));
            assert(after.len() > 0);
            assert(valid_first_scalar(after));
            assert(after[0] == b[e]);
            is_char_boundary_iff_not_is_continuation_byte(b, e);
        }
    }
}

/// Whether the bytes `start..start + width` of `b` are all ASCII digits.
fn digits_at(b: &[u8], start: usize, width: usize) -> (r: bool)
    requires
        start + width <= RECORD_LEN <= b@.len(),
    ensures
        r == all_digits(field(b@, start as int, width as int)),
{
    let mut i: usize = 0;
    while i < width
        invariant
            i <= width,
            start + width <= RECORD_LEN <= b@.len(),
            forall|k: int| 0 <= k < i ==> is_digit(#[trigger] field(b@, start as int, width as int)[k]),
        decreases width - i,
    {
        let c = b[start + i];
        assert(field(b@, start as int, width as int)[i as int] == c);
        if c < ZERO || c > ZERO + 9 {
            return false;
        }
        i += 1;
    }
    true
}

/// The digit field `start..start + width` of `value`, read with
/// `str::parse::<u16>`.
fn text_field_u16(value: &str, start: usize, width: usize) -> (r: Option<u16>)
    requires
        start + width <= RECORD_LEN <= value.spec_bytes().len(),
        0 < width <= 4,
        all_digits(field(value.spec_bytes(), start as int, width as int)),
    ensures
        r == Some(decimal_value(field(value.spec_bytes(), start as int, width as int)) as u16),
{
    proof {
        encode_utf8_valid_utf8(value@);
        lemma_digit_field_boundaries(value.spec_bytes(), start as int, width as int);
    }
    match str_get(value, start, start + width) {
        Some(t) => {
            proof {
                let f = field(value.spec_bytes(), start as int, width as int);
                assert(t.spec_bytes() == f);
                assert(!is_plus(f[0])) by {
                    assert(is_digit(f[0]));
                }
                assert(unsigned_digits(f) == f);
                lemma_unsigned_bound(f, 4);
                lemma_pow10_values();
            }
            parse_u16_text(t)
        },
        None => None,
    }
}

/// The digit field `start..start + width` of `value`, read with
/// `str::parse::<u32>`.
fn text_field_u32(value: &str, start: usize, width: usize) -> (r: Option<u32>)
    requires
        start + width <= RECORD_LEN <= value.spec_bytes().len(),
        0 < width <= 7,
        all_digits(field(value.spec_bytes(), start as int, width as int)),
    ensures
        r == Some(decimal_value(field(value.spec_bytes(), start as int, width as int)) as u32),
{
    proof {
        encode_utf8_valid_utf8(value@);
        lemma_digit_field_boundaries(value.spec_bytes(), start as int, width as int);
    }
    match str_get(value, start, start + width) {
        Some(t) => {
            proof {
                let f = field(value.spec_bytes(), start as int, width as int);
                assert(t.spec_bytes() == f);
                assert(!is_plus(f[0])) by {
                    assert(is_digit(f[0]));
                }
                assert(unsigned_digits(f) == f);
                lemma_unsigned_bound(f, 7);
                lemma_pow10_values();
            }
            parse_u32_text(t)
        },
        None => None,
    }
}

impl MyDateTime {
    /// Decodes a record held as text, with the same result as the validating
    /// decode of its bytes: `None` if the text is shorter than 28 bytes or a
    /// numeric field holds a byte that is not an ASCII digit. Each field, once
    /// checked, is read by std's integer parsing.
    pub fn parse_str(value: &str) -> (r: Option<MyDateTime>)
        ensures
            r == validating_decode(value.spec_bytes()),
    {
        let b = value.as_bytes();
        if b.len() < RECORD_LEN {
            return None;
        }
        if !(digits_at(b, 0, 4) && digits_at(b, 5, 2) && digits_at(b, 8, 2) && digits_at(b, 11, 2)
            && digits_at(b, 14, 2) && digits_at(b, 17, 2) && digits_at(b, 20, 7)) {
            return None;
        }
        proof {
            encode_utf8_valid_utf8(value@);
            lemma_pow10_values();
            let s = value.spec_bytes();
            lemma_digits_bound(field(s, 0, 4));
            lemma_digits_bound(field(s, 5, 2));
            lemma_digits_bound(field(s, 8, 2));
            lemma_digits_bound(field(s, 11, 2));
            lemma_digits_bound(field(s, 14, 2));
            lemma_digits_bound(field(s, 17, 2));
            lemma_digits_bound(field(s, 20, 7));
        }
        let year = match text_field_u16(value, 0, 4) {
            Some(v) => v,
            None => return None,
        };
        let month = match text_field_u16(value, 5, 2) {
            Some(v) => v,
            None => return None,
        };
        let day = match text_field_u16(value, 8, 2) {
            Some(v) => v,
            None => return None,
        };
        let hour = match text_field_u16(value, 11, 2) {
            Some(v) => v,
            None => return None,
        };
        let minute = match text_field_u16(value, 14, 2) {
            Some(v) => v,
            None => return None,
        };
        let second = match text_field_u16(value, 17, 2) {
            Some(v) => v,
            None => return None,
        };
        let microseconds = match text_field_u32(value, 20, 7) {
            Some(v) => v,
            None => return None,
        };
        Some(MyDateTime { year, month, day, hour, minute, second, microseconds })
    }
}

} // verus!
