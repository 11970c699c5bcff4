//! Decimal numbers as the wire protocol writes them.

use vstd::prelude::*;

verus! {

/// An ASCII decimal digit.
pub open spec fn is_digit(b: u8) -> bool {
    0x30 <= b <= 0x39
}

/// How many bytes at the start of `s` are decimal digits.
pub open spec fn digit_run(s: Seq<u8>) -> nat
    decreases s.len(),
{
    if s.len() > 0 && is_digit(s[0]) {
        1 + digit_run(s.drop_first())
    } else {
        0
    }
}

/// The value of a string of decimal digits, most significant first.
pub open spec fn digits_value(s: Seq<u8>) -> int
    decreases s.len(),
{
    if s.len() == 0 {
        0
    } else {
        10 * digits_value(s.drop_last()) + (s.last() - 0x30)
    }
}

/// `atoi` on a byte string: an optional `+` or `-`, then the longest run of
/// digits; anything after the digits is ignored. There is no number when the
/// input neither starts with a sign nor with a digit, or when the value does
/// not fit in an `i64`. A lone sign reads as zero.
pub open spec fn spec_atoi(s: Seq<u8>) -> Option<i64> {
    if s.len() == 0 {
        None
    } else {
        let neg = s[0] == 0x2d;
        let off: int = if s[0] == 0x2d || s[0] == 0x2b { 1 } else { 0 };
        let rest = s.skip(off);
        let n = digit_run(rest);
        let mag = digits_value(rest.take(n as int));
        let v = if neg { -mag } else { mag };
        if off == 0 && n == 0 {
            None
        } else if i64::MIN <= v <= i64::MAX {
            Some(v as i64)
        } else {
            None
        }
    }
}

/// Calls `atoi::atoi::<i64>`. Its source reads an optional sign, then digits
/// with checked arithmetic, and answers `None` when no byte was used or the
/// arithmetic overflowed; that is `spec_atoi`, which this wrapper claims.
#[verifier::external_body]
pub(crate) fn atoi_i64(data: &[u8]) -> (r: Option<i64>)
    ensures
        r == spec_atoi(data@),
{
    atoi::atoi::<i64>(data)
}

/// Reads the number at the start of a protocol field.
pub fn u8_to_i64(data: &[u8]) -> (r: i64)
    requires
        spec_atoi(data@).is_some(),
    ensures
        spec_atoi(data@) == Some(r),
{
    match atoi_i64(data) {
        Some(v) => v,
        None => 0,
    }
}


/// The value of a string of decimal digit characters.
pub open spec fn chars_value(s: Seq<char>) -> int
    decreases s.len(),
{
    if s.len() == 0 {
        0
    } else {
        10 * chars_value(s.drop_last()) + (s.last() as int - 48)
    }
}

/// Text read as an `i64` the way `str::parse` reads it: an optional `+` or
/// `-`, then one or more digits and nothing else, with a value that fits.
pub open spec fn spec_parse_i64(s: Seq<char>) -> Option<i64> {
    if s.len() == 0 {
        None
    } else {
        let neg = s[0] == '-';
        let off: int = if s[0] == '-' || s[0] == '+' { 1 } else { 0 };
        let d = s.skip(off);
        let mag = chars_value(d);
        let v = if neg { -mag } else { mag };
        if d.len() == 0 {
            None
        } else if exists|i: int| 0 <= i < d.len() && !('0' <= #[trigger] d[i] <= '9') {
            None
        } else if i64::MIN <= v <= i64::MAX {
            Some(v as i64)
        } else {
            None
        }
    }
}

/// Calls `str::parse::<i64>`, whose documentation reads an optional sign
/// followed by digits only and fails on anything else and on a value out of
/// range; that is `spec_parse_i64`. The error is the text of the standard
/// library's `ParseIntError`, of which nothing is claimed.
#[verifier::external_body]
pub(crate) fn parse_i64(s: &str) -> (r: Result<i64, String>)
    ensures
        match r {
            Ok(v) => spec_parse_i64(s@) == Some(v),
            Err(_) => spec_parse_i64(s@) is None,
        },
{
    match s.parse::<i64>() {
        Ok(v) => Ok(v),
        Err(e) => Err(e.to_string()),
    }
}

} // verus!
