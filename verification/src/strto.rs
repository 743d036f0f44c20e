//! The integer part of `strtod` and `strtof`: which kind of number a string
//! starts with, where it ends, and, for all but decimal numbers, the bit
//! pattern of the result. A decimal number's value comes from a correctly
//! rounded decimal parser outside this crate; `decimal_outcome` finishes it.

use vstd::prelude::*;
use vstd::arithmetic::power2::pow2;
use crate::chars::{byte_at, is_dec_digit, is_digit_in, at, at_offset, c_space, skip_space};
use crate::integer::{digit_run_end, after_sign, int_negative, sign_index};
use crate::errors::{Errno, range_errno};
use crate::float_format::{FloatFormat, fraction_bits, infinity_bits, sign_bit, width};
use crate::rounding::{correctly_rounded, rounding_inexact, is_range_error};
use crate::hexfloat::{hex, hex_converts, hex_end, hex_digits, hex_exponent, range_errno_if, dec_digit};
use crate::nan::{nan, nan_bits, nan_has_parens, nan_parens_len};

verus! {

/// What a floating-point conversion found at the start of a string.
#[derive(Clone, Copy, Debug, PartialEq, Eq, Structural)]
pub enum FloatScan {
    /// A finished conversion: the bit pattern of the result, sign included,
    /// the error if any, and the end offset.
    Converted { bits: u64, error: Option<Errno>, end: usize },
    /// A decimal number, whose value is still to be parsed from the unsigned
    /// token `s[start..end]`; its significand (digits and point) ends at
    /// `mantissa_end`.
    Decimal { negative: bool, start: usize, mantissa_end: usize, end: usize },
}

/// `c` in lower case, for ASCII letters.
pub open spec fn ascii_lower(c: u8) -> u8 {
    if 0x41 <= c <= 0x5A {
        (c + 32) as u8
    } else {
        c
    }
}

/// Whether `inf`, in any case, stands at `p`.
pub open spec fn word_inf(s: Seq<u8>, p: int) -> bool {
    &&& 0 <= p && p + 3 <= s.len()
    &&& ascii_lower(s[p]) == 0x69 && ascii_lower(s[p + 1]) == 0x6E && ascii_lower(s[p + 2]) == 0x66
}

/// Whether `infinity`, in any case, stands at `p`.
pub open spec fn word_infinity(s: Seq<u8>, p: int) -> bool {
    &&& word_inf(s, p)
    &&& p + 8 <= s.len()
    &&& ascii_lower(s[p + 3]) == 0x69 && ascii_lower(s[p + 4]) == 0x6E && ascii_lower(s[p + 5])
        == 0x69 && ascii_lower(s[p + 6]) == 0x74 && ascii_lower(s[p + 7]) == 0x79
}

/// Whether `nan`, in any case, stands at `p`.
pub open spec fn word_nan(s: Seq<u8>, p: int) -> bool {
    &&& 0 <= p && p + 3 <= s.len()
    &&& ascii_lower(s[p]) == 0x6E && ascii_lower(s[p + 1]) == 0x61 && ascii_lower(s[p + 2]) == 0x6E
}

/// Whether a number starts at `p`: a digit, or a point and a digit.
pub open spec fn starts_number(s: Seq<u8>, p: int) -> bool {
    is_dec_digit(byte_at(s, p)) || (byte_at(s, p) == 0x2E && is_dec_digit(byte_at(s, p + 1)))
}

/// Whether a hexadecimal prefix `0x` or `0X` stands at `p`.
pub open spec fn hex_prefix(s: Seq<u8>, p: int) -> bool {
    byte_at(s, p) == 0x30 && (byte_at(s, p + 1) == 0x78 || byte_at(s, p + 1) == 0x58)
}

/// The end of the significand of a decimal number at `p`: digits, and a
/// point with the digits after it.
pub open spec fn dec_mantissa_end(s: Seq<u8>, p: int) -> int {
    let n = digit_run_end(s, p, 10);
    if byte_at(s, n) == 0x2E {
        digit_run_end(s, n + 1, 10)
    } else {
        n
    }
}

/// Where the digits of a decimal exponent after the significand would start.
pub open spec fn dec_exp_digits(s: Seq<u8>, n: int) -> int {
    if byte_at(s, n + 1) == 0x2B || byte_at(s, n + 1) == 0x2D {
        n + 2
    } else {
        n + 1
    }
}

/// The end of a decimal number at `p`: after the exponent when `e` or `E`,
/// a sign and at least one digit follow the significand.
pub open spec fn dec_end(s: Seq<u8>, p: int) -> int {
    let n = dec_mantissa_end(s, p);
    let e = dec_exp_digits(s, n);
    if (byte_at(s, n) == 0x65 || byte_at(s, n) == 0x45) && is_dec_digit(byte_at(s, e)) {
        digit_run_end(s, e, 10)
    } else {
        n
    }
}

/// A pattern with the sign bit set when `negative`.
pub open spec fn with_sign(bits: nat, negative: bool, f: FloatFormat) -> nat {
    if negative {
        bits + sign_bit(f)
    } else {
        bits
    }
}

/// What `scan_float` finds in `s`, for the format `f`.
pub open spec fn float_scan(s: Seq<u8>, f: FloatFormat) -> FloatScan {
    let p = after_sign(s);
    let neg = int_negative(s);
    if !starts_number(s, p) {
        if word_inf(s, p) {
            FloatScan::Converted {
                bits: with_sign(infinity_bits(f), neg, f) as u64,
                error: None,
                end: (p + if word_infinity(s, p) { 8int } else { 3int }) as usize,
            }
        } else if word_nan(s, p) {
            let after = s.subrange(p + 3, s.len() as int);
            FloatScan::Converted {
                bits: with_sign(nan_bits(after, f), neg, f) as u64,
                error: None,
                end: (p + 3 + if nan_has_parens(after) { nan_parens_len(after) } else { 0int }) as usize,
            }
        } else {
            FloatScan::Converted { bits: 0, error: None, end: 0 }
        }
    } else if hex_prefix(s, p) {
        let body = s.subrange(p + 2, s.len() as int);
        if hex_converts(body) {
            let d = hex_digits(body);
            let x = hex_exponent(body);
            let bits = correctly_rounded(d, x, f);
            FloatScan::Converted {
                bits: with_sign(bits, neg, f) as u64,
                error: range_errno_if(is_range_error(bits, rounding_inexact(d, x, f), f)),
                end: (p + 2 + hex_end(body)) as usize,
            }
        } else {
            FloatScan::Converted { bits: with_sign(0, neg, f) as u64, error: None, end: (p + 1) as usize }
        }
    } else {
        FloatScan::Decimal {
            negative: neg,
            start: p as usize,
            mantissa_end: dec_mantissa_end(s, p) as usize,
            end: dec_end(s, p) as usize,
        }
    }
}


/// The sign, and the number after it, lie within the string.
pub proof fn lemma_after_sign_bounds(s: Seq<u8>)
    ensures
        0 <= sign_index(s) <= after_sign(s) <= s.len(),
{
    lemma_skip_space_bounds(s, 0);
}

/// Skipping whitespace stays within the string.
proof fn lemma_skip_space_bounds(s: Seq<u8>, i: int)
    requires
        0 <= i <= s.len(),
    ensures
        i <= skip_space(s, i) <= s.len(),
    decreases s.len() - i,
{
    if 0 <= i < s.len() && crate::chars::is_c_space(s[i]) {
        lemma_skip_space_bounds(s, i + 1);
    }
}

/// `c` in lower case, for ASCII letters.
fn lower(c: u8) -> (r: u8)
    ensures
        r == ascii_lower(c),
{
    if 0x41 <= c && c <= 0x5A {
        c + 32
    } else {
        c
    }
}

/// The end of the run of decimal digits from `k`.
fn dec_run_end(s: &[u8], k: usize) -> (r: usize)
    requires
        k <= s.len(),
    ensures
        r == digit_run_end(s@, k as int, 10),
        k <= r <= s.len(),
{
    let mut n = k;
    while n < s.len() && dec_digit(s[n])
        invariant
            k <= n <= s.len(),
            digit_run_end(s@, n as int, 10) == digit_run_end(s@, k as int, 10),
        decreases s.len() - n,
    {
        n += 1;
    }
    n
}

/// Finds what kind of number `s` starts with, after C whitespace and a sign:
/// infinity, a NaN, a hexadecimal number (converted here, correctly rounded)
/// or a decimal one (left to a decimal parser), or none (+0.0 and end 0,
/// even after a `-`).
pub fn scan_float(s: &[u8], f: FloatFormat) -> (r: FloatScan)
    requires
        s@.len() < 0x1000_0000_0000_0000,
    ensures
        r == float_scan(s@, f),
{
    let ghost sq = s@;
    let mut i: usize = 0;
    while c_space(at(s, i))
        invariant
            i <= s.len(),
            skip_space(sq, i as int) == skip_space(sq, 0),
            sq == s@,
        decreases s.len() - i,
    {
        i += 1;
    }
    assert(i == sign_index(sq));
    let negative = at(s, i) == 0x2D;
    if at(s, i) == 0x2B || at(s, i) == 0x2D {
        i += 1;
    }
    assert(i == after_sign(sq));
    let sign: u64 = if negative {
        f.sign_bit()
    } else {
        0
    };
    proof {
        vstd::arithmetic::power2::lemma2_to64();
        vstd::arithmetic::power2::lemma2_to64_rest();
        assert(pow2(52) == 0x10_0000_0000_0000) by {
            vstd::arithmetic::power2::lemma_pow2_adds(48, 4);
        }
        crate::float_format::lemma_format_bounds(f);
    }
    let c0 = at(s, i);
    let c1 = at_offset(s, i, 1);
    if !(dec_digit(c0) || (c0 == 0x2E && dec_digit(c1))) {
        if s.len() - i >= 3 && lower(s[i]) == 0x69 && lower(s[i + 1]) == 0x6E && lower(s[i + 2]) == 0x66 {
            let long = s.len() - i >= 8 && lower(s[i + 3]) == 0x69 && lower(s[i + 4]) == 0x6E
                && lower(s[i + 5]) == 0x69 && lower(s[i + 6]) == 0x74 && lower(s[i + 7]) == 0x79;
            let end = i + if long {
                8
            } else {
                3
            };
            return FloatScan::Converted { bits: f.infinity_bits() + sign, error: None, end };
        }
        if s.len() - i >= 3 && lower(s[i]) == 0x6E && lower(s[i + 1]) == 0x61 && lower(s[i + 2]) == 0x6E {
            let mut nan_end: usize = 0;
            let value = nan(&s[i + 3..s.len()], &mut nan_end, f);
            proof {
                let after = sq.subrange(i + 3, sq.len() as int);
                assert(nan_has_parens(after) ==> nan_parens_len(after) <= after.len());
                let seq = after.subrange(1, crate::nan::nchar_run_end(after, 1));
                vstd::arithmetic::power2::lemma_pow2_pos((fraction_bits(f) - 1) as nat);
                assert(crate::nan::base0_saturated(seq) % (pow2((fraction_bits(f) - 1) as nat) as int) < pow2((fraction_bits(f) - 1) as nat));
                assert(nan_bits(after, f) < sign_bit(f));
            }
            nan_end += i + 3;
            return FloatScan::Converted { bits: value + sign, error: None, end: nan_end };
        }
        return FloatScan::Converted { bits: 0, error: None, end: 0 };
    }
    if c0 == 0x30 && (c1 == 0x78 || c1 == 0x58) {
        let mut hex_endoff: usize = 0;
        let ghost body = sq.subrange(i + 2, sq.len() as int);
        let (value, error) = hex(&s[i + 2..s.len()], &mut hex_endoff, f);
        proof {
            if hex_converts(body) {
                crate::hexfloat::lemma_hex_end_bounds(body);
            }
        }
        let end = if hex_endoff == 0 {
            i + 1
        } else {
            i + 2 + hex_endoff
        };
        return FloatScan::Converted { bits: value + sign, error, end };
    }
    let mut n = dec_run_end(s, i);
    if at(s, n) == 0x2E {
        n = dec_run_end(s, n + 1);
    }
    let mantissa_end = n;
    let c = at(s, n);
    if c == 0x65 || c == 0x45 {
        let c1 = at_offset(s, n, 1);
        let e = if c1 == 0x2B || c1 == 0x2D {
            n + 2
        } else {
            n + 1
        };
        if dec_digit(at(s, e)) {
            n = dec_run_end(s, e);
        }
    }
    FloatScan::Decimal { negative, start: i, mantissa_end, end: n }
}

} // verus!
