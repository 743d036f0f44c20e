//! The body of a hexadecimal floating-point number (what follows `0x`):
//! its grammar, its exact value, and its conversion, correctly rounded.

use vstd::prelude::*;
use vstd::arithmetic::power2::{pow2, lemma_pow2_pos, lemma_pow2_adds};
use crate::chars::{byte_at, is_digit_in, digit_of, is_dec_digit, at, at_offset};
use crate::integer::{digit_run_end, digits_value};
use crate::errors::{Errno, range_error, range_errno};
use crate::float_format::FloatFormat;
use crate::rounding::{correctly_rounded, rounding_inexact, is_range_error, round_to_format, clamp_i64, tracks_exponent, saturating_add_i64};

verus! {

// ---------------------------------------------------------------------------
// The grammar: hex digits with at most one point, then `p` or `P`, an
// optional sign and decimal digits, the exponent counting only if it has a
// digit.
// ---------------------------------------------------------------------------

/// The end of the significand scanned from `i`, `point` telling whether a
/// point has been seen.
pub open spec fn hex_significand_end(s: Seq<u8>, i: int, point: bool) -> int
    decreases s.len() - i,
{
    if 0 <= i < s.len() && is_digit_in(s[i], 16) {
        hex_significand_end(s, i + 1, point)
    } else if 0 <= i < s.len() && s[i] == 0x2E && !point {
        hex_significand_end(s, i + 1, true)
    } else {
        i
    }
}

/// Whether a point occurs in `s[..k]`.
pub open spec fn point_before(s: Seq<u8>, k: int) -> bool
    decreases k,
{
    if k <= 0 {
        false
    } else {
        point_before(s, k - 1) || s[k - 1] == 0x2E
    }
}

/// Whether a digit occurs in `s[..k]`.
pub open spec fn hex_any_digit(s: Seq<u8>, k: int) -> bool
    decreases k,
{
    if k <= 0 {
        false
    } else {
        hex_any_digit(s, k - 1) || s[k - 1] != 0x2E
    }
}

/// The number that the digits of `s[..k]` denote, the point left out.
pub open spec fn hex_digits_value(s: Seq<u8>, k: int) -> nat
    decreases k,
{
    if k <= 0 {
        0
    } else if s[k - 1] == 0x2E {
        hex_digits_value(s, k - 1)
    } else {
        hex_digits_value(s, k - 1) * 16 + digit_of(s[k - 1])
    }
}

/// The number of bytes after the point in `s[..k]` other than a point: the
/// digits after the point, in a significand.
pub open spec fn digits_after_point(s: Seq<u8>, k: int) -> nat
    decreases k,
{
    if k <= 0 {
        0
    } else if s[k - 1] == 0x2E {
        digits_after_point(s, k - 1)
    } else {
        digits_after_point(s, k - 1) + if point_before(s, k - 1) {
            1nat
        } else {
            0nat
        }
    }
}

/// Where the digits of a binary exponent starting at `k` would begin.
pub open spec fn bin_exp_digits(s: Seq<u8>, k: int) -> int {
    if byte_at(s, k + 1) == 0x2B || byte_at(s, k + 1) == 0x2D {
        k + 2
    } else {
        k + 1
    }
}

/// Whether a binary exponent (`p` or `P`, a sign, at least one digit)
/// starts at `k`.
pub open spec fn has_bin_exp(s: Seq<u8>, k: int) -> bool {
    (byte_at(s, k) == 0x70 || byte_at(s, k) == 0x50) && is_dec_digit(byte_at(s, bin_exp_digits(s, k)))
}

/// The end of the binary exponent starting at `k`.
pub open spec fn bin_exp_end(s: Seq<u8>, k: int) -> int {
    digit_run_end(s, bin_exp_digits(s, k), 10)
}

/// The value of the binary exponent at `k`, or 0 when there is none.
pub open spec fn bin_exp_value(s: Seq<u8>, k: int) -> int {
    if has_bin_exp(s, k) {
        let v = digits_value(s, bin_exp_digits(s, k), bin_exp_end(s, k), 10);
        if byte_at(s, k + 1) == 0x2D {
            -v
        } else {
            v as int
        }
    } else {
        0
    }
}

/// The end of the significand of a hexadecimal body.
pub open spec fn hex_mantissa_end(s: Seq<u8>) -> int {
    hex_significand_end(s, 0, false)
}

/// Whether a hexadecimal body has a digit, and so converts.
pub open spec fn hex_converts(s: Seq<u8>) -> bool {
    hex_any_digit(s, hex_mantissa_end(s))
}

/// The end of a hexadecimal body: after the exponent if there is one.
pub open spec fn hex_end(s: Seq<u8>) -> int {
    let k = hex_mantissa_end(s);
    if has_bin_exp(s, k) {
        bin_exp_end(s, k)
    } else {
        k
    }
}

/// The digits of a hexadecimal body, as one integer.
pub open spec fn hex_digits(s: Seq<u8>) -> nat {
    hex_digits_value(s, hex_mantissa_end(s))
}

/// The binary exponent that scales `hex_digits`: the written exponent, less
/// four for each digit after the point. The body denotes
/// `hex_digits(s) · 2^hex_exponent(s)` exactly.
pub open spec fn hex_exponent(s: Seq<u8>) -> int {
    let k = hex_mantissa_end(s);
    bin_exp_value(s, k) - 4 * digits_after_point(s, k)
}

/// The significand and the whole of a body that converts are not empty and
/// lie within it.
pub proof fn lemma_hex_end_bounds(s: Seq<u8>)
    requires
        hex_converts(s),
    ensures
        1 <= hex_mantissa_end(s) <= hex_end(s) <= s.len(),
{
    lemma_significand_end_bounds(s, 0, false);
    let k = hex_mantissa_end(s);
    if k <= 0 {
        assert(!hex_any_digit(s, k));
    }
    if has_bin_exp(s, k) {
        crate::integer::lemma_digit_run_end_ge(s, bin_exp_digits(s, k), 10);
        lemma_run_end_le(s, bin_exp_digits(s, k), 10);
    }
}

/// The significand scan ends within the string.
pub(crate) proof fn lemma_significand_end_bounds(s: Seq<u8>, i: int, point: bool)
    requires
        0 <= i <= s.len(),
    ensures
        i <= hex_significand_end(s, i, point) <= s.len(),
    decreases s.len() - i,
{
    if 0 <= i < s.len() && is_digit_in(s[i], 16) {
        lemma_significand_end_bounds(s, i + 1, point);
    } else if 0 <= i < s.len() && s[i] == 0x2E && !point {
        lemma_significand_end_bounds(s, i + 1, true);
    }
}

/// A digit run that starts at a digit ends within the string.
proof fn lemma_run_end_le(s: Seq<u8>, i: int, radix: nat)
    requires
        0 <= i,
        is_digit_in(byte_at(s, i), radix),
    ensures
        digit_run_end(s, i, radix) <= s.len(),
    decreases s.len() - i,
{
    assert(digit_run_end(s, i, radix) == digit_run_end(s, i + 1, radix));
    if i + 1 < s.len() && is_digit_in(s[i + 1], radix) {
        lemma_run_end_le(s, i + 1, radix);
    } else {
        assert(digit_run_end(s, i + 1, radix) == i + 1);
    }
}

/// The error reported with a rounded result.
pub open spec fn range_errno_if(error: bool) -> Option<Errno> {
    if error {
        Some(range_error())
    } else {
        None
    }
}

// ---------------------------------------------------------------------------
// Helpers
// ---------------------------------------------------------------------------

/// The value of a hexadecimal digit.
fn hex_digit_value(c: u8) -> (r: Option<u64>)
    ensures
        r is Some <==> is_digit_in(c, 16),
        r matches Some(d) ==> d == digit_of(c) && d < 16,
{
    match crate::chars::ascii_digit(c) {
        Some(d) => if d < 16 {
            Some(d as u64)
        } else {
            None
        },
        None => None,
    }
}

/// Whether a byte is a decimal digit.
pub fn dec_digit(c: u8) -> (r: bool)
    ensures
        r == is_dec_digit(c),
        r == is_digit_in(c, 10),
{
    0x30 <= c && c <= 0x39
}

/// `p · 10 + d`, saturating at `i64::MAX`.
fn saturating_push_digit(p: i64, d: i64) -> (r: i64)
    requires
        0 <= p,
        0 <= d <= 9,
    ensures
        r == (if p * 10 + d > i64::MAX { i64::MAX as int } else { p * 10 + d }),
{
    let t = match p.checked_mul(10) {
        Some(v) => v,
        None => i64::MAX,
    };
    saturating_add_i64(t, d)
}

/// Adding a saturated exponent to a small one keeps track of the exact sum.
proof fn lemma_exponent_sum_tracks(a: i64, v: nat, negative: bool, p: i64)
    requires
        -0x4000_0000_0000_0000 < a < 0x4000_0000_0000_0000,
        p == (if v > i64::MAX { i64::MAX as int } else { v as int }),
    ensures
        tracks_exponent(
            clamp_i64(a + (if negative { -p } else { p as int })) as i64,
            a + (if negative { -v } else { v as int }),
        ),
{
}


/// One step of the significand scan keeps its account of the digits: those
/// kept in `m`, those dropped into `rest`, and the exponent of `m`'s units.
proof fn lemma_scan_digit_step(s: Seq<u8>, k: int, m: nat, j: nat, rest: nat, dig: nat)
    requires
        0 <= k < s.len(),
        s[k] != 0x2E,
        dig == digit_of(s[k]),
        dig < 16,
        hex_digits_value(s, k) == m * pow2(4 * j) + rest,
        rest < pow2(4 * j),
    ensures
        m < 0x1000_0000_0000_0000 && j == 0 ==> hex_digits_value(s, k + 1) == (m * 16 + dig) * pow2(0) + 0
            && (0nat) < pow2(0),
        hex_digits_value(s, k + 1) == m * pow2(4 * (j + 1)) + (rest * 16 + dig),
        rest * 16 + dig < pow2(4 * (j + 1)),
        (rest * 16 + dig > 0) == (rest > 0 || dig > 0),
{
    vstd::arithmetic::power2::lemma2_to64();
    lemma_pow2_adds(4 * j, 4);
    assert(4 * (j + 1) == 4 * j + 4);
    lemma_pow2_pos(4 * j);
    assert(pow2(4 * (j + 1)) == pow2(4 * j) * 16);
    assert(hex_digits_value(s, k + 1) == hex_digits_value(s, k) * 16 + dig);
    assert((m * pow2(4 * j) + rest) * 16 + dig == m * (pow2(4 * j) * 16) + (rest * 16 + dig)) by (nonlinear_arith);
    assert(rest * 16 + dig < pow2(4 * j) * 16) by (nonlinear_arith)
        requires rest + 1 <= pow2(4 * j), dig < 16;
    if j == 0 {
        assert(pow2(0) == 1);
        assert(rest == 0);
        assert(m * pow2(0) == m) by (nonlinear_arith)
            requires pow2(0) == 1;
        assert((m * 16 + dig) * pow2(0) == m * 16 + dig) by (nonlinear_arith)
            requires pow2(0) == 1;
    }
}

/// Converts the body of a hexadecimal floating-point number, what follows
/// `0x`, to the nearest value of the format, ties to even; returns its bit
/// pattern with `ERANGE` when the result overflowed or is a tiny inexact
/// one. With no digit the result is zero and `endoff` is left alone;
/// otherwise `endoff` receives the length of the body.
pub fn hex(s: &[u8], endoff: &mut usize, f: FloatFormat) -> (r: (u64, Option<Errno>))
    requires
        s@.len() < 0x1000_0000_0000_0000,
    ensures
        !hex_converts(s@) ==> *final(endoff) == *old(endoff) && r == (0u64, None::<Errno>),
        hex_converts(s@) ==> *final(endoff) == hex_end(s@),
        hex_converts(s@) ==> r.0 == correctly_rounded(hex_digits(s@), hex_exponent(s@), f),
        r.0 <= crate::float_format::infinity_bits(f),
        hex_converts(s@) ==> r.1 == range_errno_if(
            is_range_error(r.0 as nat, rounding_inexact(hex_digits(s@), hex_exponent(s@), f), f),
        ),
{
    let ghost sq = s@;
    let mut m: u64 = 0;
    let mut exp: i64 = 0;
    let mut sticky = false;
    let mut k: usize = 0;
    let mut any = false;
    let mut point = false;
    let ghost mut j: nat = 0;
    let ghost mut rest: nat = 0;
    proof {
        vstd::arithmetic::power2::lemma2_to64();
    }
    loop
        invariant_except_break
            sq == s@,
            k <= s.len() < 0x1000_0000_0000_0000,
            hex_significand_end(sq, k as int, point) == hex_mantissa_end(sq),
            point == point_before(sq, k as int),
            any == hex_any_digit(sq, k as int),
            hex_digits_value(sq, k as int) == m * pow2(4 * j) + rest,
            rest < pow2(4 * j),
            sticky == (rest > 0),
            j > 0 ==> m >= 0x1000_0000_0000_0000,
            exp == 4 * j - 4 * digits_after_point(sq, k as int),
            -4 * k <= exp <= 4 * k,
            pow2(0) == 1,
        ensures
            sq == s@,
            k <= s.len() < 0x1000_0000_0000_0000,
            k == hex_mantissa_end(sq),
            any == hex_any_digit(sq, k as int),
            hex_digits_value(sq, k as int) == m * pow2(4 * j) + rest,
            rest < pow2(4 * j),
            sticky == (rest > 0),
            j > 0 ==> m >= 0x1000_0000_0000_0000,
            exp == 4 * j - 4 * digits_after_point(sq, k as int),
            -4 * k <= exp <= 4 * k,
        decreases s.len() - k,
    {
        let c = at(s, k);
        match hex_digit_value(c) {
            Some(d) => {
                proof {
                    lemma_scan_digit_step(sq, k as int, m as nat, j, rest, d as nat);
                }
                any = true;
                if m < 0x1000_0000_0000_0000 {
                    m = m * 16 + d;
                    if point {
                        exp -= 4;
                    }
                    proof {
                        j = 0;
                        rest = 0;
                    }
                } else {
                    sticky = sticky || d != 0;
                    if !point {
                        exp += 4;
                    }
                    proof {
                        j = j + 1;
                        rest = rest * 16 + d as nat;
                    }
                }
            },
            None => {
                if c == 0x2E && !point {
                    point = true;
                } else {
                    break ;
                }
            },
        }
        k += 1;
    }
    if !any {
        return (0, None);
    }
    *endoff = k;
    let ghost d_all = hex_digits(sq);
    let ghost t: nat = 4 * j;
    let ghost x = hex_exponent(sq);
    let c = at(s, k);
    if c == 0x70 || c == 0x50 {
        let c1 = at_offset(s, k, 1);
        let neg = c1 == 0x2D;
        let mut e: usize = if c1 == 0x2B || c1 == 0x2D {
            k + 2
        } else {
            k + 1
        };
        let ghost e0 = e as int;
        assert(e0 == bin_exp_digits(sq, k as int));
        if dec_digit(at(s, e)) {
            let mut p: i64 = 0;
            while dec_digit(at(s, e))
                invariant
                    sq == s@,
                    e0 <= e <= s.len(),
                    digit_run_end(sq, e as int, 10) == digit_run_end(sq, e0, 10),
                    p == (if digits_value(sq, e0, e as int, 10) > i64::MAX {
                        i64::MAX as int
                    } else {
                        digits_value(sq, e0, e as int, 10) as int
                    }),
                decreases s.len() - e,
            {
                proof {
                    assert(digit_run_end(sq, e as int, 10) == digit_run_end(sq, e as int + 1, 10));
                    let v = digits_value(sq, e0, e as int, 10);
                    assert(digits_value(sq, e0, e as int + 1, 10) == v * 10 + digit_of(sq[e as int]));
                }
                p = saturating_push_digit(p, (at(s, e) - 0x30) as i64);
                e += 1;
            }
            *endoff = e;
            proof {
                lemma_exponent_sum_tracks(exp, digits_value(sq, e0, e as int, 10), neg, p);
            }
            exp = saturating_add_i64(exp, if neg { -p } else { p });
        }
    }
    assert(tracks_exponent(exp, x + t));
    if m == 0 {
        proof {
            if j > 0 {
                assert(false);
            }
            assert(pow2(0) == 1);
            assert(d_all == 0) by (nonlinear_arith)
                requires d_all == m * pow2(4 * j) + rest, m == 0, rest < 1, j == 0;
            let fb = crate::float_format::fraction_bits(f);
            lemma_pow2_pos(fb);
            assert(crate::float_format::infinity_bits(f) > 0) by (nonlinear_arith)
                requires
                    crate::float_format::infinity_bits(f) == (2 * crate::float_format::max_exp(f) + 1) as nat * pow2(fb),
                    pow2(fb) > 0,
                    crate::float_format::max_exp(f) > 0;
        }
        return (0, None);
    }
    proof {
        vstd::arithmetic::power2::lemma2_to64_rest();
        lemma_pow2_pos(t);
        assert(m * pow2(t) <= d_all < (m + 1) * pow2(t)) by (nonlinear_arith)
            requires d_all == m * pow2(t) + rest, rest < pow2(t);
    }
    let (bits, error) = round_to_format(m, exp, sticky, f, Ghost(d_all), Ghost(x), Ghost(t));
    (bits, if error {
        Some(range_errno())
    } else {
        None
    })
}

} // verus!
