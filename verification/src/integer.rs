//! `strtol` and its relatives: the grammar of a C integer, and the value,
//! end offset and error that a conversion gives for it.

use vstd::prelude::*;
use vstd::arithmetic::power2::{pow2, lemma2_to64, lemma2_to64_rest, lemma_pow2_unfold, lemma_pow2_strictly_increases};
use crate::chars::{byte_at, is_c_space, is_digit_in, digit_of, skip_space, ascii_digit, at, at_offset, c_space};
use crate::errors::{Errno, range_error, invalid_argument, range_errno, invalid_errno, set_integer_errno};

verus! {

// ---------------------------------------------------------------------------
// The grammar
// ---------------------------------------------------------------------------

/// The end of the run of base-`radix` digits that starts at `i`.
pub open spec fn digit_run_end(s: Seq<u8>, i: int, radix: nat) -> int
    decreases s.len() - i,
{
    if 0 <= i < s.len() && is_digit_in(s[i], radix) {
        digit_run_end(s, i + 1, radix)
    } else {
        i
    }
}

/// The number that the base-`radix` digits `s[from..to]` denote.
pub open spec fn digits_value(s: Seq<u8>, from: int, to: int, radix: nat) -> nat
    decreases to - from,
{
    if to <= from {
        0
    } else {
        digits_value(s, from, to - 1, radix) * radix + digit_of(s[to - 1])
    }
}

/// A base that the conversions accept: 0 (detect the base) or 2 to 36.
pub open spec fn valid_base(base: int) -> bool {
    base == 0 || 2 <= base <= 36
}

/// The index of the sign, if any: the first byte after leading whitespace.
pub open spec fn sign_index(s: Seq<u8>) -> int {
    skip_space(s, 0)
}

/// Whether a `-` sign precedes the number.
pub open spec fn int_negative(s: Seq<u8>) -> bool {
    byte_at(s, sign_index(s)) == 0x2D
}

/// The index just after the optional sign.
pub open spec fn after_sign(s: Seq<u8>) -> int {
    let w = sign_index(s);
    if byte_at(s, w) == 0x2B || byte_at(s, w) == 0x2D {
        w + 1
    } else {
        w
    }
}

/// Whether a `0x` or `0X` prefix followed by a hexadecimal digit starts the
/// number, in base 0 or 16.
pub open spec fn int_hex_prefix(s: Seq<u8>, base: int) -> bool {
    let p = after_sign(s);
    &&& base == 0 || base == 16
    &&& byte_at(s, p) == 0x30
    &&& byte_at(s, p + 1) == 0x78 || byte_at(s, p + 1) == 0x58
    &&& is_digit_in(byte_at(s, p + 2), 16)
}

/// The radix in use: 16 after a hexadecimal prefix; in base 0, 8 after a
/// leading `0` and 10 otherwise; else the base itself.
pub open spec fn int_radix(s: Seq<u8>, base: int) -> nat {
    if int_hex_prefix(s, base) {
        16
    } else if base == 0 {
        if byte_at(s, after_sign(s)) == 0x30 {
            8
        } else {
            10
        }
    } else {
        base as nat
    }
}

/// The index of the first digit.
pub open spec fn int_digits_start(s: Seq<u8>, base: int) -> int {
    if int_hex_prefix(s, base) {
        after_sign(s) + 2
    } else {
        after_sign(s)
    }
}

/// The index just after the last digit.
pub open spec fn int_digits_end(s: Seq<u8>, base: int) -> int {
    digit_run_end(s, int_digits_start(s, base), int_radix(s, base))
}

/// Whether a conversion takes place: the base is valid and there is a digit.
pub open spec fn int_converts(s: Seq<u8>, base: int) -> bool {
    valid_base(base) && int_digits_end(s, base) > int_digits_start(s, base)
}

/// The magnitude that the digits denote, however large.
pub open spec fn int_magnitude(s: Seq<u8>, base: int) -> nat {
    digits_value(s, int_digits_start(s, base), int_digits_end(s, base), int_radix(s, base))
}

/// The end offset a conversion reports: the length of the longest prefix that
/// forms a number, or 0 when there is none.
pub open spec fn int_end(s: Seq<u8>, base: int) -> int {
    if int_converts(s, base) {
        int_digits_end(s, base)
    } else {
        0
    }
}

/// The signed number written, before any limit.
pub open spec fn int_written(s: Seq<u8>, base: int) -> int {
    if int_negative(s) {
        -int_magnitude(s, base)
    } else {
        int_magnitude(s, base) as int
    }
}

// ---------------------------------------------------------------------------
// Results for a width of `w` bits
// ---------------------------------------------------------------------------

/// Whether the number lies outside the signed range of `w` bits.
pub open spec fn signed_overflow(s: Seq<u8>, base: int, w: nat) -> bool {
    int_converts(s, base) && !(-pow2((w - 1) as nat) <= int_written(s, base) < pow2(
        (w - 1) as nat,
    ))
}

/// The signed result: the number clamped to the range of `w` bits, or 0
/// when nothing converts.
pub open spec fn signed_result(s: Seq<u8>, base: int, w: nat) -> int {
    let v = int_written(s, base);
    let lo = -pow2((w - 1) as nat);
    let hi = pow2((w - 1) as nat) - 1;
    if !int_converts(s, base) {
        0
    } else if v < lo {
        lo
    } else if v > hi {
        hi
    } else {
        v
    }
}

/// Whether the magnitude does not fit in `w` unsigned bits.
pub open spec fn unsigned_overflow(s: Seq<u8>, base: int, w: nat) -> bool {
    int_converts(s, base) && int_magnitude(s, base) >= pow2(w)
}

/// The unsigned result: the largest value when the magnitude does not fit,
/// else the number written taken modulo 2^w (so a `-` negates modulo 2^w),
/// or 0 when nothing converts.
pub open spec fn unsigned_result(s: Seq<u8>, base: int, w: nat) -> int {
    if !int_converts(s, base) {
        0
    } else if unsigned_overflow(s, base, w) {
        pow2(w) - 1
    } else {
        int_written(s, base) % (pow2(w) as int)
    }
}

/// The error a conversion reports: `EINVAL` for an invalid base, `ERANGE`
/// when the result did not fit, none otherwise.
pub open spec fn int_error(base: int, overflow: bool) -> Option<Errno> {
    if !valid_base(base) {
        Some(invalid_argument())
    } else if overflow {
        Some(range_error())
    } else {
        None
    }
}


// ---------------------------------------------------------------------------
// Facts about the grammar
// ---------------------------------------------------------------------------

/// Skipping whitespace from a whitespace byte goes on from the next byte.
proof fn lemma_skip_space_step(s: Seq<u8>, i: int)
    requires
        0 <= i,
        is_c_space(byte_at(s, i)),
    ensures
        i < s.len(),
        skip_space(s, i) == skip_space(s, i + 1),
{
}

/// A digit run ends at or after its start.
pub proof fn lemma_digit_run_end_ge(s: Seq<u8>, i: int, radix: nat)
    ensures
        digit_run_end(s, i, radix) >= i,
        digit_run_end(s, i, radix) > i <==> (0 <= i < s.len() && is_digit_in(s[i], radix)),
    decreases s.len() - i,
{
    if 0 <= i < s.len() && is_digit_in(s[i], radix) {
        lemma_digit_run_end_ge(s, i + 1, radix);
    }
}

/// A digit run goes on through a digit.
proof fn lemma_digit_run_step(s: Seq<u8>, i: int, radix: nat)
    requires
        0 <= i,
        is_digit_in(byte_at(s, i), radix),
    ensures
        i < s.len(),
        digit_run_end(s, i, radix) == digit_run_end(s, i + 1, radix),
{
}

/// The value of digits grows with every digit appended.
proof fn lemma_digits_value_step(s: Seq<u8>, from: int, to: int, radix: nat)
    requires
        from <= to,
        radix >= 1,
    ensures
        digits_value(s, from, to + 1, radix) == digits_value(s, from, to, radix) * radix + digit_of(s[to]),
        digits_value(s, from, to + 1, radix) >= digits_value(s, from, to, radix),
{
    let v = digits_value(s, from, to, radix);
    assert(v * radix >= v) by (nonlinear_arith)
        requires radix >= 1, v >= 0;
}

/// Comparing `m * radix + d` with a limit through the quotient and remainder of
/// the limit, as a conversion does to avoid overflow.
proof fn lemma_overflow_test(m: int, d: int, radix: int, limit: int)
    requires
        radix > 0,
        0 <= d < radix,
        0 <= m,
        0 <= limit,
    ensures
        (m * radix + d > limit) <==> (m > limit / radix || (m == limit / radix && d > limit % radix)),
{
    let q = limit / radix;
    let r = limit % radix;
    assert(limit == q * radix + r && 0 <= r < radix) by (nonlinear_arith)
        requires radix > 0, q == limit / radix, r == limit % radix;
    if m > q {
        assert(m * radix >= (q + 1) * radix) by (nonlinear_arith)
            requires m >= q + 1, radix > 0;
    } else if m < q {
        assert(m * radix <= (q - 1) * radix) by (nonlinear_arith)
            requires m <= q - 1, radix > 0;
    }
    assert((q + 1) * radix == q * radix + radix && (q - 1) * radix == q * radix - radix) by (nonlinear_arith);
}

// ---------------------------------------------------------------------------
// The conversion
// ---------------------------------------------------------------------------

/// 2 to the power `n`.
fn pow2_u128(n: u32) -> (r: u128)
    requires
        n <= 64,
    ensures
        r == pow2(n as nat),
        r > 0,
{
    proof {
        lemma2_to64();
        lemma2_to64_rest();
    }
    let mut r: u128 = 1;
    let mut k: u32 = 0;
    while k < n
        invariant
            k <= n <= 64,
            r == pow2(k as nat),
            pow2(64) == 0x1_0000_0000_0000_0000,
        decreases n - k,
    {
        proof {
            lemma_pow2_unfold((k + 1) as nat);
            if k + 1 < 64 {
                lemma_pow2_strictly_increases((k + 1) as nat, 64);
            }
        }
        r = r * 2;
        k = k + 1;
    }
    proof {
        vstd::arithmetic::power2::lemma_pow2_pos(n as nat);
    }
    r
}

/// The bit pattern, in two's complement, of a result of a `w`-bit conversion.
pub open spec fn int_pattern(s: Seq<u8>, base: int, w: nat, signed: bool) -> int {
    if signed {
        let r = signed_result(s, base, w);
        if r < 0 {
            r + pow2(w)
        } else {
            r
        }
    } else {
        unsigned_result(s, base, w)
    }
}

/// Whether a `w`-bit conversion overflows.
pub open spec fn int_overflow(s: Seq<u8>, base: int, w: nat, signed: bool) -> bool {
    if signed {
        signed_overflow(s, base, w)
    } else {
        unsigned_overflow(s, base, w)
    }
}

/// Parses a C integer of `bits` bits and returns its two's-complement bit
/// pattern with the error, if any; `endoff` receives the end offset.
fn parse_integer(s: &[u8], endoff: &mut usize, base: i32, bits: u32, signed: bool) -> (r: (u128, Option<Errno>))
    requires
        2 <= bits <= 64,
    ensures
        *final(endoff) == int_end(s@, base as int),
        r.0 == int_pattern(s@, base as int, bits as nat, signed),
        r.1 == int_error(base as int, int_overflow(s@, base as int, bits as nat, signed)),
{
    *endoff = 0;
    if base != 0 && !(2 <= base && base <= 36) {
        return (0, Some(invalid_errno()));
    }
    let ghost sq = s@;
    let mut i: usize = 0;
    while c_space(at(s, i))
        invariant
            i <= s.len(),
            skip_space(sq, i as int) == skip_space(sq, 0),
            sq == s@,
        decreases s.len() - i,
    {
        proof {
            lemma_skip_space_step(sq, i as int);
        }
        i += 1;
    }
    assert(i == sign_index(sq));
    let negative = at(s, i) == 0x2D;
    if at(s, i) == 0x2B || at(s, i) == 0x2D {
        i += 1;
    }
    assert(i == after_sign(sq));
    let radix0: u32 = if base == 0 {
        if at(s, i) == 0x30 {
            8
        } else {
            10
        }
    } else {
        base as u32
    };
    let c1 = at_offset(s, i, 1);
    let hex_prefix = (base == 0 || base == 16) && at(s, i) == 0x30 && (c1 == 0x78 || c1 == 0x58)
        && match ascii_digit(at_offset(s, i, 2)) {
        Some(d) => d < 16,
        None => false,
    };
    assert(hex_prefix == int_hex_prefix(sq, base as int));
    let radix = if hex_prefix {
        16
    } else {
        radix0
    };
    if hex_prefix {
        i += 2;
    }
    assert(radix == int_radix(sq, base as int));
    assert(i == int_digits_start(sq, base as int));
    let ghost start = i as int;
    let mask = pow2_u128(bits) - 1;
    let half = pow2_u128(bits - 1);
    proof {
        lemma2_to64_rest();
        lemma_pow2_unfold(bits as nat);
        if bits < 64 {
            lemma_pow2_strictly_increases(bits as nat, 64);
        }
    }
    let limit = if signed {
        if negative {
            half
        } else {
            half - 1
        }
    } else {
        mask
    };
    let mut magnitude: u128 = 0;
    let mut overflow = false;
    let mut any = false;
    let r128 = radix as u128;
    loop
        invariant_except_break
            start <= i <= s.len(),
            sq == s@,
            2 <= radix <= 36,
            r128 == radix,
            limit < 0x1_0000_0000_0000_0000,
            digit_run_end(sq, i as int, radix as nat) == digit_run_end(sq, start, radix as nat),
            any == (i > start),
            overflow == (digits_value(sq, start, i as int, radix as nat) > limit),
            !overflow ==> magnitude == digits_value(sq, start, i as int, radix as nat),
        ensures
            start <= i <= s.len(),
            digit_run_end(sq, start, radix as nat) == i,
            any == (i > start),
            overflow == (digits_value(sq, start, i as int, radix as nat) > limit),
            !overflow ==> magnitude == digits_value(sq, start, i as int, radix as nat),
        decreases s.len() - i,
    {
        let c = at(s, i);
        let digit = match ascii_digit(c) {
            Some(d) => {
                if d < radix {
                    d
                } else {
                    break ;
                }
            },
            None => {
                break ;
            },
        };
        proof {
            lemma_digit_run_step(sq, i as int, radix as nat);
            lemma_digits_value_step(sq, start, i as int, radix as nat);
        }
        any = true;
        let d128 = digit as u128;
        if !overflow {
            proof {
                lemma_overflow_test(magnitude as int, d128 as int, r128 as int, limit as int);
            }
            if magnitude > limit / r128 || (magnitude == limit / r128 && d128 > limit % r128) {
                overflow = true;
            } else {
                magnitude = magnitude * r128 + d128;
            }
        }
        i += 1;
    }
    if !any {
        return (0, None);
    }
    *endoff = i;
    if overflow {
        let value = if signed {
            if negative {
                half
            } else {
                limit
            }
        } else {
            mask
        };
        return (value, Some(range_errno()));
    }
    let value = if negative {
        if magnitude == 0 {
            0
        } else {
            mask - magnitude + 1
        }
    } else {
        magnitude
    };
    proof {
        let m = magnitude as int;
        let p = pow2(bits as nat) as int;
        if negative && !signed && 0 < m {
            vstd::arithmetic::div_mod::lemma_mod_sub_multiples_vanish(p - m, p);
            vstd::arithmetic::div_mod::lemma_small_mod((p - m) as nat, p as nat);
        }
        if !negative && !signed {
            vstd::arithmetic::div_mod::lemma_small_mod(m as nat, p as nat);
        }
        if negative && !signed && m == 0 {
            assert(-m == 0);
        }
    }
    (value, None)
}


/// Reads a pattern of 64 bits as a two's-complement number.
fn pattern_to_i64(x: u128) -> (r: i64)
    requires
        x < 0x1_0000_0000_0000_0000,
    ensures
        r as int == (if x < 0x8000_0000_0000_0000 { x as int } else { x - 0x1_0000_0000_0000_0000 }),
{
    if x < 0x8000_0000_0000_0000 {
        x as i64
    } else {
        let low = (x - 0x8000_0000_0000_0000) as i64;
        low + i64::MIN
    }
}

/// The signed 64-bit result, read back from its pattern.
proof fn lemma_signed_pattern(s: Seq<u8>, base: int)
    ensures
        ({
            let x = int_pattern(s, base, 64, true);
            0 <= x < 0x1_0000_0000_0000_0000 && signed_result(s, base, 64) == (if x
                < 0x8000_0000_0000_0000 {
                x
            } else {
                x - 0x1_0000_0000_0000_0000
            })
        }),
{
    lemma2_to64_rest();
    lemma_pow2_unfold(64);
}

/// The unsigned 64-bit result lies in the range of `u64`.
proof fn lemma_unsigned_range(s: Seq<u8>, base: int)
    ensures
        0 <= unsigned_result(s, base, 64) < 0x1_0000_0000_0000_0000,
        int_pattern(s, base, 64, false) == unsigned_result(s, base, 64),
{
    lemma2_to64_rest();
}

/// Parses a C `long` and returns it with any error, leaving the thread's
/// `errno` alone. Base 0 detects octal and hexadecimal prefixes; other valid
/// bases are 2 to 36. An invalid base gives 0 and `EINVAL`, with `endoff` 0.
pub fn strtol_u_e(s: &[u8], endoff: &mut usize, base: i32) -> (r: (libc::c_long, Option<Errno>))
    ensures
        *final(endoff) == int_end(s@, base as int),
        r.0 as int == signed_result(s@, base as int, 64),
        r.1 == int_error(base as int, signed_overflow(s@, base as int, 64)),
{
    let (bits, error) = parse_integer(s, endoff, base, libc::c_long::BITS, true);
    proof {
        lemma_signed_pattern(s@, base as int);
    }
    (pattern_to_i64(bits), error)
}

/// Parses a C `unsigned long` and returns it with any error, leaving the
/// thread's `errno` alone. A `-` sign negates modulo 2^64.
pub fn strtoul_u_e(s: &[u8], endoff: &mut usize, base: i32) -> (r: (libc::c_ulong, Option<Errno>))
    ensures
        *final(endoff) == int_end(s@, base as int),
        r.0 as int == unsigned_result(s@, base as int, 64),
        r.1 == int_error(base as int, unsigned_overflow(s@, base as int, 64)),
{
    let (bits, error) = parse_integer(s, endoff, base, libc::c_ulong::BITS, false);
    proof {
        lemma_unsigned_range(s@, base as int);
    }
    (bits as libc::c_ulong, error)
}

/// Parses a C `long long` and returns it with any error, leaving the
/// thread's `errno` alone.
pub fn strtoll_u_e(s: &[u8], endoff: &mut usize, base: i32) -> (r: (libc::c_longlong, Option<Errno>))
    ensures
        *final(endoff) == int_end(s@, base as int),
        r.0 as int == signed_result(s@, base as int, 64),
        r.1 == int_error(base as int, signed_overflow(s@, base as int, 64)),
{
    let (bits, error) = parse_integer(s, endoff, base, libc::c_longlong::BITS, true);
    proof {
        lemma_signed_pattern(s@, base as int);
    }
    (pattern_to_i64(bits), error)
}

/// Parses a C `unsigned long long` and returns it with any error, leaving the
/// thread's `errno` alone.
pub fn strtoull_u_e(s: &[u8], endoff: &mut usize, base: i32) -> (r: (libc::c_ulonglong, Option<Errno>))
    ensures
        *final(endoff) == int_end(s@, base as int),
        r.0 as int == unsigned_result(s@, base as int, 64),
        r.1 == int_error(base as int, unsigned_overflow(s@, base as int, 64)),
{
    let (bits, error) = parse_integer(s, endoff, base, libc::c_ulonglong::BITS, false);
    proof {
        lemma_unsigned_range(s@, base as int);
    }
    (bits as libc::c_ulonglong, error)
}


/// Parses a decimal C `int`, discarding any error as `atoi` does; a value
/// out of range is first clamped to `long` and then truncated to `int`.
pub fn atoi(buf: &[u8]) -> (r: libc::c_int)
    ensures
        r == signed_result(buf@, 10, 64) as libc::c_int,
{
    let mut endoff: usize = 0;
    strtol_u_e(buf, &mut endoff, 10).0 as libc::c_int
}

/// Parses a decimal C `long`, discarding any error as `atol` does.
pub fn atol(buf: &[u8]) -> (r: libc::c_long)
    ensures
        r as int == signed_result(buf@, 10, 64),
{
    let mut endoff: usize = 0;
    strtol_u_e(buf, &mut endoff, 10).0
}

/// Parses a decimal C `long long`, discarding any error as `atoll` does.
pub fn atoll(buf: &[u8]) -> (r: libc::c_longlong)
    ensures
        r as int == signed_result(buf@, 10, 64),
{
    let mut endoff: usize = 0;
    strtoll_u_e(buf, &mut endoff, 10).0
}

/// Parses a C `long`, recording the end offset and storing any error in the
/// thread's `errno`.
pub fn strtol(s: &[u8], endoff: &mut usize, base: i32) -> (r: libc::c_long)
    ensures
        *final(endoff) == int_end(s@, base as int),
        r as int == signed_result(s@, base as int, 64),
{
    let (value, error) = strtol_u_e(s, endoff, base);
    set_integer_errno(error);
    value
}

/// Parses a C `unsigned long`, recording the end offset and storing any
/// error in the thread's `errno`.
pub fn strtoul(s: &[u8], endoff: &mut usize, base: i32) -> (r: libc::c_ulong)
    ensures
        *final(endoff) == int_end(s@, base as int),
        r as int == unsigned_result(s@, base as int, 64),
{
    let (value, error) = strtoul_u_e(s, endoff, base);
    set_integer_errno(error);
    value
}

/// Parses a C `long long`, recording the end offset and storing any error in
/// the thread's `errno`.
pub fn strtoll(s: &[u8], endoff: &mut usize, base: i32) -> (r: libc::c_longlong)
    ensures
        *final(endoff) == int_end(s@, base as int),
        r as int == signed_result(s@, base as int, 64),
{
    let (value, error) = strtoll_u_e(s, endoff, base);
    set_integer_errno(error);
    value
}

/// Parses a C `unsigned long long`, recording the end offset and storing any
/// error in the thread's `errno`.
pub fn strtoull(s: &[u8], endoff: &mut usize, base: i32) -> (r: libc::c_ulonglong)
    ensures
        *final(endoff) == int_end(s@, base as int),
        r as int == unsigned_result(s@, base as int, 64),
{
    let (value, error) = strtoull_u_e(s, endoff, base);
    set_integer_errno(error);
    value
}

/// Parses a C `long` without an end offset, storing any error in `errno`.
pub fn strtol_n(s: &[u8], base: i32) -> (r: libc::c_long)
    ensures
        r as int == signed_result(s@, base as int, 64),
{
    let mut endoff: usize = 0;
    strtol(s, &mut endoff, base)
}

/// Parses a C `unsigned long` without an end offset, storing any error in
/// `errno`.
pub fn strtoul_n(s: &[u8], base: i32) -> (r: libc::c_ulong)
    ensures
        r as int == unsigned_result(s@, base as int, 64),
{
    let mut endoff: usize = 0;
    strtoul(s, &mut endoff, base)
}

/// Parses a C `long long` without an end offset, storing any error in
/// `errno`.
pub fn strtoll_n(s: &[u8], base: i32) -> (r: libc::c_longlong)
    ensures
        r as int == signed_result(s@, base as int, 64),
{
    let mut endoff: usize = 0;
    strtoll(s, &mut endoff, base)
}

/// Parses a C `unsigned long long` without an end offset, storing any error
/// in `errno`.
pub fn strtoull_n(s: &[u8], base: i32) -> (r: libc::c_ulonglong)
    ensures
        r as int == unsigned_result(s@, base as int, 64),
{
    let mut endoff: usize = 0;
    strtoull(s, &mut endoff, base)
}

} // verus!
