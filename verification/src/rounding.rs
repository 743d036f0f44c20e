//! Rounding a binary number `d · 2^x` to the nearest value of a format,
//! ties to even, as IEEE 754 prescribes, and the bit pattern of the result.

use vstd::prelude::*;
use vstd::arithmetic::power2::{pow2, lemma_pow2_pos, lemma_pow2_adds, lemma_pow2_unfold, lemma_pow2_strictly_increases};
use crate::float_format::{FloatFormat, fraction_bits, max_exp, min_normal_exp, subnormal_exp, precision, infinity_bits};

verus! {

/// The number of binary digits of `n` (0 for 0).
pub open spec fn bit_length(n: nat) -> nat
    decreases n,
{
    if n == 0 {
        0
    } else {
        1 + bit_length(n / 2)
    }
}

/// `⌊d · 2^-k⌋`.
pub open spec fn scale_down(d: nat, k: int) -> nat {
    if k <= 0 {
        d * pow2((-k) as nat)
    } else {
        d / pow2(k as nat)
    }
}

/// What `scale_down` discards: `d mod 2^k`, or 0 when `k <= 0`.
pub open spec fn scale_rem(d: nat, k: int) -> nat {
    if k <= 0 {
        0
    } else {
        d % pow2(k as nat)
    }
}

/// Whether `d · 2^-k` rounds up to the nearest integer, ties to even.
pub open spec fn rounds_up(d: nat, k: int) -> bool {
    &&& k > 0
    &&& scale_rem(d, k) > pow2((k - 1) as nat) || (scale_rem(d, k) == pow2((k - 1) as nat)
        && scale_down(d, k) % 2 == 1)
}

/// `d · 2^-k` rounded to the nearest integer, ties to even.
pub open spec fn round_half_even(d: nat, k: int) -> nat {
    scale_down(d, k) + if rounds_up(d, k) {
        1nat
    } else {
        0nat
    }
}

/// The exponent `e` with `2^e <= d · 2^x < 2^(e+1)`, for `d > 0`.
pub open spec fn value_exponent(d: nat, x: int) -> int {
    x + bit_length(d) - 1
}

/// The exponent of the last place kept for a value of exponent `e`: that of
/// a normal value, or of the smallest subnormal below the normal range.
pub open spec fn quantum_exponent(e: int, f: FloatFormat) -> int {
    (if e >= min_normal_exp(f) {
        e
    } else {
        min_normal_exp(f)
    }) - fraction_bits(f)
}

/// The bit pattern of `d · 2^x` rounded to the format, for a value whose
/// exponent does not exceed the format's largest. A carry out of the
/// significand raises the exponent, up to infinity.
pub open spec fn rounded_bits(d: nat, x: int, f: FloatFormat) -> nat {
    let e = value_exponent(d, x);
    let r = round_half_even(d, quantum_exponent(e, f) - x);
    if e >= min_normal_exp(f) {
        (e - min_normal_exp(f)) as nat * pow2(fraction_bits(f)) + r
    } else {
        r
    }
}

/// The bit pattern of the value of the format nearest to `d · 2^x`, ties to
/// even; infinity beyond the largest exponent.
pub open spec fn correctly_rounded(d: nat, x: int, f: FloatFormat) -> nat {
    if d == 0 {
        0
    } else if value_exponent(d, x) > max_exp(f) {
        infinity_bits(f)
    } else {
        rounded_bits(d, x, f)
    }
}

/// Whether rounding `d · 2^x` to the format loses anything.
pub open spec fn rounding_inexact(d: nat, x: int, f: FloatFormat) -> bool {
    let e = value_exponent(d, x);
    d != 0 && (e > max_exp(f) || scale_rem(d, quantum_exponent(e, f) - x) != 0)
}

/// Whether a result is a range error: infinite, or zero or subnormal and
/// inexact.
pub open spec fn is_range_error(bits: nat, inexact: bool, f: FloatFormat) -> bool {
    bits == infinity_bits(f) || (bits < pow2(fraction_bits(f)) && inexact)
}

// ---------------------------------------------------------------------------
// Facts
// ---------------------------------------------------------------------------

/// `bit_length` brackets its argument between powers of two.
pub proof fn lemma_bit_length_bounds(n: nat)
    requires
        n > 0,
    ensures
        bit_length(n) >= 1,
        pow2((bit_length(n) - 1) as nat) <= n < pow2(bit_length(n)),
    decreases n,
{
    lemma_pow2_unfold(bit_length(n));
    if n / 2 > 0 {
        lemma_bit_length_bounds(n / 2);
        lemma_pow2_unfold((bit_length(n) - 1) as nat);
    } else {
        assert(n == 1);
        assert(bit_length(0) == 0);
        vstd::arithmetic::power2::lemma2_to64();
    }
}

/// A number bracketed by `2^(l-1)` and `2^l` has `l` binary digits.
pub proof fn lemma_bit_length_unique(n: nat, l: nat)
    requires
        l >= 1,
        pow2((l - 1) as nat) <= n < pow2(l),
    ensures
        bit_length(n) == l,
{
    lemma_pow2_pos((l - 1) as nat);
    lemma_bit_length_bounds(n);
    let b = bit_length(n);
    if b < l {
        if b < (l - 1) {
            lemma_pow2_strictly_increases(b, (l - 1) as nat);
        }
    } else if b > l {
        if (b - 1) > l {
            lemma_pow2_strictly_increases(l, (b - 1) as nat);
        }
    }
}

/// Appending `t` binary digits to `m` adds `t` to its length.
pub proof fn lemma_bit_length_shift(m: nat, t: nat, d: nat)
    requires
        m > 0,
        m * pow2(t) <= d < (m + 1) * pow2(t),
    ensures
        bit_length(d) == bit_length(m) + t,
{
    lemma_bit_length_bounds(m);
    let l = bit_length(m);
    lemma_pow2_adds((l - 1) as nat, t);
    lemma_pow2_adds(l, t);
    lemma_pow2_pos(t);
    assert(pow2((l - 1) as nat) * pow2(t) <= m * pow2(t)) by (nonlinear_arith)
        requires pow2((l - 1) as nat) <= m;
    assert((m + 1) * pow2(t) <= pow2(l) * pow2(t)) by (nonlinear_arith)
        requires m + 1 <= pow2(l);
    assert((l - 1) as nat + t == (l + t - 1) as nat);
    lemma_bit_length_unique(d, l + t);
}


/// Comparing `ra·p + rest` with `h·p`, where `rest < p`, comes down to
/// comparing `ra` with `h`, `rest` breaking a tie.
proof fn lemma_compare_scaled(ra: nat, h: nat, rest: nat, p: nat)
    requires
        p > 0,
        rest < p,
    ensures
        (ra * p + rest > h * p) == (ra > h || (ra == h && rest > 0)),
        (ra * p + rest == h * p) == (ra == h && rest == 0),
        (ra * p + rest == 0) == (ra == 0 && rest == 0),
{
    if ra > h {
        assert(ra * p >= h * p + p) by (nonlinear_arith)
            requires ra >= h + 1, p > 0;
    } else if ra < h {
        assert(ra * p + p <= h * p) by (nonlinear_arith)
            requires ra + 1 <= h, p > 0;
    }
    if ra > 0 {
        assert(ra * p >= p) by (nonlinear_arith)
            requires ra >= 1, p > 0;
    }
}

/// Splitting `d = q·2^k + r` with `0 <= r < 2^k` gives the quotient and
/// remainder of `d` by `2^k`.
proof fn lemma_div_mod_pow2(d: nat, q: nat, r: nat, k: nat)
    requires
        d == q * pow2(k) + r,
        r < pow2(k),
    ensures
        d / pow2(k) == q,
        d % pow2(k) == r,
{
    lemma_pow2_pos(k);
    vstd::arithmetic::div_mod::lemma_fundamental_div_mod_converse(d as int, pow2(k) as int, q as int, r as int);
}

/// The quotient and remainder of `x` by `2^(b + a)`, through those by `2^b`.
proof fn lemma_div_mod_pow2_split(x: nat, b: nat, a: nat)
    ensures
        x / pow2(b + a) == (x / pow2(b)) / pow2(a),
        x % pow2(b + a) == pow2(b) * ((x / pow2(b)) % pow2(a)) + x % pow2(b),
{
    lemma_pow2_pos(a);
    lemma_pow2_pos(b);
    lemma_pow2_adds(b, a);
    vstd::arithmetic::div_mod::lemma_div_denominator(x as int, pow2(b) as int, pow2(a) as int);
    vstd::arithmetic::div_mod::lemma_breakdown(x as int, pow2(b) as int, pow2(a) as int);
}

/// Rounding `d = m·2^t + rest` (`rest < 2^t`) at `k = t + drop - lz` digits
/// below its units is decided by the 64-bit significand `m·2^lz` (whose top
/// bit is set) split at `drop` bits, with `rest > 0` as the sticky bit.
/// Digits are dropped into `rest` only once `m` has 61 bits.
pub proof fn lemma_rounding_split(m: nat, t: nat, rest: nat, lz: nat, drop: nat)
    requires
        m >= 1,
        rest < pow2(t),
        t > 0 ==> m >= pow2(60),
        bit_length(m) + lz == 64,
        11 <= drop <= 64,
    ensures
        ({
            let d = m * pow2(t) + rest;
            let k = t + drop - lz;
            let mm = m * pow2(lz);
            let q = mm / pow2(drop);
            let rem = mm % pow2(drop);
            let half = pow2((drop - 1) as nat);
            &&& scale_down(d, k) == q
            &&& rounds_up(d, k) == (rem > half || (rem == half && (rest > 0 || q % 2 == 1)))
            &&& (scale_rem(d, k) != 0) == (rem != 0 || rest > 0)
        }),
{
    let d = m * pow2(t) + rest;
    let k = t + drop - lz;
    let mm = m * pow2(lz);
    lemma_bit_length_bounds(m);
    lemma_pow2_pos(t);
    lemma_pow2_pos(lz);
    lemma_pow2_pos(drop);
    lemma_pow2_pos((drop - 1) as nat);
    if t > 0 {
        // m has at least 61 bits, so lz <= 3 < drop
        if bit_length(m) <= 60 {
            if bit_length(m) < 60 {
                lemma_pow2_strictly_increases(bit_length(m), 60);
            }
        }
        assert(lz < drop);
    }
    if drop <= lz {
        assert(t == 0);
        assert(pow2(0) == 1) by { vstd::arithmetic::power2::lemma2_to64(); }
        assert(rest == 0);
        assert(m * pow2(t) == m) by (nonlinear_arith)
            requires pow2(t) == 1;
        assert(d == m);
        let a = (lz - drop) as nat;
        lemma_pow2_adds(a, drop);
        assert(mm == (m * pow2(a)) * pow2(drop)) by (nonlinear_arith)
            requires mm == m * pow2(lz), pow2(lz) == pow2(a) * pow2(drop);
        lemma_div_mod_pow2(mm, m * pow2(a), 0, drop);
        assert(-k == a);
        assert(scale_down(d, k) == m * pow2(a));
    } else {
        let a = (drop - lz) as nat;
        assert(a >= 1);
        assert(k == t + a);
        // the exact number
        assert(d == m * pow2(t) + rest);
        lemma_div_mod_pow2(d, m, rest, t);
        lemma_div_mod_pow2_split(d, t, a);
        // the significand
        lemma_div_mod_pow2(mm, m, 0, lz);
        lemma_div_mod_pow2_split(mm, lz, a);
        assert(lz + a == drop);
        assert(t + a == k);
        let ra = m % pow2(a);
        let h = pow2((a - 1) as nat);
        lemma_pow2_adds((a - 1) as nat, t);
        lemma_pow2_adds((a - 1) as nat, lz);
        assert((a - 1) as nat + t == (k - 1) as nat);
        assert((a - 1) as nat + lz == (drop - 1) as nat);
        assert(scale_rem(d, k) == pow2(t) * ra + rest);
        assert(mm % pow2(drop) == pow2(lz) * ra + 0);
        assert(pow2(t) * ra == ra * pow2(t) && pow2(lz) * ra == ra * pow2(lz)) by (nonlinear_arith);
        assert(pow2((k - 1) as nat) == h * pow2(t)) by (nonlinear_arith)
            requires pow2((k - 1) as nat) == pow2((a - 1) as nat) * pow2(t), h == pow2((a - 1) as nat);
        assert(pow2((drop - 1) as nat) == h * pow2(lz)) by (nonlinear_arith)
            requires pow2((drop - 1) as nat) == pow2((a - 1) as nat) * pow2(lz), h == pow2((a - 1) as nat);
        lemma_compare_scaled(ra, h, rest, pow2(t));
        lemma_compare_scaled(ra, h, 0, pow2(lz));
    }
}


/// A small number scaled down far enough rounds to zero and loses all of
/// itself.
proof fn lemma_round_tiny(d: nat, k: int)
    requires
        k >= 1,
        0 < d < pow2((k - 1) as nat),
    ensures
        scale_down(d, k) == 0,
        scale_rem(d, k) == d,
        !rounds_up(d, k),
        round_half_even(d, k) == 0,
{
    lemma_pow2_unfold(k as nat);
    lemma_div_mod_pow2(d, 0, d, k as nat);
}

/// `leading_zeros` counts the binary digits missing from 64.
proof fn lemma_leading_zeros(m: u64)
    requires
        m >= 1,
    ensures
        vstd::std_specs::bits::u64_leading_zeros(m) == 64 - bit_length(m as nat),
    decreases m,
{
    reveal(vstd::std_specs::bits::u64_leading_zeros);
    if m / 2 >= 1 {
        lemma_leading_zeros(m / 2);
    } else {
        assert(m == 1);
        assert(bit_length(0) == 0);
        assert(vstd::std_specs::bits::u64_leading_zeros(0) == 64);
    }
}

/// `a` clamped to the range of `i64`.
pub open spec fn clamp_i64(a: int) -> int {
    if a > i64::MAX {
        i64::MAX as int
    } else if a < i64::MIN {
        i64::MIN as int
    } else {
        a
    }
}

/// `a + b`, saturating at the bounds of `i64`.
pub fn saturating_add_i64(a: i64, b: i64) -> (r: i64)
    ensures
        r == clamp_i64(a + b),
{
    match a.checked_add(b) {
        Some(v) => v,
        None => if b > 0 {
            i64::MAX
        } else {
            i64::MIN
        },
    }
}

/// `a - b`, saturating at the bounds of `i64`.
pub fn saturating_sub_i64(a: i64, b: i64) -> (r: i64)
    ensures
        r == clamp_i64(a - b),
{
    match a.checked_sub(b) {
        Some(v) => v,
        None => if b < 0 {
            i64::MAX
        } else {
            i64::MIN
        },
    }
}

/// Whether a saturated exponent `a` stands for the exact exponent `x`: equal
/// to it when `|x| <= 2^62`, and as far out on the same side otherwise.
pub open spec fn tracks_exponent(a: i64, x: int) -> bool {
    &&& -0x4000_0000_0000_0000 <= x <= 0x4000_0000_0000_0000 ==> a == x
    &&& x > 0x4000_0000_0000_0000 ==> a >= 0x4000_0000_0000_0000
    &&& x < -0x4000_0000_0000_0000 ==> a <= -0x4000_0000_0000_0000
}

/// Normalising a nonzero `m` by its leading zeros sets the top bit.
proof fn lemma_normalize(m: u64, lz: nat)
    requires
        m >= 1,
        lz == 64 - bit_length(m as nat),
    ensures
        lz < 64,
        0x8000_0000_0000_0000 <= m * pow2(lz) < 0x1_0000_0000_0000_0000,
{
    lemma_bit_length_bounds(m as nat);
    let l = bit_length(m as nat);
    vstd::arithmetic::power2::lemma2_to64_rest();
    lemma_pow2_pos(lz);
    lemma_pow2_adds((l - 1) as nat, lz);
    lemma_pow2_adds(l, lz);
    assert((l - 1) as nat + lz == 63);
    assert(m * pow2(lz) < pow2(l) * pow2(lz)) by (nonlinear_arith)
        requires m < pow2(l), pow2(lz) > 0;
    assert(m * pow2(lz) >= pow2((l - 1) as nat) * pow2(lz)) by (nonlinear_arith)
        requires m >= pow2((l - 1) as nat), pow2(lz) > 0;
}

/// The saturated exponent of a normalised significand tracks the exponent of
/// the number.
proof fn lemma_exponent_tracks(exp: i64, lz: u64, e: i64, xt: int)
    requires
        tracks_exponent(exp, xt),
        lz < 64,
        e == clamp_i64(clamp_i64(exp - lz) + 63),
    ensures
        -0x4000_0000_0000_0000 <= xt <= 0x4000_0000_0000_0000 ==> e == xt + 63 - lz,
        xt > 0x4000_0000_0000_0000 ==> e > 0x3000_0000_0000_0000 && xt + 63 - lz > 0x3000_0000_0000_0000,
        xt < -0x4000_0000_0000_0000 ==> e < -0x3000_0000_0000_0000 && xt + 63 - lz < -0x3000_0000_0000_0000,
{
}

/// Rounding at the place the format keeps, when the value is in range.
proof fn lemma_round_in_range(
    m: u64, t: nat, d: nat, x: int, lz: u64, f: FloatFormat, e: int, drop: nat,
    q: nat, rem: nat, sticky: bool, up: bool, base: nat,
)
    requires
        m >= 1,
        m * pow2(t) <= d < (m + 1) * pow2(t),
        sticky == (d > m * pow2(t)),
        t > 0 ==> m >= pow2(60),
        lz == 64 - bit_length(m as nat),
        e == x + t + 63 - lz,
        e <= max_exp(f),
        drop == 64 - (if e >= min_normal_exp(f) { precision(f) as int } else { e - subnormal_exp(f) + 1 }),
        drop <= 64,
        q == ((m as nat) * pow2(lz as nat)) / pow2(drop),
        rem == ((m as nat) * pow2(lz as nat)) % pow2(drop),
        up == (rem > pow2((drop - 1) as nat) || (rem == pow2((drop - 1) as nat) && (sticky || q % 2 == 1))),
        base == (if e >= min_normal_exp(f) { (e - min_normal_exp(f)) as nat * pow2(fraction_bits(f)) } else { 0 }),
    ensures
        base + q + (if up { 1nat } else { 0nat }) == correctly_rounded(d, x, f),
        (rem != 0 || sticky) == rounding_inexact(d, x, f),
{
    let rest: nat = (d - m * pow2(t)) as nat;
    lemma_pow2_pos(t);
    assert(rest < pow2(t)) by (nonlinear_arith)
        requires rest == d - m * pow2(t), d < (m + 1) * pow2(t);
    lemma_bit_length_shift(m as nat, t, d);
    assert(value_exponent(d, x) == e);
    assert(drop >= 11) by {
        if e < min_normal_exp(f) {
            assert(e - subnormal_exp(f) + 1 <= fraction_bits(f));
        }
    }
    let k = quantum_exponent(e, f) - x;
    assert(k == t + drop - lz);
    lemma_rounding_split(m as nat, t, rest, lz as nat, drop);
    assert(d == m * pow2(t) + rest);
}

/// The bit pattern assembled from the exponent field and the rounded
/// significand stays within the patterns up to infinity.
proof fn lemma_bits_bound(f: FloatFormat, e: int, drop: nat, q: nat, field: nat)
    requires
        e <= max_exp(f),
        e >= min_normal_exp(f) ==> drop == 64 - precision(f),
        e < min_normal_exp(f) ==> drop >= 64 - fraction_bits(f),
        drop <= 64,
        q <= pow2((64 - drop) as nat),
        field == (if e >= min_normal_exp(f) { (e - min_normal_exp(f)) as nat } else { 0 }),
    ensures
        field * pow2(fraction_bits(f)) + q <= infinity_bits(f),
        infinity_bits(f) < 0x1_0000_0000_0000_0000,
        field * pow2(fraction_bits(f)) < 0x1_0000_0000_0000_0000,
{
    let fb = fraction_bits(f);
    vstd::arithmetic::power2::lemma2_to64();
    vstd::arithmetic::power2::lemma2_to64_rest();
    lemma_pow2_unfold(fb + 1);
    if (64 - drop) < fb + 1 {
        lemma_pow2_strictly_increases((64 - drop) as nat, fb + 1);
    }
    assert(field <= 2 * max_exp(f) - 1);
    assert(field * pow2(fb) <= (2 * max_exp(f) - 1) * pow2(fb)) by (nonlinear_arith)
        requires field <= 2 * max_exp(f) - 1, pow2(fb) > 0;
    assert((2 * max_exp(f) - 1) * pow2(fb) + 2 * pow2(fb) == (2 * max_exp(f) + 1) * pow2(fb)) by (nonlinear_arith);
    assert(pow2(52) == 0x10_0000_0000_0000) by {
        lemma_pow2_adds(48, 4);
    }
}

/// A quotient of a 64-bit number by `2^drop` has at most `64 - drop` bits.
proof fn lemma_quotient_bound(mm: nat, drop: nat)
    requires
        drop <= 64,
        mm < 0x1_0000_0000_0000_0000,
    ensures
        mm / pow2(drop) < pow2((64 - drop) as nat),
{
    vstd::arithmetic::power2::lemma2_to64_rest();
    lemma_pow2_adds((64 - drop) as nat, drop);
    lemma_pow2_pos(drop);
    assert(pow2(drop) * pow2((64 - drop) as nat) == pow2((64 - drop) as nat) * pow2(drop)) by (nonlinear_arith);
    vstd::arithmetic::div_mod::lemma_multiply_divide_lt(mm as int, pow2(drop) as int, pow2((64 - drop) as nat) as int);
}

/// Rounds the number `d · 2^x` to the format, ties to even, from its leading
/// digits `m` (a multiple `2^t` above `d`'s units, with the digits below
/// gathered into `sticky`) and the exponent of `m`'s units, saturated.
/// Returns the bit pattern and whether it is a range error.
pub fn round_to_format(m: u64, exp: i64, sticky: bool, f: FloatFormat, Ghost(d): Ghost<nat>, Ghost(x): Ghost<int>, Ghost(t): Ghost<nat>) -> (r: (u64, bool))
    requires
        m >= 1,
        m * pow2(t) <= d < (m + 1) * pow2(t),
        sticky == (d > m * pow2(t)),
        t > 0 ==> m >= pow2(60),
        tracks_exponent(exp, x + t),
    ensures
        r.0 == correctly_rounded(d, x, f),
        r.0 <= infinity_bits(f),
        r.1 == is_range_error(r.0 as nat, rounding_inexact(d, x, f), f),
{
    proof {
        lemma_leading_zeros(m);
        lemma_bit_length_shift(m as nat, t, d);
    }
    let lz = m.leading_zeros() as u64;
    proof {
        lemma_normalize(m, lz as nat);
        vstd::bits::lemma_u64_shl_is_mul(m, lz);
    }
    let mm = m << lz;
    let e = saturating_add_i64(saturating_sub_i64(exp, lz as i64), 63);
    proof {
        lemma_exponent_tracks(exp, lz, e, x + t);
    }
    if e > f.max_exp() {
        return (f.infinity_bits(), true);
    }
    let keep: i64 = if e >= f.min_normal_exp() {
        f.significand_bits()
    } else {
        e - f.subnormal_exp() + 1
    };
    if keep < 0 {
        proof {
            let big_e = value_exponent(d, x);
            assert(big_e < subnormal_exp(f) - 1);
            let k = quantum_exponent(big_e, f) - x;
            lemma_bit_length_bounds(d);
            if bit_length(d) < (k - 1) as nat {
                lemma_pow2_strictly_increases(bit_length(d), (k - 1) as nat);
            }
            lemma_round_tiny(d, k);
            lemma_pow2_pos(fraction_bits(f));
            assert(infinity_bits(f) > 0) by (nonlinear_arith)
                requires
                    infinity_bits(f) == (2 * max_exp(f) + 1) as nat * pow2(fraction_bits(f)),
                    pow2(fraction_bits(f)) > 0,
                    max_exp(f) > 0;
        }
        return (0, true);
    }
    let drop = (64 - keep) as u64;
    let (q, rem): (u64, u64) = if drop == 64 {
        proof {
            vstd::arithmetic::power2::lemma2_to64_rest();
            lemma_div_mod_pow2(mm as nat, 0, mm as nat, 64);
        }
        (0, mm)
    } else {
        proof {
            vstd::bits::lemma_u64_shr_is_div(mm, drop);
            vstd::bits::lemma_u64_pow2_no_overflow(drop as nat);
            vstd::bits::lemma_u64_shl_is_mul(1, drop);
            vstd::bits::lemma_u64_low_bits_mask_is_mod(mm, drop as nat);
        }
        (mm >> drop, mm & ((1u64 << drop) - 1))
    };
    proof {
        vstd::bits::lemma_u64_pow2_no_overflow((drop - 1) as nat);
        vstd::bits::lemma_u64_shl_is_mul(1, (drop - 1) as u64);
    }
    let half = 1u64 << (drop - 1);
    assert(q & 1 == q % 2) by (bit_vector);
    let up = rem > half || (rem == half && (sticky || q & 1 == 1));
    proof {
        lemma_quotient_bound(mm as nat, drop as nat);
        vstd::bits::lemma_u64_pow2_no_overflow((64 - drop) as nat);
    }
    let q = q + if up {
        1u64
    } else {
        0u64
    };
    let frac = f.fraction_bits() as u64;
    let ghost field: nat = if e >= min_normal_exp(f) { (e - min_normal_exp(f)) as nat } else { 0 };
    proof {
        lemma_bits_bound(f, e as int, drop as nat, q as nat, field);
        vstd::bits::lemma_u64_pow2_no_overflow(frac as nat);
    }
    let base: u64 = if e >= f.min_normal_exp() {
        let field_bits = (e + f.max_exp() - 1) as u64;
        proof {
            vstd::bits::lemma_u64_shl_is_mul(field_bits, frac);
        }
        field_bits << frac
    } else {
        0
    };
    proof {
        lemma_round_in_range(m, t, d, x, lz, f, e as int, drop as nat, (q - if up { 1int } else { 0int }) as nat, rem as nat, sticky, up, base as nat);
    }
    let bits = base + q;
    let inexact = rem != 0 || sticky;
    proof {
        vstd::bits::lemma_u64_shl_is_mul(1, frac);
    }
    let error = bits == f.infinity_bits() || (bits < (1u64 << frac) && inexact);
    (bits, error)
}


/// Rounding `d · 2^-k` to an integer gives at most `2^n` when `d < 2^(n+k)`.
proof fn lemma_round_at_most(d: nat, k: int, n: nat)
    requires
        n + k >= 0,
        d < pow2((n + k) as nat),
    ensures
        round_half_even(d, k) <= pow2(n),
{
    if k <= 0 {
        let j = (-k) as nat;
        let a = (n + k) as nat;
        lemma_pow2_adds(a, j);
        assert(a + j == n);
        lemma_pow2_pos(j);
        assert(d * pow2(j) < pow2(a) * pow2(j)) by (nonlinear_arith)
            requires
                d < pow2(a),
                pow2(j) > 0,
        ;
        assert(!rounds_up(d, k));
    } else {
        let kk = k as nat;
        lemma_pow2_adds(n, kk);
        lemma_pow2_pos(kk);
        assert((n + k) as nat == n + kk);
        assert(pow2(kk) * pow2(n) == pow2(n + kk)) by (nonlinear_arith)
            requires
                pow2(n + kk) == pow2(n) * pow2(kk),
        ;
        vstd::arithmetic::div_mod::lemma_multiply_divide_lt(d as int, pow2(kk) as int, pow2(n) as int);
    }
}

/// A correctly rounded pattern never exceeds that of infinity: rounding
/// carries at most into the exponent just past the largest, which is
/// infinity's.
pub proof fn lemma_correctly_rounded_bound(d: nat, x: int, f: FloatFormat)
    ensures
        correctly_rounded(d, x, f) <= infinity_bits(f),
{
    crate::float_format::lemma_format_bounds(f);
    if d > 0 && value_exponent(d, x) <= max_exp(f) {
        let e = value_exponent(d, x);
        let q = quantum_exponent(e, f);
        let k = q - x;
        let fb = fraction_bits(f);
        let mn = min_normal_exp(f);
        lemma_bit_length_bounds(d);
        let bl = bit_length(d);
        assert(bl == e - x + 1);
        lemma_pow2_pos(fb);
        if e - q + 1 >= 0 {
            let n = (e - q + 1) as nat;
            assert(n + k == bl);
            lemma_round_at_most(d, k, n);
            let r = round_half_even(d, k);
            if e >= mn {
                assert(n == fb + 1);
                lemma_pow2_unfold(fb + 1);
                let field = (e - mn) as nat;
                assert(field <= 2 * max_exp(f) - 1);
                assert(field * pow2(fb) + r <= infinity_bits(f)) by (nonlinear_arith)
                    requires
                        field <= 2 * max_exp(f) - 1,
                        r <= 2 * pow2(fb),
                        pow2(fb) > 0,
                        infinity_bits(f) == (2 * max_exp(f) + 1) * pow2(fb),
                ;
            } else {
                assert(n <= fb);
                if n < fb {
                    lemma_pow2_strictly_increases(n, fb);
                }
            }
        } else {
            assert(k >= bl + 1);
            if bl < k - 1 {
                lemma_pow2_strictly_increases(bl, (k - 1) as nat);
            }
            lemma_round_tiny(d, k);
        }
    }
}

} // verus!
