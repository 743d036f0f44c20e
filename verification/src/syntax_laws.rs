//! What the grammar of the conversions accepts, stated over concrete bytes:
//! C whitespace, exponent markers and their signs, and the word `inf`.

use vstd::prelude::*;
use vstd::arithmetic::power2::pow2;
use crate::chars::{byte_at, is_c_space, is_dec_digit, is_digit_in, skip_space};
use crate::integer::{
    digit_run_end, digits_value, sign_index, after_sign, int_negative, int_hex_prefix, int_radix,
    int_digits_start, int_digits_end, int_converts, int_magnitude, int_end, signed_result,
    unsigned_result, signed_overflow, unsigned_overflow,
};
use crate::float_format::FloatFormat;
use crate::hexfloat::{
    hex_significand_end, point_before, hex_any_digit, hex_digits_value, digits_after_point,
    has_bin_exp, bin_exp_digits, bin_exp_end, bin_exp_value, hex_mantissa_end, hex_converts,
    hex_end, hex_digits, hex_exponent,
};
use crate::strto::{
    FloatScan, float_scan, word_inf, word_infinity, starts_number, hex_prefix, dec_mantissa_end,
    dec_exp_digits, dec_end,
};
use crate::decimal::{decimal_token_of, token_digits, token_exponent, token_scale, dec_digits_value};
use crate::laws::{lemma_run_shift_one, lemma_value_shift_one};

verus! {

// ---------------------------------------------------------------------------
// Runs of digits written out
// ---------------------------------------------------------------------------

/// Whether every byte of `k` is one of the ASCII digits `0` to `9`.
pub open spec fn all_decimal(k: Seq<u8>) -> bool {
    forall|i: int| 0 <= i < k.len() ==> 0x30 <= #[trigger] k[i] <= 0x39
}

/// Whether every byte of `d` is a hexadecimal digit `0`-`9`, `a`-`f`, `A`-`F`.
pub open spec fn all_hexadecimal(d: Seq<u8>) -> bool {
    forall|i: int|
        0 <= i < d.len() ==> (0x30 <= #[trigger] d[i] <= 0x39 || 0x61 <= d[i] <= 0x66 || 0x41 <= d[i]
            <= 0x46)
}

/// The number that the decimal digits `k` denote, most significant first.
pub open spec fn decimal_value(k: Seq<u8>) -> nat
    decreases k.len(),
{
    if k.len() == 0 {
        0
    } else {
        decimal_value(k.drop_last()) * 10 + (k.last() - 0x30) as nat
    }
}

/// The number that the hexadecimal digits `d` denote, most significant first.
pub open spec fn hexadecimal_value(d: Seq<u8>) -> nat
    decreases d.len(),
{
    if d.len() == 0 {
        0
    } else {
        let c = d.last();
        let v: nat = if 0x30 <= c <= 0x39 {
            (c - 0x30) as nat
        } else if 0x61 <= c <= 0x66 {
            (c - 0x61 + 10) as nat
        } else {
            (c - 0x41 + 10) as nat
        };
        hexadecimal_value(d.drop_last()) * 16 + v
    }
}

/// A run of digits over bytes that are all digits, up to a byte that is not
/// one, ends at that byte.
proof fn lemma_run_through(s: Seq<u8>, i: int, j: int, r: nat)
    requires
        0 <= i <= j <= s.len(),
        forall|x: int| i <= x < j ==> is_digit_in(#[trigger] s[x], r),
        j == s.len() || !is_digit_in(s[j], r),
    ensures
        digit_run_end(s, i, r) == j,
    decreases j - i,
{
    if i < j {
        lemma_run_through(s, i + 1, j, r);
    }
}

/// Decimal digits copied into `s` at `off` have the value they denote.
proof fn lemma_decimal_at(s: Seq<u8>, k: Seq<u8>, off: int, n: int)
    requires
        0 <= off,
        0 <= n <= k.len(),
        off + n <= s.len(),
        all_decimal(k),
        forall|x: int| 0 <= x < n ==> s[off + x] == #[trigger] k[x],
    ensures
        digits_value(s, off, off + n, 10) == decimal_value(k.subrange(0, n)),
    decreases n,
{
    if n > 0 {
        lemma_decimal_at(s, k, off, n - 1);
        assert(k.subrange(0, n).drop_last() =~= k.subrange(0, n - 1));
        assert(s[off + n - 1] == k[n - 1]);
    }
}

/// Hexadecimal digits copied into `s` at `off` have the value they denote.
proof fn lemma_hexadecimal_at(s: Seq<u8>, d: Seq<u8>, n: int)
    requires
        0 <= n <= d.len(),
        n <= s.len(),
        all_hexadecimal(d),
        forall|x: int| 0 <= x < n ==> s[x] == #[trigger] d[x],
    ensures
        hex_digits_value(s, n) == hexadecimal_value(d.subrange(0, n)),
        !point_before(s, n),
        digits_after_point(s, n) == 0,
        n > 0 ==> hex_any_digit(s, n),
    decreases n,
{
    if n > 0 {
        lemma_hexadecimal_at(s, d, n - 1);
        assert(d.subrange(0, n).drop_last() =~= d.subrange(0, n - 1));
        assert(s[n - 1] == d[n - 1]);
    }
}

// ---------------------------------------------------------------------------
// C whitespace
// ---------------------------------------------------------------------------

/// Skipping whitespace in a string with one more byte in front is the same
/// skip one byte further on.
proof fn lemma_skip_shift_one(c: u8, d: Seq<u8>, i: int)
    requires
        0 <= i,
    ensures
        skip_space(seq![c] + d, i + 1) == skip_space(d, i) + 1,
    decreases d.len() - i,
{
    let s = seq![c] + d;
    if i < d.len() {
        assert(s[i + 1] == d[i]);
        if is_c_space(d[i]) {
            lemma_skip_shift_one(c, d, i + 1);
        }
    }
}

/// Every byte that C's `isspace` accepts in the "C" locale (space, `\t`,
/// `\n`, `\v`, `\f`, `\r`) is skipped before an integer: converting it
/// followed by `s` gives the value and error that converting `s` gives,
/// with the end offset one larger when something converts.
pub proof fn law_integer_skips_c_whitespace(c: u8, s: Seq<u8>, base: int)
    requires
        c == 0x20 || c == 0x09 || c == 0x0A || c == 0x0B || c == 0x0C || c == 0x0D,
    ensures
        ({
            let u = seq![c] + s;
            &&& int_converts(u, base) == int_converts(s, base)
            &&& int_end(u, base) == if int_converts(s, base) { int_end(s, base) + 1 } else { 0 }
            &&& signed_result(u, base, 64) == signed_result(s, base, 64)
            &&& unsigned_result(u, base, 64) == unsigned_result(s, base, 64)
            &&& signed_overflow(u, base, 64) == signed_overflow(s, base, 64)
            &&& unsigned_overflow(u, base, 64) == unsigned_overflow(s, base, 64)
        }),
{
    let u = seq![c] + s;
    assert(u[0] == c);
    lemma_skip_shift_one(c, s, 0);
    assert(skip_space(u, 0) == skip_space(u, 1));
    let w = sign_index(s);
    crate::laws::lemma_skip_ge(s, 0);
    assert(sign_index(u) == w + 1);
    assert forall|i: int| 0 <= i implies #[trigger] byte_at(u, i + 1) == byte_at(s, i) by {
        if i < s.len() {
            assert(u[i + 1] == s[i]);
        }
    }
    assert(byte_at(u, w + 1) == byte_at(s, w));
    let p = after_sign(s);
    assert(after_sign(u) == p + 1);
    assert(int_negative(u) == int_negative(s));
    assert(byte_at(u, p + 1) == byte_at(s, p));
    assert(byte_at(u, p + 2) == byte_at(s, p + 1));
    assert(byte_at(u, p + 3) == byte_at(s, p + 2));
    assert(int_hex_prefix(u, base) == int_hex_prefix(s, base));
    assert(int_radix(u, base) == int_radix(s, base));
    let st = int_digits_start(s, base);
    let r = int_radix(s, base);
    assert(int_digits_start(u, base) == st + 1);
    lemma_run_shift_one(c, s, st, r);
    assert(int_digits_end(u, base) == int_digits_end(s, base) + 1);
    crate::strto::lemma_after_sign_bounds(s);
    if int_hex_prefix(s, base) {
        assert(is_digit_in(byte_at(s, p + 2), 16));
    }
    assert(st <= s.len());
    crate::decimal::lemma_digit_run_facts(s, st, r);
    lemma_value_shift_one(c, s, st, int_digits_end(s, base), r);
    assert(int_magnitude(u, base) == int_magnitude(s, base));
}

// ---------------------------------------------------------------------------
// Decimal exponents
// ---------------------------------------------------------------------------

/// Whether `mid` is an exponent marker `e` or `E`, alone or followed by `+`
/// or `-`.
pub open spec fn exponent_marker(mid: Seq<u8>, letter_low: u8, letter_up: u8) -> bool {
    &&& 1 <= mid.len() <= 2
    &&& mid[0] == letter_low || mid[0] == letter_up
    &&& mid.len() == 2 ==> (mid[1] == 0x2B || mid[1] == 0x2D)
}

/// Whether an exponent marker carries a minus sign.
pub open spec fn marker_negative(mid: Seq<u8>) -> bool {
    mid.len() == 2 && mid[1] == 0x2D
}

/// Where the parts of digits, an exponent marker and digits lie for the
/// decimal grammar.
proof fn lemma_decimal_exponent_parts(m: Seq<u8>, mid: Seq<u8>, k: Seq<u8>)
    requires
        m.len() >= 1,
        k.len() >= 1,
        all_decimal(m),
        all_decimal(k),
        exponent_marker(mid, 0x65, 0x45),
    ensures
        ({
            let s = m + mid + k;
            let l = m.len() as int;
            &&& after_sign(s) == 0
            &&& !int_negative(s)
            &&& starts_number(s, 0)
            &&& !hex_prefix(s, 0)
            &&& dec_mantissa_end(s, 0) == l
            &&& dec_exp_digits(s, l) == l + mid.len()
            &&& (byte_at(s, l + 1) == 0x2D) == marker_negative(mid)
            &&& dec_end(s, 0) == s.len()
            &&& forall|x: int| 0 <= x < l ==> #[trigger] s[x] == m[x]
            &&& forall|x: int| 0 <= x < k.len() ==> s[l + mid.len() + x] == #[trigger] k[x]
        }),
{
    let s = m + mid + k;
    let l = m.len() as int;
    let ed = l + mid.len();
    assert forall|x: int| 0 <= x < l implies #[trigger] s[x] == m[x] by {}
    assert forall|x: int| 0 <= x < k.len() implies s[ed + x] == #[trigger] k[x] by {}
    assert(s[l] == mid[0]);
    if mid.len() == 2 {
        assert(s[l + 1] == mid[1]);
    } else {
        assert(s[l + 1] == k[0]);
    }
    assert(s[ed] == k[0]);
    assert(m[0] == s[0]);
    assert(sign_index(s) == 0);
    assert(after_sign(s) == 0);
    assert(starts_number(s, 0));
    assert(!hex_prefix(s, 0)) by {
        if l >= 2 {
            assert(s[1] == m[1]);
        }
    }
    lemma_run_through(s, 0, l, 10);
    assert(dec_mantissa_end(s, 0) == l);
    assert(dec_exp_digits(s, l) == ed);
    assert(is_dec_digit(byte_at(s, ed)));
    assert forall|x: int| ed <= x < s.len() implies is_digit_in(#[trigger] s[x], 10) by {
        assert(s[ed + (x - ed)] == k[x - ed]);
    }
    lemma_run_through(s, ed, s.len() as int, 10);
}

/// The scan of digits, an exponent marker and digits.
proof fn lemma_decimal_exponent(m: Seq<u8>, mid: Seq<u8>, k: Seq<u8>, f: FloatFormat)
    requires
        m.len() >= 1,
        k.len() >= 1,
        all_decimal(m),
        all_decimal(k),
        exponent_marker(mid, 0x65, 0x45),
        m.len() + mid.len() + k.len() <= usize::MAX,
    ensures
        ({
            let s = m + mid + k;
            let v = decimal_value(k);
            &&& float_scan(s, f) == FloatScan::Decimal {
                negative: false,
                start: 0,
                mantissa_end: m.len() as usize,
                end: s.len() as usize,
            }
            &&& decimal_token_of(s) == s
            &&& token_digits(s) == decimal_value(m)
            &&& token_exponent(s) == if marker_negative(mid) { -v } else { v as int }
            &&& token_scale(s) == token_exponent(s)
        }),
{
    let s = m + mid + k;
    let l = m.len() as int;
    let ed = l + mid.len();
    lemma_decimal_exponent_parts(m, mid, k);
    assert(decimal_token_of(s) =~= s);
    lemma_decimal_at(s, k, ed, k.len() as int);
    assert(k.subrange(0, k.len() as int) =~= k);
    lemma_decimal_at(s, m, 0, l);
    assert(m.subrange(0, l) =~= m);
    assert(forall|x: int| 0 <= x < l ==> is_dec_digit(#[trigger] s[x])) by {
        assert forall|x: int| 0 <= x < l implies is_dec_digit(#[trigger] s[x]) by {
            assert(s[x] == m[x]);
        }
    }
    lemma_dec_digits_plain(s, l, l);
    assert forall|j: int| 0 <= j < l implies #[trigger] s[j] != 0x2E by {
        assert(s[j] == m[j]);
    }
    crate::decimal::lemma_points(s, l, l, l);
}

/// Over digits without a point, the value of a significand is that of its
/// digits.
proof fn lemma_dec_digits_plain(s: Seq<u8>, i: int, l: int)
    requires
        0 <= i <= l <= s.len(),
        forall|x: int| 0 <= x < l ==> is_dec_digit(#[trigger] s[x]),
    ensures
        dec_digits_value(s, i) == digits_value(s, 0, i, 10),
    decreases i,
{
    if i > 0 {
        lemma_dec_digits_plain(s, i - 1, l);
        assert(is_dec_digit(s[i - 1]));
    }
}

/// A decimal exponent may be written with `e` or `E`, and with `+`, `-` or
/// no sign: after digits `m`, each of `e k`, `E k`, `e+k`, `E+k` is read to
/// the end of the digits `k` and gives the exponent `k`, and `e-k`, `E-k`
/// give `-k`. So an explicit `+` reaches one byte further than no sign and
/// means the same.
pub proof fn law_decimal_exponent_signs(m: Seq<u8>, mid: Seq<u8>, k: Seq<u8>, f: FloatFormat)
    requires
        m.len() >= 1,
        k.len() >= 1,
        all_decimal(m),
        all_decimal(k),
        mid == seq![0x65u8] || mid == seq![0x45u8] || mid == seq![0x65u8, 0x2Bu8] || mid == seq![
            0x45u8,
            0x2Bu8,
        ] || mid == seq![0x65u8, 0x2Du8] || mid == seq![0x45u8, 0x2Du8],
        m.len() + mid.len() + k.len() <= usize::MAX,
    ensures
        ({
            let s = m + mid + k;
            let v = decimal_value(k);
            &&& float_scan(s, f) == FloatScan::Decimal {
                negative: false,
                start: 0,
                mantissa_end: m.len() as usize,
                end: s.len() as usize,
            }
            &&& decimal_token_of(s) == s
            &&& token_digits(s) == decimal_value(m)
            &&& token_scale(s) == if mid.len() == 2 && mid[1] == 0x2D { -v } else { v as int }
        }),
{
    lemma_decimal_exponent(m, mid, k, f);
}

// ---------------------------------------------------------------------------
// Binary exponents
// ---------------------------------------------------------------------------

/// A hexadecimal body of digits, an exponent marker and decimal digits.
proof fn lemma_hex_exponent(d: Seq<u8>, mid: Seq<u8>, k: Seq<u8>)
    requires
        d.len() >= 1,
        k.len() >= 1,
        all_hexadecimal(d),
        all_decimal(k),
        exponent_marker(mid, 0x70, 0x50),
    ensures
        ({
            let b = d + mid + k;
            let v = decimal_value(k);
            &&& hex_converts(b)
            &&& hex_end(b) == b.len()
            &&& hex_digits(b) == hexadecimal_value(d)
            &&& hex_exponent(b) == if marker_negative(mid) { -v } else { v as int }
        }),
{
    let b = d + mid + k;
    let l = d.len() as int;
    let ed = l + mid.len();
    assert forall|x: int| 0 <= x < l implies #[trigger] b[x] == d[x] by {}
    assert forall|x: int| 0 <= x < k.len() implies b[ed + x] == #[trigger] k[x] by {}
    assert(b[l] == mid[0]);
    if mid.len() == 2 {
        assert(b[l + 1] == mid[1]);
    } else {
        assert(b[l + 1] == k[0]);
    }
    assert(b[ed] == k[0]);
    assert forall|i: int| 0 <= i <= l implies #[trigger] hex_significand_end(b, i, false) == l by {
        lemma_significand_through(b, i, l);
    }
    assert(hex_mantissa_end(b) == l);
    lemma_hexadecimal_at(b, d, l);
    assert(d.subrange(0, l) =~= d);
    assert(bin_exp_digits(b, l) == ed);
    assert(has_bin_exp(b, l));
    assert forall|x: int| ed <= x < b.len() implies is_digit_in(#[trigger] b[x], 10) by {
        assert(b[ed + (x - ed)] == k[x - ed]);
    }
    lemma_run_through(b, ed, b.len() as int, 10);
    assert(bin_exp_end(b, l) == b.len());
    lemma_decimal_at(b, k, ed, k.len() as int);
    assert(k.subrange(0, k.len() as int) =~= k);
}

/// A hexadecimal significand over digits only ends at the first byte that is
/// neither a hexadecimal digit nor a point.
proof fn lemma_significand_through(b: Seq<u8>, i: int, l: int)
    requires
        0 <= i <= l < b.len(),
        forall|x: int| 0 <= x < l ==> is_digit_in(#[trigger] b[x], 16),
        !is_digit_in(b[l], 16),
        b[l] != 0x2E,
    ensures
        hex_significand_end(b, i, false) == l,
    decreases l - i,
{
    if i < l {
        lemma_significand_through(b, i + 1, l);
    }
}

/// A binary exponent may be written with `p` or `P`, and with `+`, `-` or no
/// sign: after hexadecimal digits `d`, each of `p k`, `P k`, `p+k`, `P+k` is
/// read to the end of the digits `k` and scales the digits by `2^k`, and
/// `p-k`, `P-k` by `2^-k`. So the marker's case does not matter, and an
/// explicit `+` reaches one byte further than no sign and means the same.
pub proof fn law_hex_exponent_signs(d: Seq<u8>, mid: Seq<u8>, k: Seq<u8>)
    requires
        d.len() >= 1,
        k.len() >= 1,
        all_hexadecimal(d),
        all_decimal(k),
        mid == seq![0x70u8] || mid == seq![0x50u8] || mid == seq![0x70u8, 0x2Bu8] || mid == seq![
            0x50u8,
            0x2Bu8,
        ] || mid == seq![0x70u8, 0x2Du8] || mid == seq![0x50u8, 0x2Du8],
    ensures
        ({
            let b = d + mid + k;
            let v = decimal_value(k);
            &&& hex_converts(b)
            &&& hex_end(b) == b.len()
            &&& hex_digits(b) == hexadecimal_value(d)
            &&& hex_exponent(b) == if mid.len() == 2 && mid[1] == 0x2D { -v } else { v as int }
        }),
{
    lemma_hex_exponent(d, mid, k);
}

// ---------------------------------------------------------------------------
// Infinity
// ---------------------------------------------------------------------------

/// Whether `c` is the ASCII letter `low` in either case.
pub open spec fn letter(c: u8, low: u8) -> bool {
    c == low || c == (low - 32) as u8
}

/// `inf` or `infinity`, in any case and after an optional sign, converts to
/// the format's infinity with that sign (0x7FF0000000000000 or 0x7F800000,
/// the top bit added for `-`), with no error; the end offset covers `inf`,
/// or all of `infinity` when the rest of that word follows.
pub proof fn law_infinity_words(sg: Seq<u8>, w: Seq<u8>, t: Seq<u8>, f: FloatFormat)
    requires
        sg == Seq::<u8>::empty() || sg == seq![0x2Bu8] || sg == seq![0x2Du8],
        w.len() == 3,
        letter(w[0], 0x69) && letter(w[1], 0x6E) && letter(w[2], 0x66),
        sg.len() + w.len() + t.len() <= usize::MAX,
    ensures
        ({
            let s = sg + w + t;
            let long = t.len() >= 5 && letter(t[0], 0x69) && letter(t[1], 0x6E) && letter(t[2], 0x69)
                && letter(t[3], 0x74) && letter(t[4], 0x79);
            let magnitude: u64 = match f {
                FloatFormat::Binary64 => 0x7FF0_0000_0000_0000u64,
                FloatFormat::Binary32 => 0x7F80_0000u64,
            };
            let sign: u64 = if sg == seq![0x2Du8] {
                match f {
                    FloatFormat::Binary64 => 0x8000_0000_0000_0000u64,
                    FloatFormat::Binary32 => 0x8000_0000u64,
                }
            } else {
                0u64
            };
            float_scan(s, f) == FloatScan::Converted {
                bits: (magnitude + sign) as u64,
                error: None,
                end: (sg.len() + if long { 8int } else { 3int }) as usize,
            }
        }),
{
    let s = sg + w + t;
    let p = sg.len() as int;
    assert forall|x: int| 0 <= x < 3 implies #[trigger] s[p + x] == w[x] by {}
    assert forall|x: int| 0 <= x < t.len() implies s[p + 3 + x] == #[trigger] t[x] by {}
    assert(s[p] == w[0] && s[p + 1] == w[1] && s[p + 2] == w[2]);
    if p == 1 {
        assert(s[0] == sg[0]);
    }
    assert(sign_index(s) == 0);
    assert(after_sign(s) == p);
    assert(int_negative(s) == (sg == seq![0x2Du8])) by {
        if sg != seq![0x2Du8] && p == 1 {
            assert(sg[0] == 0x2B);
        }
        if sg == seq![0x2Du8] {
            assert(s[0] == 0x2D);
        }
    }
    assert(!starts_number(s, p));
    assert(word_inf(s, p));
    if t.len() >= 5 {
        assert(s[p + 3] == t[0] && s[p + 4] == t[1] && s[p + 5] == t[2] && s[p + 6] == t[3] && s[p
            + 7] == t[4]);
    }
    vstd::arithmetic::power2::lemma2_to64();
    vstd::arithmetic::power2::lemma2_to64_rest();
    assert(pow2(52) == 0x10_0000_0000_0000) by {
        vstd::arithmetic::power2::lemma_pow2_adds(48, 4);
    }
    match f {
        FloatFormat::Binary64 => {
            assert(crate::float_format::infinity_bits(f) == 2047 * 0x10_0000_0000_0000);
            assert(crate::float_format::sign_bit(f) == 0x8000_0000_0000_0000);
        },
        FloatFormat::Binary32 => {
            assert(crate::float_format::infinity_bits(f) == 255 * 0x80_0000);
            assert(crate::float_format::sign_bit(f) == 0x8000_0000);
        },
    }
}

/// `nan`, in any case and after an optional sign, not followed by `(`,
/// converts to the format's default quiet NaN (0x7FF8000000000000 or
/// 0x7FC00000, the top bit added for `-`), with no error and the end offset
/// just after the word.
pub proof fn law_nan_word(sg: Seq<u8>, w: Seq<u8>, t: Seq<u8>, f: FloatFormat)
    requires
        sg == Seq::<u8>::empty() || sg == seq![0x2Bu8] || sg == seq![0x2Du8],
        w.len() == 3,
        letter(w[0], 0x6E) && letter(w[1], 0x61) && letter(w[2], 0x6E),
        t.len() == 0 || t[0] != 0x28,
        sg.len() + w.len() + t.len() <= usize::MAX,
    ensures
        ({
            let s = sg + w + t;
            let magnitude: u64 = match f {
                FloatFormat::Binary64 => 0x7FF8_0000_0000_0000u64,
                FloatFormat::Binary32 => 0x7FC0_0000u64,
            };
            let sign: u64 = if sg == seq![0x2Du8] {
                match f {
                    FloatFormat::Binary64 => 0x8000_0000_0000_0000u64,
                    FloatFormat::Binary32 => 0x8000_0000u64,
                }
            } else {
                0u64
            };
            float_scan(s, f) == FloatScan::Converted {
                bits: (magnitude + sign) as u64,
                error: None,
                end: (sg.len() + 3) as usize,
            }
        }),
{
    let s = sg + w + t;
    let p = sg.len() as int;
    assert(s[p] == w[0] && s[p + 1] == w[1] && s[p + 2] == w[2]);
    if p == 1 {
        assert(s[0] == sg[0]);
    }
    assert(sign_index(s) == 0);
    assert(after_sign(s) == p);
    assert(int_negative(s) == (sg == seq![0x2Du8])) by {
        if sg != seq![0x2Du8] && p == 1 {
            assert(sg[0] == 0x2B);
        }
        if sg == seq![0x2Du8] {
            assert(s[0] == 0x2D);
        }
    }
    assert(!starts_number(s, p));
    assert(!word_inf(s, p));
    assert(crate::strto::word_nan(s, p));
    let after = s.subrange(p + 3, s.len() as int);
    assert(after =~= t);
    assert(!crate::nan::nan_has_parens(after));
    vstd::arithmetic::power2::lemma2_to64();
    vstd::arithmetic::power2::lemma2_to64_rest();
    assert(pow2(52) == 0x10_0000_0000_0000 && pow2(51) == 0x8_0000_0000_0000) by {
        vstd::arithmetic::power2::lemma_pow2_adds(48, 4);
        vstd::arithmetic::power2::lemma_pow2_adds(48, 3);
    }
    match f {
        FloatFormat::Binary64 => {
            assert(crate::float_format::infinity_bits(f) == 2047 * 0x10_0000_0000_0000);
            assert(crate::float_format::sign_bit(f) == 0x8000_0000_0000_0000);
        },
        FloatFormat::Binary32 => {
            assert(crate::float_format::infinity_bits(f) == 255 * 0x80_0000);
            assert(crate::float_format::sign_bit(f) == 0x8000_0000);
        },
    }
}

// ---------------------------------------------------------------------------
// A decimal point
// ---------------------------------------------------------------------------

/// Over digits with one point at `l1`, the value of the significand's first
/// `i` bytes is that of the digits among them.
proof fn lemma_dec_digits_point(s: Seq<u8>, q: Seq<u8>, l1: int, i: int)
    requires
        0 <= l1 < s.len(),
        s.len() == q.len() + 1,
        all_decimal(q),
        s[l1] == 0x2E,
        forall|x: int| 0 <= x < l1 ==> #[trigger] s[x] == q[x],
        forall|x: int| l1 < x < s.len() ==> #[trigger] s[x] == q[x - 1],
        0 <= i <= s.len(),
    ensures
        dec_digits_value(s, i) == decimal_value(q.subrange(0, if i <= l1 { i } else { i - 1 })),
    decreases i,
{
    if i > 0 {
        lemma_dec_digits_point(s, q, l1, i - 1);
        if i - 1 != l1 {
            let j = if i <= l1 { i } else { i - 1 };
            assert(q.subrange(0, j).drop_last() =~= q.subrange(0, j - 1));
            if i - 1 < l1 {
                assert(s[i - 1] == q[i - 1]);
            } else {
                assert(s[i - 1] == q[i - 2]);
            }
        }
    }
}

/// A decimal point splits the digits of a significand: digits `m1`, a point
/// and digits `m2` (at least one digit in all) are read whole and denote the
/// number whose digits are `m1` then `m2`, scaled by `10^-len(m2)`.
pub proof fn law_decimal_point(m1: Seq<u8>, m2: Seq<u8>, f: FloatFormat)
    requires
        all_decimal(m1),
        all_decimal(m2),
        m1.len() + m2.len() >= 1,
        m1.len() + m2.len() + 1 <= usize::MAX,
    ensures
        ({
            let s = m1 + seq![0x2Eu8] + m2;
            &&& float_scan(s, f) == FloatScan::Decimal {
                negative: false,
                start: 0,
                mantissa_end: s.len() as usize,
                end: s.len() as usize,
            }
            &&& decimal_token_of(s) == s
            &&& token_digits(s) == decimal_value(m1 + m2)
            &&& token_scale(s) == -(m2.len() as int)
        }),
{
    let s = m1 + seq![0x2Eu8] + m2;
    let q = m1 + m2;
    let l1 = m1.len() as int;
    let n = s.len() as int;
    assert forall|x: int| 0 <= x < l1 implies #[trigger] s[x] == q[x] by {
        assert(s[x] == m1[x]);
    }
    assert forall|x: int| l1 < x < n implies #[trigger] s[x] == q[x - 1] by {
        assert(s[x] == m2[x - l1 - 1]);
    }
    assert(s[l1] == 0x2E);
    assert(all_decimal(q)) by {
        assert forall|i: int| 0 <= i < q.len() implies 0x30 <= #[trigger] q[i] <= 0x39 by {
            if i < l1 {
                assert(q[i] == m1[i]);
            } else {
                assert(q[i] == m2[i - l1]);
            }
        }
    }
    if l1 == 0 {
        assert(s[1] == q[0]);
    } else {
        assert(s[0] == q[0]);
        if l1 >= 2 {
            assert(s[1] == q[1]);
        }
    }
    assert(sign_index(s) == 0);
    assert(after_sign(s) == 0);
    assert(!int_negative(s));
    assert(starts_number(s, 0));
    assert(!hex_prefix(s, 0));
    assert forall|x: int| 0 <= x < l1 implies is_digit_in(#[trigger] s[x], 10) by {
        assert(s[x] == q[x]);
    }
    lemma_run_through(s, 0, l1, 10);
    assert forall|x: int| l1 + 1 <= x < n implies is_digit_in(#[trigger] s[x], 10) by {
        assert(s[x] == q[x - 1]);
    }
    lemma_run_through(s, l1 + 1, n, 10);
    assert(dec_mantissa_end(s, 0) == n);
    assert(dec_end(s, 0) == n);
    assert(decimal_token_of(s) =~= s);
    lemma_dec_digits_point(s, q, l1, n);
    assert(q.subrange(0, n - 1) =~= q);
    assert(token_exponent(s) == 0);
    assert forall|j: int| 0 <= j < l1 implies #[trigger] s[j] != 0x2E by {
        assert(s[j] == q[j]);
    }
    assert forall|j: int| l1 < j < n implies #[trigger] s[j] != 0x2E by {
        assert(s[j] == q[j - 1]);
    }
    crate::decimal::lemma_points(s, n, l1, n);
}

// ---------------------------------------------------------------------------
// Integer bases
// ---------------------------------------------------------------------------

/// The number that the octal digits `k` denote, most significant first.
pub open spec fn octal_value(k: Seq<u8>) -> nat
    decreases k.len(),
{
    if k.len() == 0 {
        0
    } else {
        octal_value(k.drop_last()) * 8 + (k.last() - 0x30) as nat
    }
}

/// Hexadecimal digits copied into `s` at `off` have the value they denote.
proof fn lemma_hex_value_at(s: Seq<u8>, d: Seq<u8>, off: int, n: int)
    requires
        0 <= off,
        0 <= n <= d.len(),
        off + n <= s.len(),
        all_hexadecimal(d),
        forall|x: int| 0 <= x < n ==> s[off + x] == #[trigger] d[x],
    ensures
        digits_value(s, off, off + n, 16) == hexadecimal_value(d.subrange(0, n)),
        forall|x: int| off <= x < off + n ==> is_digit_in(#[trigger] s[x], 16),
    decreases n,
{
    if n > 0 {
        lemma_hex_value_at(s, d, off, n - 1);
        assert(d.subrange(0, n).drop_last() =~= d.subrange(0, n - 1));
        assert(s[off + n - 1] == d[n - 1]);
        assert forall|x: int| off <= x < off + n implies is_digit_in(#[trigger] s[x], 16) by {
            assert(s[off + (x - off)] == d[x - off]);
        }
    }
}

/// Octal digits copied into `s` at `off` have the value they denote.
proof fn lemma_octal_value_at(s: Seq<u8>, k: Seq<u8>, off: int, n: int)
    requires
        0 <= off,
        0 <= n <= k.len(),
        off + n <= s.len(),
        forall|i: int| 0 <= i < k.len() ==> 0x30 <= #[trigger] k[i] <= 0x37,
        forall|x: int| 0 <= x < n ==> s[off + x] == #[trigger] k[x],
    ensures
        digits_value(s, off, off + n, 8) == octal_value(k.subrange(0, n)),
        forall|x: int| off <= x < off + n ==> is_digit_in(#[trigger] s[x], 8),
    decreases n,
{
    if n > 0 {
        lemma_octal_value_at(s, k, off, n - 1);
        assert(k.subrange(0, n).drop_last() =~= k.subrange(0, n - 1));
        assert(s[off + n - 1] == k[n - 1]);
        assert forall|x: int| off <= x < off + n implies is_digit_in(#[trigger] s[x], 8) by {
            assert(s[off + (x - off)] == k[x - off]);
        }
    }
}

/// The prefixes of the integer bases: in base 16 or 0, `0x` or `0X` followed
/// by hexadecimal digits is read whole as their hexadecimal value; in base
/// 0, a `0` followed by octal digits is read whole as their octal value; in
/// base 10, decimal digits are read whole as their value.
pub proof fn law_integer_base_prefixes(d: Seq<u8>, o: Seq<u8>, k: Seq<u8>, x: u8, hex_base: int)
    requires
        d.len() >= 1,
        all_hexadecimal(d),
        forall|i: int| 0 <= i < o.len() ==> 0x30 <= #[trigger] o[i] <= 0x37,
        k.len() >= 1,
        all_decimal(k),
        x == 0x78 || x == 0x58,
        hex_base == 0 || hex_base == 16,
    ensures
        ({
            let h = seq![0x30u8, x] + d;
            &&& int_converts(h, hex_base)
            &&& !int_negative(h)
            &&& int_end(h, hex_base) == h.len()
            &&& int_magnitude(h, hex_base) == hexadecimal_value(d)
        }),
        ({
            let z = seq![0x30u8] + o;
            &&& int_converts(z, 0)
            &&& !int_negative(z)
            &&& int_end(z, 0) == z.len()
            &&& int_magnitude(z, 0) == octal_value(o)
        }),
        int_converts(k, 10),
        !int_negative(k),
        int_end(k, 10) == k.len(),
        int_magnitude(k, 10) == decimal_value(k),
{
    // hexadecimal
    let h = seq![0x30u8, x] + d;
    assert(h[0] == 0x30 && h[1] == x && h[2] == d[0]);
    assert forall|i: int| 0 <= i < d.len() implies h[2 + i] == #[trigger] d[i] by {}
    assert(sign_index(h) == 0);
    assert(after_sign(h) == 0);
    lemma_hex_value_at(h, d, 2, d.len() as int);
    assert(d.subrange(0, d.len() as int) =~= d);
    assert(int_hex_prefix(h, hex_base));
    lemma_run_through(h, 2, h.len() as int, 16);
    // octal
    let z = seq![0x30u8] + o;
    assert forall|i: int| 0 <= i < o.len() implies z[1 + i] == #[trigger] o[i] by {}
    assert(z[0] == 0x30);
    assert(sign_index(z) == 0);
    assert(after_sign(z) == 0);
    assert(!int_hex_prefix(z, 0)) by {
        if o.len() >= 1 {
            assert(z[1] == o[0]);
        }
    }
    lemma_octal_value_at(z, o, 1, o.len() as int);
    assert(o.subrange(0, o.len() as int) =~= o);
    assert(is_digit_in(z[0], 8));
    assert forall|i: int| 0 <= i < z.len() implies is_digit_in(#[trigger] z[i], 8) by {
        if i > 0 {
            assert(z[1 + (i - 1)] == o[i - 1]);
        }
    }
    lemma_run_through(z, 0, z.len() as int, 8);
    assert(digits_value(z, 0, z.len() as int, 8) == digits_value(z, 1, z.len() as int, 8)) by {
        lemma_leading_zero_digit(z, z.len() as int, 8);
    }
    // decimal
    assert(k[0] == k[0]);
    assert(sign_index(k) == 0);
    assert(after_sign(k) == 0);
    lemma_decimal_at(k, k, 0, k.len() as int);
    assert(k.subrange(0, k.len() as int) =~= k);
    assert forall|i: int| 0 <= i < k.len() implies is_digit_in(#[trigger] k[i], 10) by {}
    lemma_run_through(k, 0, k.len() as int, 10);
}

/// A leading `0` digit adds nothing to the value of digits.
proof fn lemma_leading_zero_digit(s: Seq<u8>, to: int, r: nat)
    requires
        1 <= to <= s.len(),
        s[0] == 0x30,
    ensures
        digits_value(s, 0, to, r) == digits_value(s, 1, to, r),
    decreases to,
{
    assert(crate::chars::digit_of(0x30u8) == 0);
    if to > 1 {
        lemma_leading_zero_digit(s, to - 1, r);
        assert(digits_value(s, 0, to, r) == digits_value(s, 0, to - 1, r) * r + crate::chars::digit_of(s[to - 1]));
        assert(digits_value(s, 1, to, r) == digits_value(s, 1, to - 1, r) * r + crate::chars::digit_of(s[to - 1]));
    } else {
        assert(digits_value(s, 0, 0, r) == 0);
        assert(digits_value(s, 0, 1, r) == 0 * r + crate::chars::digit_of(s[0]));
        assert(digits_value(s, 0, 1, r) == 0);
        assert(digits_value(s, 1, 1, r) == 0);
    }
}

} // verus!
