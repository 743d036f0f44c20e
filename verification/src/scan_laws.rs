//! Properties of the floating-point scan over all inputs.

use vstd::prelude::*;
use crate::chars::{byte_at, is_c_space, is_dec_digit, is_digit_in, skip_space};
use crate::integer::{digit_run_end, digits_value, sign_index, after_sign, int_negative};
use crate::float_format::{FloatFormat, fraction_bits, sign_bit};
use crate::hexfloat::{
    hex_significand_end, point_before, hex_any_digit, hex_digits_value, digits_after_point,
    has_bin_exp, bin_exp_digits, bin_exp_end, bin_exp_value, hex_mantissa_end, hex_converts,
    hex_end, hex_digits, hex_exponent,
};
use crate::nan::{is_nchar, nchar_run_end, nan_has_parens, nan_parens_len, nan_bits};
use crate::strto::{
    FloatScan, float_scan, ascii_lower, word_inf, word_infinity, word_nan, starts_number,
    hex_prefix, dec_mantissa_end, dec_exp_digits, dec_end,
};
use crate::decimal::{decimal_token_of, lemma_digit_run_facts};
use crate::laws::{
    lemma_run_shift_one, same_below, lemma_skip_agree, lemma_skip_ge, lemma_run_agree, lemma_value_agree,
    lemma_prefix_byte, lemma_prefix_same, lemma_cut_run,
};

verus! {

// ---------------------------------------------------------------------------
// Stopping at a NUL
// ---------------------------------------------------------------------------

/// Whether `u` is `s` followed by a NUL and then anything.
pub open spec fn nul_extends(s: Seq<u8>, u: Seq<u8>) -> bool {
    &&& s.len() < u.len()
    &&& u[s.len() as int] == 0
    &&& forall|i: int| 0 <= i < s.len() ==> #[trigger] u[i] == s[i]
}

/// Up to and including the NUL, both strings read alike.
proof fn lemma_ext_byte(s: Seq<u8>, u: Seq<u8>, i: int)
    requires
        nul_extends(s, u),
        0 <= i <= s.len(),
    ensures
        byte_at(u, i) == byte_at(s, i),
{
    if i < s.len() {
        assert(u[i] == s[i]);
    }
}

/// Dropping the same first bytes from both keeps the relation.
proof fn lemma_ext_suffix(s: Seq<u8>, u: Seq<u8>, k: int)
    requires
        nul_extends(s, u),
        0 <= k <= s.len(),
    ensures
        nul_extends(s.subrange(k, s.len() as int), u.subrange(k, u.len() as int)),
{
    let a = s.subrange(k, s.len() as int);
    let b = u.subrange(k, u.len() as int);
    assert(b[a.len() as int] == u[s.len() as int]);
    assert forall|i: int| 0 <= i < a.len() implies #[trigger] b[i] == a[i] by {
        assert(u[k + i] == s[k + i]);
    }
}

/// Skipping whitespace stops at the same place, at the NUL at the latest.
proof fn lemma_ext_skip(s: Seq<u8>, u: Seq<u8>, i: int)
    requires
        nul_extends(s, u),
        0 <= i <= s.len(),
    ensures
        skip_space(u, i) == skip_space(s, i),
        i <= skip_space(s, i) <= s.len(),
    decreases s.len() - i,
{
    if i < s.len() {
        assert(u[i] == s[i]);
        if is_c_space(s[i]) {
            lemma_ext_skip(s, u, i + 1);
        }
    } else {
        assert(u[i] == 0);
    }
}

/// A run of digits ends at the same place, at the NUL at the latest.
proof fn lemma_ext_run(s: Seq<u8>, u: Seq<u8>, i: int, r: nat)
    requires
        nul_extends(s, u),
        0 <= i <= s.len(),
    ensures
        digit_run_end(u, i, r) == digit_run_end(s, i, r),
        i <= digit_run_end(s, i, r) <= s.len(),
    decreases s.len() - i,
{
    if i < s.len() {
        assert(u[i] == s[i]);
        if is_digit_in(s[i], r) {
            lemma_ext_run(s, u, i + 1, r);
        }
    } else {
        assert(u[i] == 0);
        assert(!is_digit_in(0u8, r));
    }
}

/// Digits before the NUL have the same value.
proof fn lemma_ext_value(s: Seq<u8>, u: Seq<u8>, from: int, to: int, r: nat)
    requires
        nul_extends(s, u),
        0 <= from,
        to <= s.len(),
    ensures
        digits_value(u, from, to, r) == digits_value(s, from, to, r),
    decreases to - from,
{
    if to > from {
        assert(u[to - 1] == s[to - 1]);
        lemma_ext_value(s, u, from, to - 1, r);
    }
}

/// A run of n-chars ends at the same place, at the NUL at the latest.
proof fn lemma_ext_nchar(s: Seq<u8>, u: Seq<u8>, i: int)
    requires
        nul_extends(s, u),
        0 <= i <= s.len(),
    ensures
        nchar_run_end(u, i) == nchar_run_end(s, i),
        i <= nchar_run_end(s, i) <= s.len(),
    decreases s.len() - i,
{
    if i < s.len() {
        assert(u[i] == s[i]);
        if is_nchar(s[i]) {
            lemma_ext_nchar(s, u, i + 1);
        }
    } else {
        assert(u[i] == 0);
    }
}

/// A hexadecimal significand ends at the same place, at the NUL at the
/// latest.
proof fn lemma_ext_significand(s: Seq<u8>, u: Seq<u8>, i: int, point: bool)
    requires
        nul_extends(s, u),
        0 <= i <= s.len(),
    ensures
        hex_significand_end(u, i, point) == hex_significand_end(s, i, point),
        i <= hex_significand_end(s, i, point) <= s.len(),
    decreases s.len() - i,
{
    if i < s.len() {
        assert(u[i] == s[i]);
        if is_digit_in(s[i], 16) {
            lemma_ext_significand(s, u, i + 1, point);
        } else if s[i] == 0x2E && !point {
            lemma_ext_significand(s, u, i + 1, true);
        }
    } else {
        assert(u[i] == 0);
        assert(!is_digit_in(0u8, 16));
    }
}

/// What a significand's first `k` bytes hold is the same below the NUL.
proof fn lemma_ext_significand_parts(s: Seq<u8>, u: Seq<u8>, k: int)
    requires
        nul_extends(s, u),
        k <= s.len(),
    ensures
        point_before(u, k) == point_before(s, k),
        hex_any_digit(u, k) == hex_any_digit(s, k),
        hex_digits_value(u, k) == hex_digits_value(s, k),
        digits_after_point(u, k) == digits_after_point(s, k),
    decreases k,
{
    if k > 0 {
        assert(u[k - 1] == s[k - 1]);
        lemma_ext_significand_parts(s, u, k - 1);
    }
}

/// A binary exponent after a significand ending at `k` reads alike.
proof fn lemma_ext_bin_exp(s: Seq<u8>, u: Seq<u8>, k: int)
    requires
        nul_extends(s, u),
        0 <= k <= s.len(),
    ensures
        has_bin_exp(u, k) == has_bin_exp(s, k),
        has_bin_exp(s, k) ==> bin_exp_end(u, k) == bin_exp_end(s, k),
        has_bin_exp(s, k) ==> k < bin_exp_end(s, k) <= s.len(),
        bin_exp_value(u, k) == bin_exp_value(s, k),
{
    lemma_ext_byte(s, u, k);
    if k < s.len() {
        lemma_ext_byte(s, u, k + 1);
        let e = bin_exp_digits(s, k);
        assert(bin_exp_digits(u, k) == e);
        if byte_at(s, k) == 0x70 || byte_at(s, k) == 0x50 {
            if e <= s.len() {
                lemma_ext_byte(s, u, e);
                if has_bin_exp(s, k) {
                    lemma_ext_run(s, u, e, 10);
                    lemma_ext_value(s, u, e, bin_exp_end(s, k), 10);
                }
            } else {
                // a sign at `k + 1` lies below the NUL, so `e` does not pass it
                assert(byte_at(s, k + 1) == 0);
            }
        }
    }
}

/// The parts of a hexadecimal body are the same before and after the NUL.
proof fn lemma_ext_hex(s: Seq<u8>, u: Seq<u8>)
    requires
        nul_extends(s, u),
    ensures
        hex_converts(u) == hex_converts(s),
        hex_end(u) == hex_end(s),
        hex_digits(u) == hex_digits(s),
        hex_exponent(u) == hex_exponent(s),
{
    lemma_ext_significand(s, u, 0, false);
    let k = hex_mantissa_end(s);
    lemma_ext_significand_parts(s, u, k);
    lemma_ext_bin_exp(s, u, k);
}

/// What follows `nan` gives the same NaN and the same length.
proof fn lemma_ext_nan(a: Seq<u8>, b: Seq<u8>, f: FloatFormat)
    requires
        nul_extends(a, b),
    ensures
        nan_has_parens(b) == nan_has_parens(a),
        nan_has_parens(a) ==> nan_parens_len(b) == nan_parens_len(a),
        nan_bits(b, f) == nan_bits(a, f),
{
    if a.len() == 0 {
        assert(b[0] == 0);
        assert(!nan_has_parens(a));
        assert(!nan_has_parens(b));
    } else {
        assert(b[0] == a[0]);
        lemma_ext_nchar(a, b, 1);
        let n = nchar_run_end(a, 1);
        if n < a.len() {
            assert(b[n] == a[n]);
        } else {
            assert(b[n] == 0);
        }
        assert(b.subrange(1, n) =~= a.subrange(1, n));
    }
}

/// The words `inf`, `infinity` and `nan` read alike: a NUL ends them.
proof fn lemma_ext_words(s: Seq<u8>, u: Seq<u8>, p: int)
    requires
        nul_extends(s, u),
        0 <= p <= s.len(),
    ensures
        word_inf(u, p) == word_inf(s, p),
        word_infinity(u, p) == word_infinity(s, p),
        word_nan(u, p) == word_nan(s, p),
{
    let l = s.len() as int;
    assert(ascii_lower(0u8) == 0u8);
    assert(u[l] == 0);
    assert forall|j: int| p <= j < l implies #[trigger] u[j] == s[j] by {}
    if l < p + 8 {
        assert(ascii_lower(u[l]) == 0u8);
    }
}

/// The bytes after a NUL never change a floating-point conversion: the
/// scan, and the decimal token it leaves to a decimal parser, are those of
/// the string cut at its first NUL. `atof` relies on this when it stops at
/// the NUL.
pub proof fn law_float_stops_at_nul(s: Seq<u8>, t: Seq<u8>, f: FloatFormat)
    ensures
        ({
            let u = s + seq![0u8] + t;
            &&& float_scan(u, f) == float_scan(s, f)
            &&& decimal_token_of(u) == decimal_token_of(s)
        }),
{
    let u = s + seq![0u8] + t;
    let l = s.len() as int;
    assert(nul_extends(s, u)) by {
        assert(u[l] == 0);
        assert forall|i: int| 0 <= i < l implies #[trigger] u[i] == s[i] by {}
    }
    lemma_ext_skip(s, u, 0);
    let w = sign_index(s);
    lemma_ext_byte(s, u, w);
    assert(sign_index(u) == w);
    assert(int_negative(u) == int_negative(s));
    let p = after_sign(s);
    assert(after_sign(u) == p);
    assert(p <= l);
    lemma_ext_byte(s, u, p);
    if p < l {
        lemma_ext_byte(s, u, p + 1);
    }
    assert(starts_number(u, p) == starts_number(s, p));
    lemma_ext_words(s, u, p);
    if !starts_number(s, p) {
        if word_nan(s, p) {
            lemma_ext_suffix(s, u, p + 3);
            lemma_ext_nan(s.subrange(p + 3, l), u.subrange(p + 3, u.len() as int), f);
        }
    } else if hex_prefix(s, p) {
        assert(p + 2 <= l);
        assert(hex_prefix(u, p));
        lemma_ext_suffix(s, u, p + 2);
        lemma_ext_hex(s.subrange(p + 2, l), u.subrange(p + 2, u.len() as int));
    } else {
        assert(!hex_prefix(u, p));
    }
    // the decimal reading, used by a `Decimal` scan and by the token
    lemma_ext_run(s, u, p, 10);
    let n = digit_run_end(s, p, 10);
    lemma_ext_byte(s, u, n);
    if byte_at(s, n) == 0x2E {
        lemma_ext_run(s, u, n + 1, 10);
    }
    let m = dec_mantissa_end(s, p);
    assert(dec_mantissa_end(u, p) == m);
    assert(p <= m <= l);
    lemma_ext_byte(s, u, m);
    let e = dec_exp_digits(s, m);
    if byte_at(s, m) == 0x65 || byte_at(s, m) == 0x45 {
        lemma_ext_byte(s, u, m + 1);
        assert(dec_exp_digits(u, m) == e);
        if e <= l {
            lemma_ext_byte(s, u, e);
            lemma_ext_run(s, u, e, 10);
        } else {
            assert(byte_at(s, m + 1) == 0);
        }
    }
    assert(dec_end(u, p) == dec_end(s, p));
    assert(p <= dec_end(s, p) <= l);
    assert(decimal_token_of(u) =~= decimal_token_of(s));
}


// ---------------------------------------------------------------------------
// A minus sign
// ---------------------------------------------------------------------------

/// A run of n-chars lies within the string.
proof fn lemma_nchar_bounds(s: Seq<u8>, i: int)
    requires
        0 <= i <= s.len(),
    ensures
        i <= nchar_run_end(s, i) <= s.len(),
    decreases s.len() - i,
{
    if i < s.len() && is_nchar(s[i]) {
        lemma_nchar_bounds(s, i + 1);
    }
}

/// A NaN's pattern lies below the sign bit.
proof fn lemma_nan_below_sign(after: Seq<u8>, f: FloatFormat)
    ensures
        nan_bits(after, f) < sign_bit(f),
{
    crate::float_format::lemma_format_bounds(f);
    vstd::arithmetic::power2::lemma_pow2_pos((fraction_bits(f) - 1) as nat);
}

/// The end of a decimal reading lies within the string.
proof fn lemma_dec_end_within(d: Seq<u8>, p: int)
    requires
        0 <= p <= d.len(),
    ensures
        p <= dec_mantissa_end(d, p) <= dec_end(d, p) <= d.len(),
{
    lemma_digit_run_facts(d, p, 10);
    let n = digit_run_end(d, p, 10);
    if byte_at(d, n) == 0x2E {
        lemma_digit_run_facts(d, n + 1, 10);
    }
    let m = dec_mantissa_end(d, p);
    let e = dec_exp_digits(d, m);
    if (byte_at(d, m) == 0x65 || byte_at(d, m) == 0x45) && is_dec_digit(byte_at(d, e)) {
        lemma_digit_run_facts(d, e, 10);
    }
}

/// A minus sign negates a floating-point conversion: with `-` written
/// before a number, the scan reads the same number one byte further on and
/// gives it with the sign bit set (a decimal number is marked negative, its
/// token unchanged); where nothing converts, the result stays +0 with end 0.
pub proof fn law_float_minus_sign_negates(d: Seq<u8>, f: FloatFormat)
    requires
        !is_c_space(byte_at(d, 0)),
        byte_at(d, 0) != 0x2B && byte_at(d, 0) != 0x2D,
        d.len() + 1 <= usize::MAX,
    ensures
        ({
            let s = seq![0x2Du8] + d;
            match float_scan(d, f) {
                FloatScan::Converted { bits, error, end } => if end == 0 {
                    float_scan(s, f) == FloatScan::Converted { bits: 0, error: None, end: 0 }
                } else {
                    &&& bits < sign_bit(f)
                    &&& float_scan(s, f) == FloatScan::Converted {
                        bits: (bits + sign_bit(f)) as u64,
                        error,
                        end: (end + 1) as usize,
                    }
                },
                FloatScan::Decimal { negative, start, mantissa_end, end } => {
                    &&& !negative
                    &&& float_scan(s, f) == FloatScan::Decimal {
                        negative: true,
                        start: (start + 1) as usize,
                        mantissa_end: (mantissa_end + 1) as usize,
                        end: (end + 1) as usize,
                    }
                },
            }
        }),
        decimal_token_of(seq![0x2Du8] + d) == decimal_token_of(d),
{
    let s = seq![0x2Du8] + d;
    let l = d.len() as int;
    crate::float_format::lemma_format_bounds(f);
    assert(s[0] == 0x2D);
    assert(sign_index(s) == 0);
    assert(after_sign(s) == 1);
    assert(int_negative(s));
    assert(sign_index(d) == 0);
    assert(after_sign(d) == 0);
    assert(!int_negative(d));
    assert forall|i: int| 0 <= i implies #[trigger] byte_at(s, i + 1) == byte_at(d, i) by {
        if i < l {
            assert(s[i + 1] == d[i]);
        }
    }
    assert(byte_at(s, 1) == byte_at(d, 0));
    assert(byte_at(s, 2) == byte_at(d, 1));
    assert(starts_number(s, 1) == starts_number(d, 0));
    assert forall|j: int| 0 <= j < l implies #[trigger] s[j + 1] == d[j] by {}
    assert(word_inf(s, 1) == word_inf(d, 0)) by {
        if l >= 3 {
            assert(s[1] == d[0] && s[2] == d[1] && s[3] == d[2]);
        }
    }
    assert(word_infinity(s, 1) == word_infinity(d, 0)) by {
        if l >= 8 {
            assert(s[4] == d[3] && s[5] == d[4] && s[6] == d[5] && s[7] == d[6] && s[8] == d[7]);
        }
    }
    assert(word_nan(s, 1) == word_nan(d, 0)) by {
        if l >= 3 {
            assert(s[1] == d[0] && s[2] == d[1] && s[3] == d[2]);
        }
    }
    if !starts_number(d, 0) {
        if word_nan(d, 0) && !word_inf(d, 0) {
            let after = d.subrange(3, l);
            assert(s.subrange(4, s.len() as int) =~= after);
            lemma_nan_below_sign(after, f);
            if after.len() > 0 {
                lemma_nchar_bounds(after, 1);
            }
        }
    } else if hex_prefix(d, 0) {
        assert(hex_prefix(s, 1));
        assert(l >= 2);
        let body = d.subrange(2, l);
        assert(s.subrange(3, s.len() as int) =~= body);
        if hex_converts(body) {
            crate::hexfloat::lemma_hex_end_bounds(body);
            crate::rounding::lemma_correctly_rounded_bound(hex_digits(body), hex_exponent(body), f);
        }
    } else {
        assert(!hex_prefix(s, 1));
    }
    // the decimal reading, one byte further on
    lemma_dec_end_within(d, 0);
    lemma_digit_run_facts(d, 0, 10);
    lemma_run_shift_one(0x2Du8, d, 0, 10);
    let n = digit_run_end(d, 0, 10);
    assert(byte_at(s, n + 1) == byte_at(d, n));
    if byte_at(d, n) == 0x2E {
        lemma_run_shift_one(0x2Du8, d, n + 1, 10);
    }
    let m = dec_mantissa_end(d, 0);
    assert(dec_mantissa_end(s, 1) == m + 1);
    assert(byte_at(s, m + 1) == byte_at(d, m));
    assert(byte_at(s, m + 2) == byte_at(d, m + 1));
    let e = dec_exp_digits(d, m);
    assert(dec_exp_digits(s, m + 1) == e + 1);
    assert(byte_at(s, e + 1) == byte_at(d, e));
    lemma_run_shift_one(0x2Du8, d, e, 10);
    assert(dec_end(s, 1) == dec_end(d, 0) + 1);
    assert(decimal_token_of(s) =~= decimal_token_of(d));
}


// ---------------------------------------------------------------------------
// Reading only the reported prefix
// ---------------------------------------------------------------------------

/// The end offset of a scan, whatever it found.
pub open spec fn scan_end(r: FloatScan) -> usize {
    match r {
        FloatScan::Converted { end, .. } => end,
        FloatScan::Decimal { end, .. } => end,
    }
}

/// A run of n-chars that ends within a prefix ends at the same place in it.
proof fn lemma_prefix_nchar(s: Seq<u8>, l: int, i: int)
    requires
        0 <= l <= s.len(),
        0 <= i <= nchar_run_end(s, i) <= l,
    ensures
        nchar_run_end(s.subrange(0, l), i) == nchar_run_end(s, i),
    decreases s.len() - i,
{
    let t = s.subrange(0, l);
    if i < l {
        assert(t[i] == s[i]);
        if is_nchar(s[i]) {
            lemma_nchar_bounds(s, i + 1);
            lemma_prefix_nchar(s, l, i + 1);
        }
    }
}

/// A hexadecimal significand that ends within a prefix ends at the same
/// place in it.
proof fn lemma_prefix_significand(s: Seq<u8>, l: int, i: int, point: bool)
    requires
        0 <= l <= s.len(),
        0 <= i <= hex_significand_end(s, i, point) <= l,
    ensures
        hex_significand_end(s.subrange(0, l), i, point) == hex_significand_end(s, i, point),
    decreases s.len() - i,
{
    let t = s.subrange(0, l);
    if i < l {
        assert(t[i] == s[i]);
        if is_digit_in(s[i], 16) {
            crate::hexfloat::lemma_significand_end_bounds(s, i + 1, point);
            lemma_prefix_significand(s, l, i + 1, point);
        } else if s[i] == 0x2E && !point {
            crate::hexfloat::lemma_significand_end_bounds(s, i + 1, true);
            lemma_prefix_significand(s, l, i + 1, true);
        }
    }
}

/// What a significand's first `k` bytes hold is the same in a prefix that
/// contains them.
proof fn lemma_prefix_significand_parts(s: Seq<u8>, l: int, k: int)
    requires
        0 <= l <= s.len(),
        k <= l,
    ensures
        point_before(s.subrange(0, l), k) == point_before(s, k),
        hex_any_digit(s.subrange(0, l), k) == hex_any_digit(s, k),
        hex_digits_value(s.subrange(0, l), k) == hex_digits_value(s, k),
        digits_after_point(s.subrange(0, l), k) == digits_after_point(s, k),
    decreases k,
{
    if k > 0 {
        assert(s.subrange(0, l)[k - 1] == s[k - 1]);
        lemma_prefix_significand_parts(s, l, k - 1);
    }
}

/// A hexadecimal body cut after its end converts as the whole body does.
proof fn lemma_prefix_hex(b: Seq<u8>)
    requires
        hex_converts(b),
    ensures
        ({
            let h = hex_end(b);
            let t = b.subrange(0, h);
            &&& hex_converts(t)
            &&& hex_end(t) == h
            &&& hex_digits(t) == hex_digits(b)
            &&& hex_exponent(t) == hex_exponent(b)
        }),
{
    crate::hexfloat::lemma_hex_end_bounds(b);
    let h = hex_end(b);
    let t = b.subrange(0, h);
    let k = hex_mantissa_end(b);
    crate::hexfloat::lemma_significand_end_bounds(b, 0, false);
    lemma_prefix_significand(b, h, 0, false);
    assert(hex_mantissa_end(t) == k);
    lemma_prefix_significand_parts(b, h, k);
    lemma_prefix_same(b, h);
    lemma_prefix_byte(b, h, k);
    lemma_prefix_byte(b, h, k + 1);
    if has_bin_exp(b, k) {
        let e = bin_exp_digits(b, k);
        lemma_digit_run_facts(b, e, 10);
        assert(e < h);
        lemma_prefix_byte(b, h, e);
        assert(bin_exp_digits(t, k) == e);
        assert(has_bin_exp(t, k));
        lemma_run_agree(b, t, e, h, 10);
        assert(bin_exp_end(t, k) == h);
        lemma_value_agree(b, t, e, h, h, 10);
    } else {
        assert(h == k);
        assert(!has_bin_exp(t, k));
    }
}

/// A prefix that holds the sign and more reads the same sign.
proof fn lemma_prefix_sign(s: Seq<u8>, e: int)
    requires
        after_sign(s) < e <= s.len(),
    ensures
        sign_index(s.subrange(0, e)) == sign_index(s),
        after_sign(s.subrange(0, e)) == after_sign(s),
        int_negative(s.subrange(0, e)) == int_negative(s),
{
    let t = s.subrange(0, e);
    let w = sign_index(s);
    lemma_skip_ge(s, 0);
    lemma_prefix_same(s, e);
    lemma_skip_agree(s, t, 0, e);
    lemma_prefix_byte(s, e, w);
}

/// The prefix that an infinity or a NaN spans scans as the whole string.
proof fn lemma_prefix_words(s: Seq<u8>, f: FloatFormat)
    requires
        !starts_number(s, after_sign(s)),
        word_inf(s, after_sign(s)) || word_nan(s, after_sign(s)),
        s.len() <= usize::MAX,
    ensures
        ({
            let e = scan_end(float_scan(s, f)) as int;
            &&& after_sign(s) < e <= s.len()
            &&& float_scan(s.subrange(0, e), f) == float_scan(s, f)
        }),
{
    let l = s.len() as int;
    let p = after_sign(s);
    crate::strto::lemma_after_sign_bounds(s);
    let after = s.subrange(p + 3, l);
    if !word_inf(s, p) && nan_has_parens(after) {
        lemma_nchar_bounds(after, 1);
    }
    let e = scan_end(float_scan(s, f)) as int;
    assert(p + 3 <= e <= l);
    let t = s.subrange(0, e);
    lemma_prefix_sign(s, e);
    lemma_prefix_byte(s, e, p);
    lemma_prefix_byte(s, e, p + 1);
    assert(!starts_number(t, p));
    assert forall|j: int| p <= j < e implies #[trigger] t[j] == s[j] by {}
    if word_inf(s, p) {
        assert(word_inf(t, p));
        assert(word_infinity(t, p) == word_infinity(s, p));
    } else {
        assert(!word_inf(t, p));
        assert(word_nan(t, p));
        let ta = t.subrange(p + 3, e);
        if nan_has_parens(after) {
            let n = nchar_run_end(after, 1);
            assert(ta =~= after.subrange(0, n + 1));
            lemma_prefix_nchar(after, n + 1, 1);
            assert(ta[n] == after[n]);
            assert(ta.subrange(1, n) =~= after.subrange(1, n));
            assert(nan_has_parens(ta));
        } else {
            assert(ta.len() == 0);
            assert(!nan_has_parens(ta));
        }
        assert(nan_bits(ta, f) == nan_bits(after, f));
    }
}

/// The prefix that a hexadecimal number spans scans as the whole string;
/// with no hexadecimal digit, the prefix is the `0`, a decimal zero.
proof fn lemma_prefix_hex_case(s: Seq<u8>, f: FloatFormat)
    requires
        starts_number(s, after_sign(s)),
        hex_prefix(s, after_sign(s)),
        s.len() <= usize::MAX,
    ensures
        ({
            let p = after_sign(s);
            let e = scan_end(float_scan(s, f)) as int;
            let t = s.subrange(0, e);
            &&& p < e <= s.len()
            &&& if hex_converts(s.subrange(p + 2, s.len() as int)) {
                float_scan(t, f) == float_scan(s, f)
            } else {
                float_scan(t, f) == FloatScan::Decimal {
                    negative: int_negative(s),
                    start: p as usize,
                    mantissa_end: (p + 1) as usize,
                    end: (p + 1) as usize,
                }
            }
        }),
{
    let l = s.len() as int;
    let p = after_sign(s);
    crate::strto::lemma_after_sign_bounds(s);
    let body = s.subrange(p + 2, l);
    if hex_converts(body) {
        crate::hexfloat::lemma_hex_end_bounds(body);
    }
    let e = scan_end(float_scan(s, f)) as int;
    assert(p < e <= l);
    let t = s.subrange(0, e);
    lemma_prefix_sign(s, e);
    lemma_prefix_byte(s, e, p);
    lemma_prefix_byte(s, e, p + 1);
    if hex_converts(body) {
        assert(starts_number(t, p));
        assert(hex_prefix(t, p));
        let tb = t.subrange(p + 2, e);
        assert(tb =~= body.subrange(0, hex_end(body)));
        lemma_prefix_hex(body);
    } else {
        assert(e == p + 1);
        assert(starts_number(t, p));
        assert(!hex_prefix(t, p));
        assert(t[p] == s[p]);
        assert(digit_run_end(t, p + 1, 10) == p + 1);
        assert(digit_run_end(t, p, 10) == p + 1);
        assert(dec_mantissa_end(t, p) == p + 1);
        assert(dec_end(t, p) == p + 1);
    }
}

/// The prefix that a decimal number spans scans as the whole string, with
/// the same token.
proof fn lemma_prefix_decimal_case(s: Seq<u8>, f: FloatFormat)
    requires
        starts_number(s, after_sign(s)),
        !hex_prefix(s, after_sign(s)),
        s.len() <= usize::MAX,
    ensures
        ({
            let e = scan_end(float_scan(s, f)) as int;
            let t = s.subrange(0, e);
            &&& after_sign(s) < e <= s.len()
            &&& float_scan(t, f) == float_scan(s, f)
            &&& decimal_token_of(t) == decimal_token_of(s)
        }),
{
    let p = after_sign(s);
    crate::strto::lemma_after_sign_bounds(s);
    lemma_dec_end_within(s, p);
    let n = digit_run_end(s, p, 10);
    let m = dec_mantissa_end(s, p);
    crate::integer::lemma_digit_run_end_ge(s, p, 10);
    lemma_digit_run_facts(s, p, 10);
    if byte_at(s, n) == 0x2E {
        crate::integer::lemma_digit_run_end_ge(s, n + 1, 10);
        lemma_digit_run_facts(s, n + 1, 10);
    }
    assert(p < m);
    let e = dec_end(s, p);
    assert(scan_end(float_scan(s, f)) as int == e);
    let t = s.subrange(0, e);
    lemma_prefix_sign(s, e);
    lemma_prefix_same(s, e);
    lemma_prefix_byte(s, e, p);
    lemma_prefix_byte(s, e, p + 1);
    assert(starts_number(t, p)) by {
        if byte_at(s, p) == 0x2E {
            assert(p + 1 < m);
        }
    }
    assert(!hex_prefix(t, p)) by {
        if byte_at(t, p + 1) == 0x78 || byte_at(t, p + 1) == 0x58 {
            assert(p + 1 < e);
        }
    }
    assert(n <= m <= e);
    lemma_run_agree(s, t, p, e, 10);
    lemma_prefix_byte(s, e, n);
    if byte_at(s, n) == 0x2E {
        assert(n < e);
        lemma_run_agree(s, t, n + 1, e, 10);
    } else {
        assert(byte_at(t, n) != 0x2E);
    }
    assert(dec_mantissa_end(t, p) == m);
    lemma_prefix_byte(s, e, m);
    lemma_prefix_byte(s, e, m + 1);
    let ed = dec_exp_digits(s, m);
    lemma_prefix_byte(s, e, ed);
    if (byte_at(s, m) == 0x65 || byte_at(s, m) == 0x45) && is_dec_digit(byte_at(s, ed)) {
        lemma_digit_run_facts(s, ed, 10);
        crate::integer::lemma_digit_run_end_ge(s, ed, 10);
        assert(ed < e);
        assert(dec_exp_digits(t, m) == ed);
        lemma_run_agree(s, t, ed, e, 10);
    } else {
        assert(e == m);
    }
    assert(dec_end(t, p) == e);
    assert(decimal_token_of(t) =~= decimal_token_of(s));
}

/// A floating-point conversion depends only on the prefix it reads: scanning
/// just the first `end` bytes, where `end` is the reported end offset, gives
/// the same scan, and for a decimal number the same token. The one
/// exception is a `0x` with no hexadecimal digit after it, of which only the
/// `0` is read: that prefix scans as the decimal number `0`, with the same
/// sign and so the same value.
pub proof fn law_float_reads_only_its_prefix(s: Seq<u8>, f: FloatFormat)
    requires
        s.len() <= usize::MAX,
    ensures
        ({
            let p = after_sign(s);
            let e = scan_end(float_scan(s, f)) as int;
            let pre = s.subrange(0, e);
            &&& 0 <= e <= s.len()
            &&& if starts_number(s, p) && hex_prefix(s, p) && !hex_converts(s.subrange(p + 2, s.len() as int)) {
                float_scan(pre, f) == FloatScan::Decimal {
                    negative: int_negative(s),
                    start: p as usize,
                    mantissa_end: (p + 1) as usize,
                    end: (p + 1) as usize,
                }
            } else {
                &&& float_scan(pre, f) == float_scan(s, f)
                &&& float_scan(s, f) is Decimal ==> decimal_token_of(pre) == decimal_token_of(s)
            }
        }),
{
    let p = after_sign(s);
    if !starts_number(s, p) {
        if word_inf(s, p) || word_nan(s, p) {
            lemma_prefix_words(s, f);
        } else {
            // nothing converts, and the empty prefix converts nothing either
            let t = s.subrange(0, 0);
            assert(t.len() == 0);
            assert(after_sign(t) == 0);
            assert(float_scan(t, f) == float_scan(s, f));
        }
    } else if hex_prefix(s, p) {
        lemma_prefix_hex_case(s, f);
    } else {
        lemma_prefix_decimal_case(s, f);
    }
}

// ---------------------------------------------------------------------------
// The longest prefix
// ---------------------------------------------------------------------------

/// A run of n-chars in `s[..k]` that stops before the cut stops at the same
/// place in `s`.
proof fn lemma_cut_nchar(s: Seq<u8>, k: int, i: int)
    requires
        0 <= i <= k <= s.len(),
    ensures
        i <= nchar_run_end(s.subrange(0, k), i) <= k,
        nchar_run_end(s.subrange(0, k), i) < k ==> nchar_run_end(s, i) == nchar_run_end(
            s.subrange(0, k),
            i,
        ),
    decreases k - i,
{
    let q = s.subrange(0, k);
    if i < k {
        assert(q[i] == s[i]);
        if is_nchar(s[i]) {
            lemma_cut_nchar(s, k, i + 1);
        }
    }
}

/// A hexadecimal significand in `s[..k]` ends where it does in `s`, unless
/// it reaches the cut, beyond which the significand in `s` may go on.
proof fn lemma_cut_significand(s: Seq<u8>, k: int, i: int, point: bool)
    requires
        0 <= i <= k <= s.len(),
    ensures
        i <= hex_significand_end(s.subrange(0, k), i, point) <= k,
        hex_significand_end(s, i, point) >= hex_significand_end(s.subrange(0, k), i, point),
        hex_significand_end(s.subrange(0, k), i, point) < k ==> hex_significand_end(s, i, point)
            == hex_significand_end(s.subrange(0, k), i, point),
    decreases k - i,
{
    let q = s.subrange(0, k);
    if i < k {
        assert(q[i] == s[i]);
        if is_digit_in(s[i], 16) {
            lemma_cut_significand(s, k, i + 1, point);
        } else if s[i] == 0x2E && !point {
            lemma_cut_significand(s, k, i + 1, true);
        }
    } else {
        crate::hexfloat::lemma_significand_end_bounds(s, k, point);
    }
}

/// A digit among the first `a` bytes is one among the first `b >= a`.
proof fn lemma_any_digit_grows(s: Seq<u8>, a: int, b: int)
    requires
        a <= b,
        hex_any_digit(s, a),
    ensures
        hex_any_digit(s, b),
    decreases b - a,
{
    if a < b {
        lemma_any_digit_grows(s, a, b - 1);
    }
}

/// A hexadecimal body ends at or after its significand.
proof fn lemma_hex_end_ge(b: Seq<u8>)
    ensures
        hex_end(b) >= hex_mantissa_end(b),
{
    let k = hex_mantissa_end(b);
    if has_bin_exp(b, k) {
        crate::integer::lemma_digit_run_end_ge(b, bin_exp_digits(b, k), 10);
    }
}

/// When a hexadecimal body's first `kk` bytes convert and are read whole,
/// the whole body converts and is read at least that far.
proof fn lemma_cut_hex(b: Seq<u8>, kk: int)
    requires
        0 < kk <= b.len(),
        hex_converts(b.subrange(0, kk)),
        hex_end(b.subrange(0, kk)) == kk,
    ensures
        hex_converts(b),
        hex_end(b) >= kk,
{
    let bq = b.subrange(0, kk);
    lemma_cut_significand(b, kk, 0, false);
    let kq = hex_mantissa_end(bq);
    let ks = hex_mantissa_end(b);
    lemma_prefix_significand_parts(b, kk, kq);
    lemma_any_digit_grows(b, kq, ks);
    lemma_hex_end_ge(b);
    if kq < kk {
        assert(ks == kq);
        assert(has_bin_exp(bq, kq));
        let e = bin_exp_digits(bq, kq);
        lemma_prefix_byte(b, kk, kq);
        lemma_prefix_byte(b, kk, kq + 1);
        lemma_prefix_byte(b, kk, e);
        assert(bin_exp_digits(b, kq) == e);
        assert(has_bin_exp(b, kq));
        lemma_cut_run(b, kk, e, 10);
    }
}

/// When the decimal reading of `s[..k]` from `p` runs to the cut, that of `s`
/// runs at least that far.
proof fn lemma_cut_decimal(s: Seq<u8>, k: int, p: int)
    requires
        0 <= p < k <= s.len(),
        dec_end(s.subrange(0, k), p) == k,
    ensures
        dec_end(s, p) >= k,
{
    let q = s.subrange(0, k);
    lemma_dec_end_within(s, p);
    lemma_cut_run(s, k, p, 10);
    let nq = digit_run_end(q, p, 10);
    let ns = digit_run_end(s, p, 10);
    lemma_digit_run_facts(s, p, 10);
    if byte_at(s, ns) == 0x2E {
        crate::integer::lemma_digit_run_end_ge(s, ns + 1, 10);
    }
    assert(dec_mantissa_end(s, p) >= ns);
    if nq < k {
        assert(ns == nq);
        lemma_prefix_byte(s, k, nq);
        let mq = dec_mantissa_end(q, p);
        if byte_at(q, nq) == 0x2E {
            lemma_cut_run(s, k, nq + 1, 10);
        }
        if mq < k {
            assert(dec_mantissa_end(s, p) == mq);
            let e = dec_exp_digits(q, mq);
            lemma_prefix_byte(s, k, mq);
            lemma_prefix_byte(s, k, mq + 1);
            lemma_prefix_byte(s, k, e);
            assert(byte_at(q, mq) == 0x65 || byte_at(q, mq) == 0x45);
            assert(dec_exp_digits(s, mq) == e);
            lemma_cut_run(s, k, e, 10);
        }
    }
}

/// If the scan of `s[..k]` reads all of it, the scan of `s` reads at least
/// that far.
proof fn lemma_whole_prefix_read(s: Seq<u8>, f: FloatFormat, k: int)
    requires
        0 < k <= s.len(),
        s.len() <= usize::MAX,
        scan_end(float_scan(s.subrange(0, k), f)) == k,
    ensures
        scan_end(float_scan(s, f)) >= k,
{
    let q = s.subrange(0, k);
    let l = s.len() as int;
    crate::strto::lemma_after_sign_bounds(q);
    crate::strto::lemma_after_sign_bounds(s);
    let p = after_sign(q);
    let w = sign_index(q);
    let after = q.subrange(p + 3, k);
    if !starts_number(q, p) && !word_inf(q, p) && word_nan(q, p) && nan_has_parens(after) {
        lemma_nchar_bounds(after, 1);
    }
    let body = q.subrange(p + 2, k);
    if starts_number(q, p) && hex_prefix(q, p) && hex_converts(body) {
        crate::hexfloat::lemma_hex_end_bounds(body);
    }
    if starts_number(q, p) && !hex_prefix(q, p) {
        lemma_dec_end_within(q, p);
    }
    // the scan of `q` converts, so its number starts below the cut
    assert(p < k);
    lemma_skip_ge(q, 0);
    lemma_prefix_same(s, k);
    assert(same_below(q, s, k)) by {
        assert forall|i: int| 0 <= i < k implies #[trigger] q[i] == s[i] by {}
    }
    lemma_skip_agree(q, s, 0, k);
    lemma_prefix_byte(s, k, w);
    assert(after_sign(s) == p);
    lemma_prefix_byte(s, k, p);
    lemma_prefix_byte(s, k, p + 1);
    let sa = s.subrange(p + 3, l);
    let sb = s.subrange(p + 2, l);
    if !starts_number(q, p) {
        assert(p + 3 <= k);
        assert forall|j: int| p <= j < k implies #[trigger] q[j] == s[j] by {}
        assert(!starts_number(s, p));
        assert(word_inf(s, p) == word_inf(q, p));
        assert(word_nan(s, p) == word_nan(q, p));
        if word_inf(q, p) {
            if word_infinity(q, p) {
                assert(word_infinity(s, p));
            }
        } else if nan_has_parens(after) {
            let kk = k - p - 3;
            assert(after =~= sa.subrange(0, kk));
            lemma_cut_nchar(sa, kk, 1);
            let n = nchar_run_end(after, 1);
            assert(sa[n] == after[n]);
            assert(nan_has_parens(sa));
        } else if nan_has_parens(sa) {
            lemma_nchar_bounds(sa, 1);
        }
    } else if hex_prefix(q, p) {
        assert(p + 1 < k);
        assert(starts_number(s, p) && hex_prefix(s, p));
        assert(hex_converts(body));
        let kk = k - p - 2;
        assert(body =~= sb.subrange(0, kk));
        lemma_cut_hex(sb, kk);
        crate::hexfloat::lemma_hex_end_bounds(sb);
    } else {
        assert(starts_number(s, p)) by {
            if byte_at(q, p) == 0x2E {
                assert(p + 1 < k);
            }
        }
        if hex_prefix(s, p) {
            // the `x` lies at the cut
            assert(k == p + 1);
            if hex_converts(sb) {
                crate::hexfloat::lemma_hex_end_bounds(sb);
            }
        } else {
            lemma_cut_decimal(s, k, p);
            lemma_dec_end_within(s, p);
        }
    }
}

/// The end offset is that of the longest prefix that a conversion reads
/// whole: no longer prefix of the string is read whole. (The reported prefix
/// itself is read whole: see `law_float_reads_only_its_prefix`.)
pub proof fn law_float_end_is_longest(s: Seq<u8>, f: FloatFormat, k: int)
    requires
        s.len() <= usize::MAX,
        scan_end(float_scan(s, f)) < k <= s.len(),
    ensures
        scan_end(float_scan(s.subrange(0, k), f)) != k,
{
    if scan_end(float_scan(s.subrange(0, k), f)) == k {
        lemma_whole_prefix_read(s, f, k);
    }
}

} // verus!
