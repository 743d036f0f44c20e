//! Properties of the conversions that span several calls or all inputs.

use vstd::prelude::*;
use vstd::arithmetic::power2::{pow2, lemma_pow2_unfold, lemma_pow2_pos};
use crate::float_format::{FloatFormat, fraction_bits, precision, min_normal_exp, max_exp, subnormal_exp};
use crate::rounding::{
    correctly_rounded, rounding_inexact, bit_length, lemma_bit_length_bounds, lemma_bit_length_unique,
    scale_down, scale_rem,
};
use crate::chars::{byte_at, is_c_space, is_digit_in, skip_space};
use crate::integer::{
    digit_run_end, digits_value, sign_index, after_sign, int_negative, int_hex_prefix, int_radix,
    int_digits_start, int_digits_end, int_converts, int_magnitude, int_end, int_written,
    signed_result, unsigned_result, signed_overflow, unsigned_overflow, valid_base,
};

verus! {

/// Whether `a` and `b` hold the same bytes below `l`.
pub open spec fn same_below(a: Seq<u8>, b: Seq<u8>, l: int) -> bool {
    &&& 0 <= l <= a.len()
    &&& l <= b.len()
    &&& forall|i: int| 0 <= i < l ==> #[trigger] a[i] == b[i]
}

/// Skipping whitespace that stops below `l` stops at the same place in a
/// string with the same bytes below `l`.
pub(crate) proof fn lemma_skip_agree(a: Seq<u8>, b: Seq<u8>, i: int, l: int)
    requires
        same_below(a, b, l),
        0 <= i <= skip_space(a, i) < l,
    ensures
        skip_space(b, i) == skip_space(a, i),
    decreases a.len() - i,
{
    assert(a[i] == b[i]);
    if is_c_space(a[i]) {
        lemma_skip_ge(a, i + 1);
        lemma_skip_agree(a, b, i + 1, l);
    }
}

/// Skipping whitespace never moves back.
pub(crate) proof fn lemma_skip_ge(s: Seq<u8>, i: int)
    ensures
        skip_space(s, i) >= i,
    decreases s.len() - i,
{
    if 0 <= i < s.len() && is_c_space(s[i]) {
        lemma_skip_ge(s, i + 1);
    }
}

/// A run of digits that ends at or below `l` ends at the same place in a
/// string with the same bytes below `l`, if there no digit continues it.
pub(crate) proof fn lemma_run_agree(a: Seq<u8>, b: Seq<u8>, i: int, l: int, r: nat)
    requires
        same_below(a, b, l),
        0 <= i <= digit_run_end(a, i, r) <= l,
        digit_run_end(a, i, r) == l ==> !is_digit_in(byte_at(b, l), r),
    ensures
        digit_run_end(b, i, r) == digit_run_end(a, i, r),
    decreases a.len() - i,
{
    if i < l {
        assert(a[i] == b[i]);
        if is_digit_in(a[i], r) {
            crate::integer::lemma_digit_run_end_ge(a, i + 1, r);
            lemma_run_agree(a, b, i + 1, l, r);
        }
    }
}

/// Digits below `l` have the same value in a string with the same bytes
/// below `l`.
pub(crate) proof fn lemma_value_agree(a: Seq<u8>, b: Seq<u8>, from: int, to: int, l: int, r: nat)
    requires
        same_below(a, b, l),
        0 <= from,
        to <= l,
    ensures
        digits_value(b, from, to, r) == digits_value(a, from, to, r),
    decreases to - from,
{
    if to > from {
        assert(a[to - 1] == b[to - 1]);
        lemma_value_agree(a, b, from, to - 1, l, r);
    }
}

/// A conversion of `a` whose digits start below `l` is one of `b` too, when
/// `b` agrees with `a` below `l` and holds a NUL, or ends, at `l`.
proof fn lemma_integer_agree_one(a: Seq<u8>, b: Seq<u8>, base: int, l: int)
    requires
        same_below(a, b, l) || same_below(b, a, l),
        int_converts(a, base),
        int_digits_end(a, base) <= l,
        int_digits_start(a, base) < l,
        byte_at(b, l) == 0,
    ensures
        int_converts(b, base),
        int_digits_start(b, base) == int_digits_start(a, base),
        int_digits_end(b, base) == int_digits_end(a, base),
        int_radix(b, base) == int_radix(a, base),
        int_negative(b) == int_negative(a),
        int_magnitude(b, base) == int_magnitude(a, base),
{
    assert(same_below(a, b, l)) by {
        if same_below(b, a, l) {
            assert forall|i: int| 0 <= i < l implies #[trigger] a[i] == b[i] by {
                assert(b[i] == a[i]);
            }
        }
    }
    let p = after_sign(a);
    let w = sign_index(a);
    let st = int_digits_start(a, base);
    lemma_skip_ge(a, 0);
    assert(w <= p <= st < l);
    lemma_skip_agree(a, b, 0, l);
    assert(sign_index(b) == w);
    assert(byte_at(a, w) == byte_at(b, w));
    assert(after_sign(b) == p);
    assert(int_negative(b) == int_negative(a));
    assert(byte_at(a, p) == byte_at(b, p));
    if int_hex_prefix(a, base) {
        assert(p + 2 == st);
        assert(byte_at(a, p + 1) == byte_at(b, p + 1));
        assert(byte_at(a, p + 2) == byte_at(b, p + 2));
        assert(int_hex_prefix(b, base));
    } else if int_hex_prefix(b, base) {
        // the bytes of the prefix are not NUL, so they lie below `l`
        assert(p + 1 != l && p + 2 != l);
        assert(byte_at(a, p + 1) == byte_at(b, p + 1));
        assert(byte_at(a, p + 2) == byte_at(b, p + 2));
        assert(false);
    }
    assert(int_radix(b, base) == int_radix(a, base));
    assert(int_digits_start(b, base) == st);
    lemma_run_agree(a, b, st, l, int_radix(a, base));
    lemma_value_agree(a, b, st, int_digits_end(a, base), l, int_radix(a, base));
}

/// The outcome of two conversions whose parts agree.
proof fn lemma_integer_same_parts(a: Seq<u8>, b: Seq<u8>, base: int)
    requires
        int_converts(b, base) == int_converts(a, base),
        int_converts(a, base) ==> int_digits_end(b, base) == int_digits_end(a, base),
        int_converts(a, base) ==> int_negative(b) == int_negative(a),
        int_converts(a, base) ==> int_magnitude(b, base) == int_magnitude(a, base),
    ensures
        int_end(b, base) == int_end(a, base),
        signed_result(b, base, 64) == signed_result(a, base, 64),
        unsigned_result(b, base, 64) == unsigned_result(a, base, 64),
        signed_overflow(b, base, 64) == signed_overflow(a, base, 64),
        unsigned_overflow(b, base, 64) == unsigned_overflow(a, base, 64),
{
}

/// The bytes after a NUL never change an integer conversion: a slice is read
/// as a C string, and reading stops at its NUL or at its end.
pub proof fn law_integer_stops_at_nul(s: Seq<u8>, t: Seq<u8>, base: int)
    ensures
        ({
            let u = s + seq![0u8] + t;
            &&& int_end(u, base) == int_end(s, base)
            &&& signed_result(u, base, 64) == signed_result(s, base, 64)
            &&& unsigned_result(u, base, 64) == unsigned_result(s, base, 64)
            &&& signed_overflow(u, base, 64) == signed_overflow(s, base, 64)
            &&& unsigned_overflow(u, base, 64) == unsigned_overflow(s, base, 64)
        }),
{
    let u = s + seq![0u8] + t;
    let l = s.len() as int;
    assert(same_below(s, u, l)) by {
        assert forall|i: int| 0 <= i < l implies #[trigger] s[i] == u[i] by {}
    }
    assert(byte_at(u, l) == 0);
    assert(u[l] == 0);
    lemma_ends_within(s, base);
    if int_converts(s, base) {
        lemma_starts_before_end(s, base);
        lemma_integer_agree_one(s, u, base, l);
    } else if int_converts(u, base) {
        lemma_ends_before_nul(u, base, l);
        lemma_integer_agree_one(u, s, base, l);
    }
    lemma_integer_same_parts(s, u, base);
}

/// The syntax of a converting integer lies within the string.
proof fn lemma_ends_within(s: Seq<u8>, base: int)
    ensures
        int_converts(s, base) ==> int_digits_start(s, base) < int_digits_end(s, base) <= s.len(),
{
    if int_converts(s, base) {
        let st = int_digits_start(s, base);
        let r = int_radix(s, base);
        crate::integer::lemma_digit_run_end_ge(s, st, r);
        lemma_run_end_within(s, st, r);
    }
}

/// A nonempty run of digits ends within the string.
proof fn lemma_run_end_within(s: Seq<u8>, i: int, r: nat)
    requires
        digit_run_end(s, i, r) > i,
    ensures
        digit_run_end(s, i, r) <= s.len(),
    decreases s.len() - i,
{
    if digit_run_end(s, i + 1, r) > i + 1 {
        lemma_run_end_within(s, i + 1, r);
    }
}

/// The digits of a converting integer start within the string.
proof fn lemma_starts_before_end(s: Seq<u8>, base: int)
    requires
        int_converts(s, base),
    ensures
        int_digits_start(s, base) < s.len(),
{
    let st = int_digits_start(s, base);
    let r = int_radix(s, base);
    crate::integer::lemma_digit_run_end_ge(s, st, r);
}

/// Skipping whitespace stops at a NUL.
proof fn lemma_skip_stops_at_nul(u: Seq<u8>, i: int, l: int)
    requires
        0 <= i <= l < u.len(),
        u[l] == 0,
    ensures
        skip_space(u, i) <= l,
    decreases l - i,
{
    if i < l && is_c_space(u[i]) {
        lemma_skip_stops_at_nul(u, i + 1, l);
    }
}

/// A conversion of a string with a NUL at `l` reads its digits below `l`.
proof fn lemma_ends_before_nul(u: Seq<u8>, base: int, l: int)
    requires
        0 <= l < u.len(),
        u[l] == 0,
        int_converts(u, base),
    ensures
        int_digits_start(u, base) < int_digits_end(u, base) <= l,
{
    let st = int_digits_start(u, base);
    let r = int_radix(u, base);
    let p = after_sign(u);
    lemma_skip_stops_at_nul(u, 0, l);
    crate::integer::lemma_digit_run_end_ge(u, st, r);
    assert(byte_at(u, st) != 0);
    if int_hex_prefix(u, base) {
        assert(byte_at(u, p) != 0 && byte_at(u, p + 1) != 0);
    }
    assert(st < l);
    lemma_run_stops_at_nul(u, st, r, l);
}

/// A run of digits that starts at or before a NUL ends at or before it.
proof fn lemma_run_stops_at_nul(u: Seq<u8>, i: int, r: nat, l: int)
    requires
        0 <= i <= l < u.len(),
        u[l] == 0,
        digit_run_end(u, i, r) > i,
    ensures
        i < l,
        digit_run_end(u, i, r) <= l,
    decreases u.len() - i,
{
    if i == l {
        assert(!is_digit_in(u[l], r));
    }
    if i + 1 < l && digit_run_end(u, i + 1, r) > i + 1 {
        lemma_run_stops_at_nul(u, i + 1, r, l);
    }
}


/// A conversion depends only on the prefix it reads: converting just the
/// first `end` bytes, where `end` is the reported end offset, gives the same
/// result, end offset and error. (With nothing converted, `end` is 0 and the
/// empty prefix converts to nothing as well.)
pub proof fn law_integer_reads_only_its_prefix(s: Seq<u8>, base: int)
    ensures
        ({
            let e = int_end(s, base);
            let pre = s.subrange(0, e);
            &&& 0 <= e <= s.len()
            &&& int_end(pre, base) == e
            &&& signed_result(pre, base, 64) == signed_result(s, base, 64)
            &&& unsigned_result(pre, base, 64) == unsigned_result(s, base, 64)
            &&& signed_overflow(pre, base, 64) == signed_overflow(s, base, 64)
            &&& unsigned_overflow(pre, base, 64) == unsigned_overflow(s, base, 64)
        }),
{
    let e = int_end(s, base);
    lemma_ends_within(s, base);
    let pre = s.subrange(0, e);
    if int_converts(s, base) {
        assert(same_below(s, pre, e)) by {
            assert forall|i: int| 0 <= i < e implies #[trigger] s[i] == pre[i] by {}
        }
        lemma_integer_agree_one(s, pre, base, e);
    } else {
        assert(pre.len() == 0);
        let st = int_digits_start(pre, base);
        crate::integer::lemma_digit_run_end_ge(pre, st, int_radix(pre, base));
    }
    lemma_integer_same_parts(s, pre, base);
}

/// Skipping a first byte shifts a run of digits by one.
pub(crate) proof fn lemma_run_shift_one(c: u8, d: Seq<u8>, i: int, r: nat)
    requires
        0 <= i,
    ensures
        digit_run_end(seq![c] + d, i + 1, r) == digit_run_end(d, i, r) + 1,
    decreases d.len() - i,
{
    let s = seq![c] + d;
    if i < d.len() {
        assert(s[i + 1] == d[i]);
        if is_digit_in(d[i], r) {
            lemma_run_shift_one(c, d, i + 1, r);
        }
    }
}

/// Skipping a first byte shifts the value of digits by one place.
pub(crate) proof fn lemma_value_shift_one(c: u8, d: Seq<u8>, from: int, to: int, r: nat)
    requires
        0 <= from,
        to <= d.len(),
    ensures
        digits_value(seq![c] + d, from + 1, to + 1, r) == digits_value(d, from, to, r),
    decreases to - from,
{
    if to > from {
        assert((seq![c] + d)[to] == d[to - 1]);
        lemma_value_shift_one(c, d, from, to - 1, r);
    }
}

/// A minus sign negates: with `-` written before digits, the conversion
/// reads the same digits one byte further on, and gives the negated number
/// (modulo 2^64 for the unsigned conversions, so that `-1` gives the
/// largest value), wherever the number without the sign is in range.
pub proof fn law_integer_minus_sign_negates(d: Seq<u8>, base: int)
    requires
        !is_c_space(byte_at(d, 0)),
        byte_at(d, 0) != 0x2B && byte_at(d, 0) != 0x2D,
    ensures
        ({
            let s = seq![0x2Du8] + d;
            &&& int_converts(s, base) == int_converts(d, base)
            &&& int_converts(d, base) ==> int_end(s, base) == int_end(d, base) + 1
            &&& !unsigned_overflow(d, base, 64) ==> unsigned_result(s, base, 64) == (-unsigned_result(d, base, 64)) % (pow2(64) as int)
            &&& !signed_overflow(d, base, 64) ==> signed_result(s, base, 64) == -signed_result(d, base, 64)
        }),
{
    let s = seq![0x2Du8] + d;
    vstd::arithmetic::power2::lemma2_to64();
    vstd::arithmetic::power2::lemma2_to64_rest();
    lemma_ends_within(d, base);
    assert(sign_index(s) == 0);
    assert(after_sign(s) == 1);
    assert(int_negative(s));
    assert(sign_index(d) == 0);
    assert(after_sign(d) == 0);
    assert(!int_negative(d));
    assert(byte_at(s, 1) == byte_at(d, 0));
    assert(byte_at(s, 2) == byte_at(d, 1));
    assert(byte_at(s, 3) == byte_at(d, 2));
    assert(int_hex_prefix(s, base) == int_hex_prefix(d, base));
    assert(int_radix(s, base) == int_radix(d, base));
    let st = int_digits_start(d, base);
    let r = int_radix(d, base);
    assert(int_digits_start(s, base) == st + 1);
    lemma_run_shift_one(0x2Du8, d, st, r);
    assert(int_digits_end(s, base) == int_digits_end(d, base) + 1);
    if int_converts(d, base) {
        lemma_value_shift_one(0x2Du8, d, st, int_digits_end(d, base), r);
        assert(int_magnitude(s, base) == int_magnitude(d, base));
        let m = int_magnitude(d, base);
        if m < pow2(64) {
            vstd::arithmetic::div_mod::lemma_small_mod(m, pow2(64));
        }
    }
}


/// A number that the format holds exactly converts to itself, with no
/// error: `r · 2^x` with a significand `r` of at most `precision` bits, either
/// normal (`r` has all its bits and the exponent is in range) or a multiple
/// of the smallest subnormal.
pub proof fn law_representable_converts_exactly(r: nat, x: int, f: FloatFormat)
    requires
        0 < r < pow2(precision(f)),
        (pow2(fraction_bits(f)) <= r && min_normal_exp(f) <= x + fraction_bits(f) <= max_exp(f))
            || x == subnormal_exp(f),
    ensures
        correctly_rounded(r, x, f) == if r >= pow2(fraction_bits(f)) {
            (x + fraction_bits(f) - min_normal_exp(f)) as nat * pow2(fraction_bits(f)) + r
        } else {
            r
        },
        !rounding_inexact(r, x, f),
{
    let fb = fraction_bits(f);
    lemma_pow2_unfold(fb + 1);
    lemma_bit_length_bounds(r);
    if r >= pow2(fb) {
        lemma_bit_length_unique(r, fb + 1);
    } else {
        let l = bit_length(r);
        if l > fb {
            if l - 1 > fb {
                vstd::arithmetic::power2::lemma_pow2_strictly_increases(fb, (l - 1) as nat);
            }
        }
        assert(l <= fb);
    }
    assert(pow2(0) == 1) by {
        vstd::arithmetic::power2::lemma2_to64();
    }
    assert(scale_down(r, 0) == r) by {
        assert(r * pow2(0) == r) by (nonlinear_arith)
            requires pow2(0) == 1;
    }
    assert(scale_rem(r, 0) == 0);
}

/// Halfway cases round to the even neighbour: `(2r + 1) · 2^(x-1)`, halfway
/// between the normal values with significands `r` and `r + 1`, converts to
/// the one whose significand is even (a carry may raise the exponent), and
/// is inexact.
pub proof fn law_ties_to_even(r: nat, x: int, f: FloatFormat)
    requires
        pow2(fraction_bits(f)) <= r < pow2(precision(f)),
        min_normal_exp(f) <= x + fraction_bits(f) <= max_exp(f),
    ensures
        correctly_rounded(2 * r + 1, x - 1, f) == (x + fraction_bits(f) - min_normal_exp(f)) as nat
            * pow2(fraction_bits(f)) + if r % 2 == 0 {
            r
        } else {
            r + 1
        },
        rounding_inexact(2 * r + 1, x - 1, f),
{
    let fb = fraction_bits(f);
    lemma_pow2_unfold(fb + 1);
    lemma_pow2_unfold(fb + 2);
    lemma_bit_length_unique(2 * r + 1, fb + 2);
    assert(pow2(1) == 2 && pow2(0) == 1) by {
        vstd::arithmetic::power2::lemma2_to64();
    }
    assert((2 * r + 1) / 2 == r && (2 * r + 1) % 2 == 1);
    assert(scale_down(2 * r + 1, 1) == r);
    assert(scale_rem(2 * r + 1, 1) == 1);
}

/// Within its first `l` bytes a prefix reads as the string; past them, as
/// NUL.
pub(crate) proof fn lemma_prefix_byte(s: Seq<u8>, l: int, i: int)
    requires
        0 <= l <= s.len(),
        0 <= i,
    ensures
        i < l ==> byte_at(s.subrange(0, l), i) == byte_at(s, i),
        i >= l ==> byte_at(s.subrange(0, l), i) == 0,
{
}

/// A prefix holds the bytes of the string below its length.
pub(crate) proof fn lemma_prefix_same(s: Seq<u8>, l: int)
    requires
        0 <= l <= s.len(),
    ensures
        same_below(s, s.subrange(0, l), l),
{
    let t = s.subrange(0, l);
    assert forall|i: int| 0 <= i < l implies #[trigger] s[i] == t[i] by {}
}

/// A run of digits in `s[..k]` ends where it does in `s`, unless it reaches
/// the cut, beyond which the run in `s` may go on.
pub(crate) proof fn lemma_cut_run(s: Seq<u8>, k: int, i: int, r: nat)
    requires
        0 <= i <= k <= s.len(),
    ensures
        i <= digit_run_end(s.subrange(0, k), i, r) <= k,
        digit_run_end(s, i, r) >= digit_run_end(s.subrange(0, k), i, r),
        digit_run_end(s.subrange(0, k), i, r) < k ==> digit_run_end(s, i, r) == digit_run_end(
            s.subrange(0, k),
            i,
            r,
        ),
    decreases k - i,
{
    let q = s.subrange(0, k);
    if i < k {
        assert(q[i] == s[i]);
        if is_digit_in(s[i], r) {
            lemma_cut_run(s, k, i + 1, r);
        }
    } else {
        crate::integer::lemma_digit_run_end_ge(s, k, r);
    }
}

/// The end offset is that of the longest prefix that a conversion reads
/// whole: no longer prefix of the string is read whole. (The reported prefix
/// itself is read whole: see `law_integer_reads_only_its_prefix`.)
pub proof fn law_integer_end_is_longest(s: Seq<u8>, base: int, k: int)
    requires
        int_end(s, base) < k <= s.len(),
    ensures
        int_end(s.subrange(0, k), base) != k,
{
    let q = s.subrange(0, k);
    if int_end(q, base) == k {
        lemma_ends_within(q, base);
        lemma_ends_within(s, base);
        let st = int_digits_start(q, base);
        let p = after_sign(q);
        let w = sign_index(q);
        lemma_skip_ge(q, 0);
        assert(w <= p <= st < k);
        lemma_prefix_same(s, k);
        assert(same_below(q, s, k)) by {
            assert forall|i: int| 0 <= i < k implies #[trigger] q[i] == s[i] by {}
        }
        lemma_skip_agree(q, s, 0, k);
        lemma_prefix_byte(s, k, w);
        assert(after_sign(s) == p);
        lemma_prefix_byte(s, k, p);
        lemma_prefix_byte(s, k, p + 1);
        lemma_prefix_byte(s, k, p + 2);
        if int_hex_prefix(q, base) {
            assert(int_hex_prefix(s, base));
            lemma_cut_run(s, k, st, 16);
        } else if int_hex_prefix(s, base) {
            // the prefix is cut short of its hexadecimal digit
            assert(k <= p + 2);
            crate::integer::lemma_digit_run_end_ge(s, p + 2, 16);
        } else {
            assert(int_radix(s, base) == int_radix(q, base));
            lemma_cut_run(s, k, p, int_radix(q, base));
        }
    }
}

} // verus!
