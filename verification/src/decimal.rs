//! Whether a decimal token denotes exactly a given subnormal: the test that
//! tells an exact subnormal result from a range error.

use vstd::prelude::*;
use vstd::arithmetic::power2::pow2;
use crate::chars::{byte_at, is_dec_digit, is_digit_in, digit_of};
use crate::integer::{digit_run_end, digits_value};
use crate::hexfloat::{point_before, digits_after_point};
use crate::strto::{starts_number, dec_mantissa_end, dec_exp_digits, dec_end, FloatScan, float_scan, scan_float, with_sign};
use crate::integer::after_sign;
use crate::errors::{Errno, range_errno};
use crate::hexfloat::range_errno_if;
use crate::float_format::{infinity_bits, sign_bit};
use crate::float_format::{FloatFormat, fraction_bits, subnormal_exp};

verus! {

// ---------------------------------------------------------------------------
// Powers and decimal numbers
// ---------------------------------------------------------------------------

/// `b` to the power `e`.
pub open spec fn ipow(b: nat, e: nat) -> nat
    decreases e,
{
    if e == 0 {
        1
    } else {
        b * ipow(b, (e - 1) as nat)
    }
}

/// Whether `a · 10^e1 == b · 10^e2`.
pub open spec fn decimal_equal(a: nat, e1: int, b: nat, e2: int) -> bool {
    if e1 >= e2 {
        a * ipow(10, (e1 - e2) as nat) == b
    } else {
        a == b * ipow(10, (e2 - e1) as nat)
    }
}

/// A positive power is positive.
pub proof fn lemma_ipow_pos(b: nat, e: nat)
    requires
        b >= 1,
    ensures
        ipow(b, e) >= 1,
    decreases e,
{
    if e > 0 {
        lemma_ipow_pos(b, (e - 1) as nat);
        assert(b * ipow(b, (e - 1) as nat) >= 1) by (nonlinear_arith)
            requires b >= 1, ipow(b, (e - 1) as nat) >= 1;
    }
}

/// Powers add their exponents when multiplied.
pub proof fn lemma_ipow_adds(b: nat, e1: nat, e2: nat)
    ensures
        ipow(b, e1 + e2) == ipow(b, e1) * ipow(b, e2),
    decreases e1,
{
    if e1 == 0 {
        assert(ipow(b, 0) == 1);
        assert(e1 + e2 == e2);
    } else {
        lemma_ipow_adds(b, (e1 - 1) as nat, e2);
        assert((e1 - 1) as nat + e2 == (e1 + e2 - 1) as nat);
        assert(ipow(b, e1 + e2) == b * ipow(b, (e1 + e2 - 1) as nat));
        assert(b * (ipow(b, (e1 - 1) as nat) * ipow(b, e2)) == (b * ipow(b, (e1 - 1) as nat)) * ipow(b, e2))
            by (nonlinear_arith);
    }
}

/// A power of a base above 1 exceeds its exponent.
pub proof fn lemma_ipow_exceeds(b: nat, e: nat)
    requires
        b >= 2,
    ensures
        e < ipow(b, e),
    decreases e,
{
    if e > 0 {
        lemma_ipow_exceeds(b, (e - 1) as nat);
        assert(b * ipow(b, (e - 1) as nat) >= 2 * ipow(b, (e - 1) as nat)) by (nonlinear_arith)
            requires b >= 2;
    }
}

/// Powers of a base above 1 grow with the exponent.
pub proof fn lemma_ipow_grows(b: nat, e1: nat, e2: nat)
    requires
        b >= 2,
        e1 < e2,
    ensures
        ipow(b, e1) < ipow(b, e2),
        e1 < ipow(b, e2),
    decreases e2,
{
    lemma_ipow_pos(b, (e2 - 1) as nat);
    if e1 < e2 - 1 {
        lemma_ipow_grows(b, e1, (e2 - 1) as nat);
    }
    assert(ipow(b, e2) == b * ipow(b, (e2 - 1) as nat));
    assert(b * ipow(b, (e2 - 1) as nat) >= 2 * ipow(b, (e2 - 1) as nat)) by (nonlinear_arith)
        requires b >= 2;
    lemma_ipow_exceeds(b, e2);
}

/// A multiple of a positive power of ten ends in the digit 0.
proof fn lemma_ipow10_divisible(c: nat, k: nat)
    requires
        k >= 1,
    ensures
        (c * ipow(10, k)) % 10 == 0,
{
    assert(c * ipow(10, k) == 10 * (c * ipow(10, (k - 1) as nat))) by (nonlinear_arith)
        requires ipow(10, k) == 10 * ipow(10, (k - 1) as nat);
    vstd::arithmetic::div_mod::lemma_mod_multiples_basic((c * ipow(10, (k - 1) as nat)) as int, 10);
}

/// `a · 10^e1 == b · 10^e2` may be checked at any common scale below both.
proof fn lemma_decimal_equal_common(a: nat, e1: int, b: nat, e2: int, m: int)
    requires
        m <= e1,
        m <= e2,
    ensures
        decimal_equal(a, e1, b, e2) == (a * ipow(10, (e1 - m) as nat) == b * ipow(10, (e2 - m) as nat)),
{
    if e1 >= e2 {
        let d = (e1 - e2) as nat;
        let g = (e2 - m) as nat;
        lemma_ipow_adds(10, d, g);
        assert((e1 - m) as nat == d + g);
        lemma_ipow_pos(10, g);
        assert((a * ipow(10, d) == b) == (a * (ipow(10, d) * ipow(10, g)) == b * ipow(10, g))) by (nonlinear_arith)
            requires ipow(10, g) >= 1;
    } else {
        let d = (e2 - e1) as nat;
        let g = (e1 - m) as nat;
        lemma_ipow_adds(10, d, g);
        assert((e2 - m) as nat == d + g);
        lemma_ipow_pos(10, g);
        assert((a == b * ipow(10, d)) == (a * ipow(10, g) == b * (ipow(10, d) * ipow(10, g)))) by (nonlinear_arith)
            requires ipow(10, g) >= 1;
    }
}

/// Trailing zeros of either side may move into its exponent.
pub proof fn lemma_decimal_equal_shift(a: nat, e1: int, b: nat, e2: int, p: nat, z: nat)
    ensures
        decimal_equal(a * ipow(10, p), e1, b * ipow(10, z), e2) == decimal_equal(a, e1 + p, b, e2 + z),
{
    let m = if e1 <= e2 {
        e1
    } else {
        e2
    };
    lemma_decimal_equal_common(a * ipow(10, p), e1, b * ipow(10, z), e2, m);
    lemma_decimal_equal_common(a, e1 + p, b, e2 + z, m);
    lemma_ipow_adds(10, p, (e1 - m) as nat);
    lemma_ipow_adds(10, z, (e2 - m) as nat);
    assert((e1 + p - m) as nat == p + (e1 - m) as nat);
    assert((e2 + z - m) as nat == z + (e2 - m) as nat);
    assert(a * ipow(10, p) * ipow(10, (e1 - m) as nat) == a * (ipow(10, p) * ipow(10, (e1 - m) as nat)))
        by (nonlinear_arith);
    assert(b * ipow(10, z) * ipow(10, (e2 - m) as nat) == b * (ipow(10, z) * ipow(10, (e2 - m) as nat)))
        by (nonlinear_arith);
}

/// Numbers that do not end in 0 are equal at two scales only when equal,
/// at the same scale.
pub proof fn lemma_decimal_equal_canonical(c1: nat, z1: int, c2: nat, z2: int)
    requires
        c1 % 10 != 0,
        c2 % 10 != 0,
    ensures
        decimal_equal(c1, z1, c2, z2) == (c1 == c2 && z1 == z2),
{
    if z1 > z2 {
        lemma_ipow10_divisible(c1, (z1 - z2) as nat);
        assert(!decimal_equal(c1, z1, c2, z2));
    } else if z1 < z2 {
        lemma_ipow10_divisible(c2, (z2 - z1) as nat);
        assert(!decimal_equal(c1, z1, c2, z2));
    } else {
        assert((z1 - z2) as nat == 0);
        assert(ipow(10, 0) == 1);
        assert(c1 * ipow(10, 0) == c1);
    }
}

// ---------------------------------------------------------------------------
// Digit sequences
// ---------------------------------------------------------------------------

/// Whether every element is a digit value below 10.
pub open spec fn all_digits(v: Seq<u8>) -> bool {
    forall|i: int| 0 <= i < v.len() ==> #[trigger] v[i] < 10
}

/// The number that digit values denote, least significant first.
pub open spec fn le_value(v: Seq<u8>) -> nat
    decreases v.len(),
{
    if v.len() == 0 {
        0
    } else {
        v[0] as nat + 10 * le_value(v.drop_first())
    }
}

/// Whether a little-endian digit sequence has no zero at its top.
pub open spec fn le_canonical(v: Seq<u8>) -> bool {
    all_digits(v) && (v.len() == 0 || v.last() != 0)
}

/// Appending a digit at the top adds it at its place.
pub proof fn lemma_le_push(v: Seq<u8>, x: u8)
    ensures
        le_value(v.push(x)) == le_value(v) + x * ipow(10, v.len()),
    decreases v.len(),
{
    if v.len() == 0 {
        assert(v.push(x).drop_first() =~= Seq::<u8>::empty());
        assert(le_value(Seq::<u8>::empty()) == 0);
        assert(v.push(x)[0] == x);
        assert(ipow(10, 0) == 1);
        assert(x * ipow(10, 0) == x);
    } else {
        assert(v.push(x).drop_first() =~= v.drop_first().push(x));
        assert(v.push(x)[0] == v[0]);
        assert(v.drop_first().len() == v.len() - 1);
        lemma_le_push(v.drop_first(), x);
        assert(ipow(10, v.len()) == 10 * ipow(10, (v.len() - 1) as nat));
        assert(10 * (le_value(v.drop_first()) + x * ipow(10, (v.len() - 1) as nat)) == 10 * le_value(v.drop_first())
            + x * (10 * ipow(10, (v.len() - 1) as nat))) by (nonlinear_arith);
    }
}

/// Digits below 10 denote a number below `10^len`; a nonzero top digit
/// makes it at least `10^(len-1)`.
pub proof fn lemma_le_bounds(v: Seq<u8>)
    requires
        all_digits(v),
    ensures
        le_value(v) < ipow(10, v.len()),
        v.len() > 0 && v.last() != 0 ==> le_value(v) >= ipow(10, (v.len() - 1) as nat),
        v.len() > 0 && v.last() != 0 ==> le_value(v) > 0,
    decreases v.len(),
{
    if v.len() > 0 {
        let r = v.drop_first();
        assert(all_digits(r)) by {
            assert forall|i: int| 0 <= i < r.len() implies #[trigger] r[i] < 10 by {
                assert(r[i] == v[i + 1]);
            }
        }
        lemma_le_bounds(r);
        assert(v[0] < 10);
        assert(v[0] + 10 * le_value(r) < 10 * ipow(10, r.len())) by (nonlinear_arith)
            requires v[0] < 10, le_value(r) < ipow(10, r.len()), le_value(r) + 1 <= ipow(10, r.len());
        assert(ipow(10, v.len()) == 10 * ipow(10, r.len()));
        if v.last() != 0 {
            if r.len() > 0 {
                assert(r.last() == v.last());
                assert(ipow(10, (v.len() - 1) as nat) == 10 * ipow(10, (r.len() - 1) as nat));
                assert(v[0] + 10 * le_value(r) >= 10 * ipow(10, (r.len() - 1) as nat)) by (nonlinear_arith)
                    requires le_value(r) >= ipow(10, (r.len() - 1) as nat);
                lemma_ipow_pos(10, (r.len() - 1) as nat);
            } else {
                assert(v[0] == v.last());
                assert(ipow(10, 0) == 1);
            }
        }
    }
}

/// Canonical little-endian digit sequences of equal value are equal.
pub proof fn lemma_le_injective(a: Seq<u8>, b: Seq<u8>)
    requires
        le_canonical(a),
        le_canonical(b),
        le_value(a) == le_value(b),
    ensures
        a == b,
    decreases a.len(),
{
    lemma_le_bounds(a);
    lemma_le_bounds(b);
    if a.len() == 0 {
        assert(b.len() == 0);
        assert(a =~= b);
    } else {
        assert(b.len() > 0);
        let ra = a.drop_first();
        let rb = b.drop_first();
        assert(a[0] < 10 && b[0] < 10);
        assert(a[0] == b[0] && le_value(ra) == le_value(rb)) by (nonlinear_arith)
            requires
                a[0] + 10 * le_value(ra) == b[0] + 10 * le_value(rb),
                a[0] < 10,
                b[0] < 10;
        assert(le_canonical(ra)) by {
            assert forall|i: int| 0 <= i < ra.len() implies #[trigger] ra[i] < 10 by {
                assert(ra[i] == a[i + 1]);
            }
            if ra.len() > 0 {
                assert(ra.last() == a.last());
            }
        }
        assert(le_canonical(rb)) by {
            assert forall|i: int| 0 <= i < rb.len() implies #[trigger] rb[i] < 10 by {
                assert(rb[i] == b[i + 1]);
            }
            if rb.len() > 0 {
                assert(rb.last() == b.last());
            }
        }
        lemma_le_injective(ra, rb);
        assert(a =~= b) by {
            assert forall|i: int| 0 <= i < a.len() implies a[i] == b[i] by {
                if i > 0 {
                    assert(a[i] == ra[i - 1] && b[i] == rb[i - 1]);
                }
            }
        }
    }
}

/// The lowest digit of a little-endian sequence is its value modulo 10.
pub proof fn lemma_le_low_digit(v: Seq<u8>)
    requires
        all_digits(v),
        v.len() > 0,
    ensures
        le_value(v) % 10 == v[0],
        v[0] == 0 ==> le_value(v) == 10 * le_value(v.drop_first()),
{
    assert(v[0] < 10);
    vstd::arithmetic::div_mod::lemma_mod_multiples_vanish(le_value(v.drop_first()) as int, v[0] as int, 10);
    vstd::arithmetic::div_mod::lemma_small_mod(v[0] as nat, 10);
}

/// The value of decimal ASCII digits, most significant first.
pub open spec fn be_ascii_value(d: Seq<u8>) -> nat
    decreases d.len(),
{
    if d.len() == 0 {
        0
    } else {
        be_ascii_value(d.drop_last()) * 10 + (d.last() - 0x30) as nat
    }
}

/// Whether every byte is an ASCII decimal digit.
pub open spec fn all_ascii_digits(d: Seq<u8>) -> bool {
    forall|i: int| 0 <= i < d.len() ==> is_dec_digit(#[trigger] d[i])
}

/// The digit values of ASCII digits, least significant first.
pub open spec fn ascii_to_le(d: Seq<u8>) -> Seq<u8> {
    Seq::new(d.len(), |i: int| (d[d.len() - 1 - i] - 0x30) as u8)
}

/// Reversing ASCII digits into little-endian digit values keeps the number.
pub proof fn lemma_ascii_to_le_value(d: Seq<u8>)
    requires
        all_ascii_digits(d),
    ensures
        le_value(ascii_to_le(d)) == be_ascii_value(d),
        all_digits(ascii_to_le(d)),
    decreases d.len(),
{
    let v = ascii_to_le(d);
    assert(all_digits(v)) by {
        assert forall|i: int| 0 <= i < v.len() implies #[trigger] v[i] < 10 by {
            assert(is_dec_digit(d[d.len() - 1 - i]));
        }
    }
    if d.len() > 0 {
        let p = d.drop_last();
        assert(all_ascii_digits(p)) by {
            assert forall|i: int| 0 <= i < p.len() implies is_dec_digit(#[trigger] p[i]) by {
                assert(p[i] == d[i]);
            }
        }
        lemma_ascii_to_le_value(p);
        assert(v.drop_first() =~= ascii_to_le(p));
        assert(is_dec_digit(d.last()));
    }
}


// ---------------------------------------------------------------------------
// Building the digits of `q · 5^k`
// ---------------------------------------------------------------------------

/// The decimal digits of `q`, least significant first (none for 0).
fn le_digits_of(q: u64) -> (v: Vec<u8>)
    ensures
        le_value(v@) == q,
        le_canonical(v@),
        v@.len() <= 20,
{
    let mut v: Vec<u8> = Vec::new();
    let mut x = q;
    proof {
        assert(ipow(10, 0) == 1);
        assert(le_value(v@) == 0);
    }
    while x > 0
        invariant
            le_value(v@) + ipow(10, v@.len()) * x == q,
            all_digits(v@),
            v@.len() > 0 && x == 0 ==> v@.last() != 0,
            v@.len() <= 20,
            x * ipow(10, v@.len()) <= u64::MAX,
        decreases x,
    {
        let d = (x % 10) as u8;
        let ghost old_v = v@;
        proof {
            lemma_le_push(old_v, d);
            lemma_ipow_pos(10, old_v.len());
            assert(ipow(10, old_v.len() + 1) == 10 * ipow(10, old_v.len()));
            let xd = x / 10;
            assert(x == 10 * xd + d);
            let pw = ipow(10, old_v.len());
            assert(pw * x == pw * d + (10 * pw) * xd) by (nonlinear_arith)
                requires x == 10 * xd + d;
            if old_v.len() >= 20 {
                if old_v.len() > 20 {
                    lemma_ipow_grows(10, 20, old_v.len());
                }
                assert(ipow(10, 20) == 100_000_000_000_000_000_000) by {
                    reveal_with_fuel(ipow, 21);
                }
                assert(x * pw >= ipow(10, 20)) by (nonlinear_arith)
                    requires x >= 1, pw >= ipow(10, 20);
            }
            assert(xd * (10 * pw) <= x * pw) by (nonlinear_arith)
                requires x == 10 * xd + d, pw >= 0;
        }
        v.push(d);
        x = x / 10;
        proof {
            assert(v@ == old_v.push(d));
            let pw = ipow(10, old_v.len());
            assert(le_value(v@) == le_value(old_v) + d * pw);
            assert(v@.len() == old_v.len() + 1);
            assert(ipow(10, v@.len()) == 10 * pw);
            assert(d * pw == pw * d) by (nonlinear_arith);
            assert(ipow(10, v@.len()) * x == (10 * pw) * x);
            assert(all_digits(v@)) by {
                assert forall|i: int| 0 <= i < v@.len() implies #[trigger] v@[i] < 10 by {
                    if i < old_v.len() {
                        assert(v@[i] == old_v[i]);
                    }
                }
            }
        }
    }
    v
}

/// Multiplies the little-endian digits `v` by 5.
fn times_five(v: &mut Vec<u8>)
    requires
        le_canonical(old(v)@),
        old(v)@.len() < 4000,
    ensures
        le_value(final(v)@) == 5 * le_value(old(v)@),
        le_canonical(final(v)@),
        final(v)@.len() <= old(v)@.len() + 1,
{
    let ghost v0 = v@;
    let mut carry: u8 = 0;
    let mut i: usize = 0;
    proof {
        assert(ipow(10, 0) == 1);
        assert(v0.subrange(0, 0) =~= Seq::<u8>::empty());
        assert(v@.subrange(0, 0) =~= Seq::<u8>::empty());
    }
    while i < v.len()
        invariant
            v@.len() == v0.len(),
            i <= v@.len(),
            carry <= 4,
            all_digits(v0),
            forall|j: int| 0 <= j < i ==> #[trigger] v@[j] < 10,
            forall|j: int| i <= j < v@.len() ==> #[trigger] v@[j] == v0[j],
            le_value(v@.subrange(0, i as int)) + carry * ipow(10, i as nat) == 5 * le_value(v0.subrange(0, i as int)),
        decreases v@.len() - i,
    {
        let ghost pre = v@;
        let product = v[i] * 5 + carry;
        proof {
            assert(v@[i as int] == v0[i as int]);
            assert(v0[i as int] < 10);
        }
        v.set(i, product % 10);
        carry = product / 10;
        proof {
            assert(v@.subrange(0, i + 1) =~= pre.subrange(0, i as int).push(product % 10));
            assert(v0.subrange(0, i + 1) =~= v0.subrange(0, i as int).push(v0[i as int]));
            assert(pre.subrange(0, i as int) =~= v@.subrange(0, i as int));
            lemma_le_push(v@.subrange(0, i as int), (product % 10) as u8);
            lemma_le_push(v0.subrange(0, i as int), v0[i as int]);
            let p = ipow(10, i as nat);
            assert(ipow(10, (i + 1) as nat) == 10 * p);
            assert(product == (product % 10) + 10 * carry);
            assert((product % 10) * p + carry * (10 * p) == product * p) by (nonlinear_arith)
                requires product == (product % 10) + 10 * carry;
            assert(product * p == 5 * (v0[i as int] * p) + (product - 5 * v0[i as int]) * p) by (nonlinear_arith);
        }
        i += 1;
    }
    proof {
        assert(v@.subrange(0, v@.len() as int) =~= v@);
        assert(v0.subrange(0, v0.len() as int) =~= v0);
        lemma_le_bounds(v0);
    }
    let ghost before_push = v@;
    if carry != 0 {
        proof {
            lemma_le_push(v@, carry);
        }
        v.push(carry);
    }
    proof {
        assert(all_digits(v@)) by {
            assert forall|j: int| 0 <= j < v@.len() implies #[trigger] v@[j] < 10 by {
                if j < before_push.len() {
                    assert(v@[j] == before_push[j]);
                }
            }
        }
        if carry == 0 && v@.len() > 0 && v@.last() == 0 {
            // the top digit would be zero, so the value would fall below
            // 10^(len-1), below five times the old value
            let t = v@.drop_last();
            assert(all_digits(t)) by {
                assert forall|j: int| 0 <= j < t.len() implies #[trigger] t[j] < 10 by {
                    assert(t[j] == v@[j]);
                }
            }
            lemma_le_bounds(t);
            lemma_le_push(t, 0);
            assert(t.push(0) =~= v@);
            assert(le_value(v@) < ipow(10, (v@.len() - 1) as nat));
            assert(le_value(v0) >= ipow(10, (v0.len() - 1) as nat));
        }
    }
}


// ---------------------------------------------------------------------------
// Decimal tokens
// ---------------------------------------------------------------------------

/// Whether `t` is a decimal token: a decimal number that runs to its end.
pub open spec fn decimal_token(t: Seq<u8>) -> bool {
    starts_number(t, 0) && dec_end(t, 0) == t.len()
}

/// The number that the digits of `t[..k]` denote, the point left out.
pub open spec fn dec_digits_value(t: Seq<u8>, k: int) -> nat
    decreases k,
{
    if k <= 0 {
        0
    } else if t[k - 1] == 0x2E {
        dec_digits_value(t, k - 1)
    } else {
        dec_digits_value(t, k - 1) * 10 + digit_of(t[k - 1])
    }
}

/// The digits of a token's significand, as one integer.
pub open spec fn token_digits(t: Seq<u8>) -> nat {
    dec_digits_value(t, dec_mantissa_end(t, 0))
}

/// The written exponent of a token, or 0 when it has none.
pub open spec fn token_exponent(t: Seq<u8>) -> int {
    let n = dec_mantissa_end(t, 0);
    if n < t.len() {
        let v = digits_value(t, dec_exp_digits(t, n), t.len() as int, 10);
        if byte_at(t, n + 1) == 0x2D {
            -v
        } else {
            v as int
        }
    } else {
        0
    }
}

/// The power of ten that scales `token_digits`: a token denotes
/// `token_digits(t) · 10^token_scale(t)` exactly.
pub open spec fn token_scale(t: Seq<u8>) -> int {
    token_exponent(t) - digits_after_point(t, dec_mantissa_end(t, 0))
}

/// Whether `m · 10^e · 2^k == q`, that is, whether the number `m · 10^e`
/// equals `q · 2^-k`.
pub open spec fn scaled_decimal_equals(m: nat, e: int, k: nat, q: nat) -> bool {
    if e >= 0 {
        m * ipow(10, e as nat) * ipow(2, k) == q
    } else {
        m * ipow(2, k) == q * ipow(10, (-e) as nat)
    }
}

/// The facts about a run of digits: where it lies and what it holds.
pub proof fn lemma_digit_run_facts(s: Seq<u8>, i: int, radix: nat)
    requires
        0 <= i <= s.len(),
    ensures
        i <= digit_run_end(s, i, radix) <= s.len(),
        forall|j: int| i <= j < digit_run_end(s, i, radix) ==> is_digit_in(#[trigger] s[j], radix),
        digit_run_end(s, i, radix) < s.len() ==> !is_digit_in(s[digit_run_end(s, i, radix)], radix),
    decreases s.len() - i,
{
    if i < s.len() && is_digit_in(s[i], radix) {
        lemma_digit_run_facts(s, i + 1, radix);
    }
}

/// The shape of a decimal token: digits and at most one point up to the end
/// of the significand, then `e` or `E`, an optional sign and digits.
pub proof fn lemma_token_shape(t: Seq<u8>)
    requires
        decimal_token(t),
    ensures
        ({
            let n = dec_mantissa_end(t, 0);
            let n1 = digit_run_end(t, 0, 10);
            &&& 0 <= n1 <= n <= t.len()
            &&& forall|j: int| 0 <= j < n ==> (is_dec_digit(#[trigger] t[j]) || (t[j] == 0x2E && j == n1))
            &&& n < t.len() ==> (t[n] == 0x65 || t[n] == 0x45)
            &&& n < t.len() ==> dec_exp_digits(t, n) < t.len()
            &&& n < t.len() ==> forall|j: int| dec_exp_digits(t, n) <= j < t.len() ==> is_dec_digit(#[trigger] t[j])
            &&& n < t.len() ==> n + 1 <= dec_exp_digits(t, n) <= n + 2
        }),
{
    let n = dec_mantissa_end(t, 0);
    let n1 = digit_run_end(t, 0, 10);
    lemma_digit_run_facts(t, 0, 10);
    if byte_at(t, n1) == 0x2E {
        lemma_digit_run_facts(t, n1 + 1, 10);
    }
    let e = dec_exp_digits(t, n);
    if (byte_at(t, n) == 0x65 || byte_at(t, n) == 0x45) && is_dec_digit(byte_at(t, e)) {
        lemma_digit_run_facts(t, e, 10);
        if e < t.len() {
            assert(e <= t.len());
        }
    }
    assert forall|j: int| 0 <= j < n implies (is_dec_digit(#[trigger] t[j]) || (t[j] == 0x2E && j == n1)) by {
        if j < n1 {
            assert(is_digit_in(t[j], 10));
        } else if j > n1 {
            assert(is_digit_in(t[j], 10));
        }
    }
}

/// `a` clamped to the range of `i128`.
pub open spec fn clamp_i128(a: int) -> int {
    if a > i128::MAX {
        i128::MAX as int
    } else if a < i128::MIN {
        i128::MIN as int
    } else {
        a
    }
}

/// `a + b`, saturating at the bounds of `i128`.
fn saturating_add_i128(a: i128, b: i128) -> (r: i128)
    ensures
        r == clamp_i128(a + b),
{
    match a.checked_add(b) {
        Some(v) => v,
        None => if b > 0 {
            i128::MAX
        } else {
            i128::MIN
        },
    }
}

/// `a - b`, saturating at the bounds of `i128`.
fn saturating_sub_i128(a: i128, b: i128) -> (r: i128)
    ensures
        r == clamp_i128(a - b),
{
    match a.checked_sub(b) {
        Some(v) => v,
        None => if b < 0 {
            i128::MAX
        } else {
            i128::MIN
        },
    }
}

/// Reads the exponent `t[start..]`, an optional sign and digits, as an
/// `i128`, saturating as reading it with `str::parse` and falling back to
/// the bound on the side of its sign does.
fn parse_exponent(t: &[u8], start: usize) -> (r: i128)
    requires
        start < t.len(),
        ({
            let ds = if t@[start as int] == 0x2B || t@[start as int] == 0x2D { start + 1 } else { start as int };
            ds < t.len() && forall|j: int| ds <= j < t.len() ==> is_dec_digit(#[trigger] t@[j])
        }),
    ensures
        ({
            let ds = if t@[start as int] == 0x2B || t@[start as int] == 0x2D { start + 1 } else { start as int };
            let v = digits_value(t@, ds, t.len() as int, 10);
            r == clamp_i128(if t@[start as int] == 0x2D { -v } else { v as int })
        }),
{
    let negative = t[start] == 0x2D;
    let ds = if t[start] == 0x2B || t[start] == 0x2D {
        start + 1
    } else {
        start
    };
    let mut p: i128 = 0;
    let mut i: usize = ds;
    while i < t.len()
        invariant
            ds <= i <= t.len(),
            forall|j: int| ds <= j < t.len() ==> is_dec_digit(#[trigger] t@[j]),
            p == clamp_i128(if negative { -digits_value(t@, ds as int, i as int, 10) } else { digits_value(t@, ds as int, i as int, 10) as int }),
        decreases t.len() - i,
    {
        let d = (t[i] - 0x30) as i128;
        proof {
            assert(is_dec_digit(t@[i as int]));
            assert(digit_of(t@[i as int]) == d);
        }
        let ghost v = digits_value(t@, ds as int, i as int, 10);
        assert(digits_value(t@, ds as int, i + 1, 10) == v * 10 + d);
        p = if negative {
            match p.checked_mul(10) {
                Some(a) => match a.checked_sub(d) {
                    Some(b) => b,
                    None => i128::MIN,
                },
                None => i128::MIN,
            }
        } else {
            match p.checked_mul(10) {
                Some(a) => match a.checked_add(d) {
                    Some(b) => b,
                    None => i128::MAX,
                },
                None => i128::MAX,
            }
        };
        proof {
            assert(v * 10 >= v) by (nonlinear_arith)
                requires v >= 0;
        }
        i += 1;
    }
    p
}


// ---------------------------------------------------------------------------
// The decision
// ---------------------------------------------------------------------------

/// Ten to a power is two to it times five to it.
proof fn lemma_ipow10_split(k: nat)
    ensures
        ipow(10, k) == ipow(2, k) * ipow(5, k),
    decreases k,
{
    if k > 0 {
        lemma_ipow10_split((k - 1) as nat);
        let a = ipow(2, (k - 1) as nat);
        let b = ipow(5, (k - 1) as nat);
        assert(ipow(10, k) == 10 * ipow(10, (k - 1) as nat));
        assert(ipow(2, k) == 2 * a);
        assert(ipow(5, k) == 5 * b);
        assert(10 * (a * b) == (2 * a) * (5 * b)) by (nonlinear_arith);
        assert(ipow(10, k) == ipow(2, k) * ipow(5, k)) by (nonlinear_arith)
            requires
                ipow(10, k) == 10 * ipow(10, (k - 1) as nat),
                ipow(10, (k - 1) as nat) == a * b,
                ipow(2, k) == 2 * a,
                ipow(5, k) == 5 * b;
    } else {
        assert(k == 0);
        assert(ipow(10, 0) == 1 && ipow(2, 0) == 1 && ipow(5, 0) == 1);
        assert(ipow(2, k) * ipow(5, k) == 1) by (nonlinear_arith)
            requires ipow(2, k) == 1, ipow(5, k) == 1;
    }
}

/// `m · 10^e == q · 2^-k` is `m · 10^e == (q · 5^k) · 10^-k`.
proof fn lemma_scaled_as_decimal(m: nat, e: int, k: nat, q: nat)
    ensures
        scaled_decimal_equals(m, e, k, q) == decimal_equal(m, e, q * ipow(5, k), -k),
{
    lemma_ipow10_split(k);
    let p2 = ipow(2, k);
    let p5 = ipow(5, k);
    lemma_ipow_pos(2, k);
    lemma_ipow_pos(5, k);
    if e >= 0 {
        let pe = ipow(10, e as nat);
        lemma_ipow_adds(10, e as nat, k);
        assert((e - (-k)) as nat == e as nat + k);
        // m·10^e·2^k == q  <==>  m·10^e·10^k == q·5^k
        assert((m * pe * p2 == q) == (m * (pe * (p2 * p5)) == q * p5)) by (nonlinear_arith)
            requires p5 >= 1;
    } else if e >= -k {
        let d = (-e) as nat;
        let g = (e + k) as nat;
        lemma_ipow_adds(10, g, d);
        assert(g + d == k);
        assert((e - (-k)) as nat == g);
        // m·2^k == q·10^d  <==>  m·10^g == q·5^k
        let pg = ipow(10, g);
        let pd = ipow(10, d);
        lemma_ipow_pos(10, d);
        assert(p2 * p5 == pg * pd);
        assert((m * p2 == q * pd) == (m * pg == q * p5)) by (nonlinear_arith)
            requires p2 * p5 == pg * pd, p5 >= 1, pd >= 1;
    } else {
        let d = (-e) as nat;
        let g = (-k - e) as nat;
        lemma_ipow_adds(10, k, g);
        assert(k + g == d);
        assert((-k - e) as nat == g);
        let pk = ipow(10, k);
        let pg = ipow(10, g);
        // m·2^k == q·10^k·10^g  <==>  m == q·5^k·10^g
        assert((m * p2 == q * (pk * pg)) == (m == q * p5 * pg)) by (nonlinear_arith)
            requires pk == p2 * p5, p2 >= 1;
    }
}

/// Saturating the exponent and the scale does not change whether the scale
/// equals a small one.
proof fn lemma_saturated_scale(x: int, flen: nat, pops: nat, es: int)
    requires
        flen <= 0x1_0000_0000_0000_0000,
        pops <= 0x1_0000_0000_0000_0000,
        -4000 <= es <= 4000,
    ensures
        (clamp_i128(clamp_i128(clamp_i128(x) - flen) + pops) == es) == (x - flen + pops == es),
{
}

/// The last ASCII digit of a number is its value modulo 10.
proof fn lemma_be_low_digit(d: Seq<u8>)
    requires
        all_ascii_digits(d),
        d.len() > 0,
    ensures
        be_ascii_value(d) % 10 == (d.last() - 0x30) as nat,
{
    assert(is_dec_digit(d.last()));
    vstd::arithmetic::div_mod::lemma_mod_multiples_vanish(be_ascii_value(d.drop_last()) as int, (d.last() - 0x30) as int, 10);
    vstd::arithmetic::div_mod::lemma_small_mod((d.last() - 0x30) as nat, 10);
}

/// Comparing the normalised digits and scales decides whether the token
/// equals the subnormal.
proof fn lemma_exact_decision(
    digits: Seq<u8>, pops: nat, exact: Seq<u8>, zs: nat,
    m: nat, x: int, flen: nat, k: nat, q: nat, scale: int, exact_scale: int,
)
    requires
        all_ascii_digits(digits),
        digits.len() > 0 ==> digits[0] != 0x30 && digits.last() != 0x30,
        be_ascii_value(digits) * ipow(10, pops) == m,
        le_canonical(exact),
        exact.len() > 0,
        exact[0] != 0,
        le_value(exact) * ipow(10, zs) == q * ipow(5, k),
        exact_scale == zs - k,
        -4000 <= exact_scale <= 4000,
        scale == clamp_i128(clamp_i128(clamp_i128(x) - flen) + pops),
        flen <= 0x1_0000_0000_0000_0000,
        pops <= 0x1_0000_0000_0000_0000,
    ensures
        ((ascii_to_le(digits) == exact) && scale == exact_scale) == scaled_decimal_equals(m, x - flen, k, q),
{
    let b = be_ascii_value(digits);
    let c = le_value(exact);
    lemma_scaled_as_decimal(m, x - flen, k, q);
    lemma_decimal_equal_shift(b, x - flen, c, -k, pops, zs);
    lemma_saturated_scale(x, flen, pops, exact_scale);
    lemma_le_bounds(exact);
    lemma_le_low_digit(exact);
    lemma_ascii_to_le_value(digits);
    assert(q * ipow(5, k) == c * ipow(10, zs));
    if digits.len() == 0 {
        assert(b == 0);
        assert(ascii_to_le(digits).len() == 0);
        lemma_ipow_pos(10, ((x - flen + pops) - (-k + zs)) as nat);
        lemma_ipow_pos(10, ((-k + zs) - (x - flen + pops)) as nat);
        assert(c * ipow(10, ((-k + zs) - (x - flen + pops)) as nat) >= 1) by (nonlinear_arith)
            requires c >= 1, ipow(10, ((-k + zs) - (x - flen + pops)) as nat) >= 1;
        assert(!decimal_equal(b, x - flen + pops, c, -k + zs));
    } else {
        lemma_be_low_digit(digits);
        lemma_decimal_equal_canonical(b, x - flen + pops, c, -k + zs);
        let v = ascii_to_le(digits);
        assert(le_canonical(v)) by {
            assert(v.last() == (digits[0] - 0x30) as u8);
            assert(is_dec_digit(digits[0]));
        }
        if b == c {
            lemma_le_injective(v, exact);
        }
    }
}

/// The points and the digits after them in `t[..k]`, for a significand with
/// its only point, if any, at `dot`.
pub(crate) proof fn lemma_points(t: Seq<u8>, k: int, dot: int, n: int)
    requires
        0 <= k <= n <= t.len(),
        0 <= dot <= n,
        forall|j: int| 0 <= j < dot ==> #[trigger] t[j] != 0x2E,
        dot < n ==> t[dot] == 0x2E,
        forall|j: int| dot < j < n ==> #[trigger] t[j] != 0x2E,
    ensures
        point_before(t, k) == (dot < k),
        digits_after_point(t, k) == (if dot < k { k - dot - 1 } else { 0 }),
    decreases k,
{
    if k > 0 {
        lemma_points(t, k - 1, dot, n);
    }
}

/// Whether the decimal token `tok` denotes exactly the subnormal whose
/// fraction field `bits` holds, that is, whether `token · 2^-subnormal_exp`
/// equals that field. An exact subnormal result is no range error.
pub fn decimal_is_exact(tok: &[u8], bits: u64, f: FloatFormat) -> (r: bool)
    requires
        decimal_token(tok@),
        (bits as nat) % pow2(fraction_bits(f)) != 0,
    ensures
        r == scaled_decimal_equals(
            token_digits(tok@),
            token_scale(tok@),
            (-subnormal_exp(f)) as nat,
            (bits as nat) % pow2(fraction_bits(f)),
        ),
{
    let ghost t = tok@;
    proof {
        lemma_token_shape(t);
    }
    let ghost n = dec_mantissa_end(t, 0);
    let ghost n1 = digit_run_end(t, 0, 10);
    // the significand ends at the first `e` or `E`
    let mut m_end: usize = 0;
    while m_end < tok.len() && tok[m_end] != 0x65 && tok[m_end] != 0x45
        invariant
            t == tok@,
            m_end <= n <= t.len(),
            forall|j: int| 0 <= j < n ==> (is_dec_digit(#[trigger] t[j]) || (t[j] == 0x2E && j == n1)),
            n < t.len() ==> (t[n] == 0x65 || t[n] == 0x45),
        decreases tok.len() - m_end,
    {
        m_end += 1;
    }
    assert(m_end == n);
    let exponent: i128 = if m_end < tok.len() {
        parse_exponent(tok, m_end + 1)
    } else {
        0
    };
    assert(exponent == clamp_i128(token_exponent(t)));
    // the digits after the point
    let mut dot: usize = 0;
    while dot < m_end && tok[dot] != 0x2E
        invariant
            t == tok@,
            dot <= m_end,
            m_end == n,
            n <= t.len(),
            forall|j: int| 0 <= j < dot ==> #[trigger] t[j] != 0x2E,
        decreases m_end - dot,
    {
        dot += 1;
    }
    proof {
        lemma_points(t, n, dot as int, n);
    }
    let fraction_len: usize = if dot < m_end {
        m_end - dot - 1
    } else {
        0
    };
    assert(fraction_len == digits_after_point(t, n));
    let mut scale: i128 = saturating_sub_i128(exponent, fraction_len as i128);
    let ghost scale0 = scale as int;
    // the digits of the significand, leading zeros left out
    let mut digits: Vec<u8> = Vec::new();
    let mut i: usize = 0;
    while i < m_end
        invariant
            t == tok@,
            i <= m_end,
            m_end == n,
            n <= t.len(),
            forall|j: int| 0 <= j < n ==> (is_dec_digit(#[trigger] t[j]) || (t[j] == 0x2E && j == n1)),
            all_ascii_digits(digits@),
            digits@.len() > 0 ==> digits@[0] != 0x30,
            be_ascii_value(digits@) == dec_digits_value(t, i as int),
            digits@.len() <= i,
        decreases m_end - i,
    {
        let c = tok[i];
        let ghost before = digits@;
        if c != 0x2E && (digits.len() > 0 || c != 0x30) {
            digits.push(c);
            proof {
                assert(digits@.drop_last() =~= before);
                assert(is_dec_digit(c));
            }
        }
        proof {
            assert(all_ascii_digits(digits@)) by {
                assert forall|j: int| 0 <= j < digits@.len() implies is_dec_digit(#[trigger] digits@[j]) by {
                    if j < before.len() {
                        assert(digits@[j] == before[j]);
                    }
                }
            }
            if digits@.len() > 0 {
                if before.len() > 0 {
                    assert(digits@[0] == before[0]);
                }
            }
        }
        i += 1;
    }
    // trailing zeros of the digits go into the scale
    let ghost mut pops: nat = 0;
    proof {
        assert(ipow(10, 0) == 1);
    }
    while digits.len() > 0 && digits[digits.len() - 1] == 0x30
        invariant
            all_ascii_digits(digits@),
            digits@.len() > 0 ==> digits@[0] != 0x30,
            be_ascii_value(digits@) * ipow(10, pops) == token_digits(t),
            scale == clamp_i128(scale0 + pops),
            i128::MIN <= scale0 <= i128::MAX,
            digits@.len() + pops <= n,
        decreases digits@.len(),
    {
        let ghost before = digits@;
        digits.pop();
        scale = saturating_add_i128(scale, 1);
        proof {
            assert(digits@ =~= before.drop_last());
            assert(be_ascii_value(before) == be_ascii_value(digits@) * 10);
            assert(ipow(10, pops + 1) == 10 * ipow(10, pops));
            assert(be_ascii_value(before) * ipow(10, pops) == be_ascii_value(digits@) * ipow(10, pops + 1)) by (nonlinear_arith)
                requires
                    be_ascii_value(before) == be_ascii_value(digits@) * 10,
                    ipow(10, pops + 1) == 10 * ipow(10, pops);
            assert(all_ascii_digits(digits@)) by {
                assert forall|j: int| 0 <= j < digits@.len() implies is_dec_digit(#[trigger] digits@[j]) by {
                    assert(digits@[j] == before[j]);
                }
            }
            if digits@.len() > 0 {
                assert(digits@[0] == before[0]);
            }
            pops = pops + 1;
        }
    }
    // the subnormal q · 2^subnormal_exp is (q · 5^k) · 10^-k: its digits
    let fb = f.fraction_bits();
    proof {
        vstd::arithmetic::power2::lemma2_to64();
        vstd::bits::lemma_u64_pow2_no_overflow(fb as nat);
        vstd::bits::lemma_u64_shl_is_mul(1, fb as u64);
    }
    let mask: u64 = (1u64 << fb as u64) - 1;
    proof {
        vstd::bits::lemma_u64_low_bits_mask_is_mod(bits, fb as nat);
    }
    let q = bits & mask;
    assert(q as nat == (bits as nat) % pow2(fraction_bits(f)));
    let mut exact = le_digits_of(q);
    let k: u32 = (0 - f.subnormal_exp()) as u32;
    let mut c: u32 = 0;
    proof {
        assert(ipow(5, 0) == 1);
    }
    while c < k
        invariant
            k == -subnormal_exp(f),
            c <= k <= 1074,
            le_value(exact@) == q * ipow(5, c as nat),
            le_canonical(exact@),
            exact@.len() <= 20 + c,
        decreases k - c,
    {
        times_five(&mut exact);
        proof {
            assert(ipow(5, (c + 1) as nat) == 5 * ipow(5, c as nat));
            assert(5 * (q * ipow(5, c as nat)) == q * (5 * ipow(5, c as nat))) by (nonlinear_arith);
        }
        c += 1;
    }
    let mut exact_scale: i128 = f.subnormal_exp() as i128;
    let ghost mut zs: nat = 0;
    proof {
        assert(ipow(10, 0) == 1);
        assert(le_value(exact@) * 1 == le_value(exact@));
    }
    while exact.len() > 0 && exact[0] == 0
        invariant
            k == -subnormal_exp(f),
            k <= 1074,
            le_value(exact@) * ipow(10, zs) == q * ipow(5, k as nat),
            le_canonical(exact@),
            exact_scale == subnormal_exp(f) + zs,
            exact@.len() + zs <= 20 + k,
        decreases exact@.len(),
    {
        let ghost before = exact@;
        proof {
            lemma_le_low_digit(before);
            if before.len() == 1 {
                assert(before.last() == before[0]);
            }
        }
        exact.remove(0);
        exact_scale += 1;
        proof {
            assert(exact@ =~= before.drop_first());
            assert(ipow(10, zs + 1) == 10 * ipow(10, zs));
            assert(le_value(before) * ipow(10, zs) == le_value(exact@) * ipow(10, zs + 1)) by (nonlinear_arith)
                requires
                    le_value(before) == 10 * le_value(before.drop_first()),
                    exact@ == before.drop_first(),
                    ipow(10, zs + 1) == 10 * ipow(10, zs);
            assert(le_canonical(exact@)) by {
                assert forall|j: int| 0 <= j < exact@.len() implies #[trigger] exact@[j] < 10 by {
                    assert(exact@[j] == before[j + 1]);
                }
                assert(exact@.last() == before.last());
            }
            zs = zs + 1;
        }
    }
    proof {
        vstd::arithmetic::power2::lemma_pow2_pos(fb as nat);
        lemma_ipow_pos(5, k as nat);
        assert(q >= 1);
        assert(q * ipow(5, k as nat) >= 1) by (nonlinear_arith)
            requires q >= 1, ipow(5, k as nat) >= 1;
        if exact@.len() == 0 {
            assert(le_value(exact@) == 0);
            assert(0 * ipow(10, zs) == 0);
            assert(false);
        }
        lemma_exact_decision(
            digits@, pops, exact@, zs, token_digits(t), token_exponent(t), fraction_len as nat,
            k as nat, q as nat, scale as int, exact_scale as int,
        );
    }
    let ghost decision = scaled_decimal_equals(
        token_digits(tok@),
        token_scale(tok@),
        (-subnormal_exp(f)) as nat,
        (bits as nat) % pow2(fraction_bits(f)),
    );
    assert(((ascii_to_le(digits@) == exact@) && scale == exact_scale) == decision);
    // compare the digits, most significant first, with the exact digits
    if digits.len() != exact.len() {
        proof {
            assert(ascii_to_le(digits@).len() != exact@.len());
        }
        return false;
    }
    let mut j: usize = 0;
    while j < exact.len()
        invariant
            digits@.len() == exact@.len(),
            j <= exact@.len(),
            all_ascii_digits(digits@),
            ((ascii_to_le(digits@) == exact@) && scale == exact_scale) == decision,
            decision == scaled_decimal_equals(
                token_digits(tok@),
                token_scale(tok@),
                (-subnormal_exp(f)) as nat,
                (bits as nat) % pow2(fraction_bits(f)),
            ),
            forall|i: int| 0 <= i < j ==> ascii_to_le(digits@)[i] == #[trigger] exact@[i],
        decreases exact@.len() - j,
    {
        if digits[digits.len() - 1 - j] - 0x30 != exact[j] {
            proof {
                assert(ascii_to_le(digits@)[j as int] != exact@[j as int]);
            }
            return false;
        }
        j += 1;
    }
    proof {
        assert(ascii_to_le(digits@) =~= exact@);
    }
    scale == exact_scale
}


// ---------------------------------------------------------------------------
// Finishing a decimal conversion
// ---------------------------------------------------------------------------

/// A digit run read in a suffix ends where it ends in the whole.
proof fn lemma_run_shift(s: Seq<u8>, p: int, i: int, radix: nat)
    requires
        0 <= p <= s.len(),
        0 <= i,
    ensures
        digit_run_end(s.subrange(p, s.len() as int), i, radix) + p == digit_run_end(s, i + p, radix),
    decreases s.len() - p - i,
{
    let rest = s.subrange(p, s.len() as int);
    if 0 <= i < rest.len() && is_digit_in(rest[i], radix) {
        assert(rest[i] == s[i + p]);
        lemma_run_shift(s, p, i + 1, radix);
    } else if i < rest.len() {
        assert(rest[i] == s[i + p]);
    }
}

/// A byte of a suffix is the byte of the whole at the shifted place.
proof fn lemma_suffix_byte(s: Seq<u8>, p: int, i: int)
    requires
        0 <= p <= s.len(),
        0 <= i,
    ensures
        byte_at(s.subrange(p, s.len() as int), i) == byte_at(s, i + p),
{
}

/// A digit run that ends within a prefix ends there in the prefix too.
proof fn lemma_run_trunc(r: Seq<u8>, n: int, i: int, radix: nat)
    requires
        0 <= i <= digit_run_end(r, i, radix) <= n <= r.len(),
    ensures
        digit_run_end(r.subrange(0, n), i, radix) == digit_run_end(r, i, radix),
    decreases r.len() - i,
{
    let t = r.subrange(0, n);
    if 0 <= i < r.len() && is_digit_in(r[i], radix) {
        crate::integer::lemma_digit_run_end_ge(r, i + 1, radix);
        assert(digit_run_end(r, i, radix) == digit_run_end(r, i + 1, radix));
        assert(i < n);
        assert(t[i] == r[i]);
        lemma_run_trunc(r, n, i + 1, radix);
    } else if i < n {
        assert(t[i] == r[i]);
    }
}

/// Reading the number after the sign in the suffix that starts there gives
/// the same significand and end, shifted.
proof fn lemma_scan_shift(s: Seq<u8>, p: int)
    requires
        0 <= p <= s.len(),
    ensures
        ({
            let rest = s.subrange(p, s.len() as int);
            &&& dec_mantissa_end(rest, 0) + p == dec_mantissa_end(s, p)
            &&& dec_end(rest, 0) + p == dec_end(s, p)
            &&& starts_number(rest, 0) == starts_number(s, p)
        }),
{
    let rest = s.subrange(p, s.len() as int);
    lemma_run_shift(s, p, 0, 10);
    let n1 = digit_run_end(rest, 0, 10);
    crate::integer::lemma_digit_run_end_ge(rest, 0, 10);
    lemma_suffix_byte(s, p, n1);
    lemma_run_shift(s, p, n1 + 1, 10);
    crate::integer::lemma_digit_run_end_ge(rest, n1 + 1, 10);
    let m = dec_mantissa_end(rest, 0);
    assert(m + p == dec_mantissa_end(s, p));
    lemma_suffix_byte(s, p, m);
    lemma_suffix_byte(s, p, m + 1);
    let ed = dec_exp_digits(rest, m);
    assert(ed + p == dec_exp_digits(s, m + p));
    lemma_suffix_byte(s, p, ed);
    lemma_run_shift(s, p, ed, 10);
    lemma_suffix_byte(s, p, 0);
    lemma_suffix_byte(s, p, 1);
}

/// The token at the start of `rest`, cut off where it ends, is a decimal
/// token with the same significand.
proof fn lemma_token_prefix(rest: Seq<u8>)
    requires
        starts_number(rest, 0),
    ensures
        ({
            let n = dec_end(rest, 0);
            let tok = rest.subrange(0, n);
            &&& 0 <= dec_mantissa_end(rest, 0) <= n <= rest.len()
            &&& decimal_token(tok)
            &&& dec_mantissa_end(tok, 0) == dec_mantissa_end(rest, 0)
        }),
{
    let n1 = digit_run_end(rest, 0, 10);
    let m = dec_mantissa_end(rest, 0);
    let ed = dec_exp_digits(rest, m);
    let n = dec_end(rest, 0);
    lemma_digit_run_facts(rest, 0, 10);
    if byte_at(rest, n1) == 0x2E {
        lemma_digit_run_facts(rest, n1 + 1, 10);
    }
    let has_exp = (byte_at(rest, m) == 0x65 || byte_at(rest, m) == 0x45) && is_dec_digit(byte_at(rest, ed));
    if has_exp {
        lemma_digit_run_facts(rest, ed, 10);
    }
    assert(0 <= m <= n <= rest.len());
    let tok = rest.subrange(0, n);
    lemma_run_trunc(rest, n, 0, 10);
    if byte_at(rest, n1) == 0x2E {
        assert(n1 < m);
        assert(byte_at(tok, n1) == 0x2E);
        lemma_run_trunc(rest, n, n1 + 1, 10);
    } else {
        assert(byte_at(tok, n1) != 0x2E);
    }
    assert(dec_mantissa_end(tok, 0) == m);
    if has_exp {
        assert(byte_at(tok, m) == byte_at(rest, m));
        assert(byte_at(tok, m + 1) == byte_at(rest, m + 1));
        assert(byte_at(tok, ed) == byte_at(rest, ed));
        lemma_run_trunc(rest, n, ed, 10);
    } else {
        assert(n == m);
        assert(byte_at(tok, m) == 0);
    }
    assert(dec_end(tok, 0) == n);
    assert(byte_at(tok, 0) == byte_at(rest, 0));
    if !is_dec_digit(byte_at(rest, 0)) {
        assert(byte_at(tok, 1) == byte_at(rest, 1));
    }
}

/// The token of a decimal scan, read on its own, is a decimal token with the
/// same significand.
pub proof fn lemma_scan_token(s: Seq<u8>, f: FloatFormat)
    requires
        float_scan(s, f) is Decimal,
    ensures
        ({
            let p = after_sign(s);
            let e = dec_end(s, p);
            let tok = s.subrange(p, e);
            &&& 0 <= p <= dec_mantissa_end(s, p) <= e <= s.len()
            &&& decimal_token(tok)
            &&& dec_mantissa_end(tok, 0) == dec_mantissa_end(s, p) - p
        }),
{
    let p = after_sign(s);
    crate::strto::lemma_after_sign_bounds(s);
    let rest = s.subrange(p, s.len() as int);
    lemma_scan_shift(s, p);
    lemma_token_prefix(rest);
    let n = dec_end(rest, 0);
    assert(rest.subrange(0, n) =~= s.subrange(p, n + p));
}

/// A number's digits are zero exactly when none of them is a nonzero digit.
proof fn lemma_digits_zero(t: Seq<u8>, k: int)
    requires
        0 <= k <= t.len(),
        forall|j: int| 0 <= j < k ==> (is_dec_digit(#[trigger] t[j]) || t[j] == 0x2E),
    ensures
        (dec_digits_value(t, k) != 0) == (exists|j: int| 0 <= j < k && 0x31 <= #[trigger] t[j] <= 0x39),
    decreases k,
{
    if k > 0 {
        lemma_digits_zero(t, k - 1);
        if t[k - 1] != 0x2E {
            assert(is_dec_digit(t[k - 1]));
        }
        if exists|j: int| 0 <= j < k - 1 && 0x31 <= #[trigger] t[j] <= 0x39 {
            let j = choose|j: int| 0 <= j < k - 1 && 0x31 <= #[trigger] t[j] <= 0x39;
            assert(0 <= j < k && 0x31 <= t[j] <= 0x39);
        }
    }
}

/// Whether a decimal result is a range error: infinite, zero from a nonzero
/// number, or subnormal and not exactly the number.
pub open spec fn decimal_range_error(tok: Seq<u8>, magnitude: nat, f: FloatFormat) -> bool {
    ||| magnitude == infinity_bits(f)
    ||| magnitude == 0 && token_digits(tok) != 0
    ||| 0 < magnitude < pow2(fraction_bits(f)) && !scaled_decimal_equals(
        token_digits(tok),
        token_scale(tok),
        (-subnormal_exp(f)) as nat,
        magnitude,
    )
}

/// The token that a decimal scan of `s` leaves to a decimal parser.
pub open spec fn decimal_token_of(s: Seq<u8>) -> Seq<u8> {
    let p = after_sign(s);
    s.subrange(p, dec_end(s, p))
}

/// Finishes the conversion of a decimal number in `s`, given the bit pattern
/// `magnitude` of the value that a correctly rounded decimal parser gave for
/// its unsigned token: applies the sign and decides the range error. Returns
/// `None` when `s` does not hold a decimal number.
pub fn decimal_outcome(s: &[u8], magnitude: u64, f: FloatFormat) -> (r: Option<(u64, Option<Errno>)>)
    requires
        s@.len() < 0x1000_0000_0000_0000,
        magnitude <= infinity_bits(f),
    ensures
        r is Some <==> float_scan(s@, f) is Decimal,
        r matches Some(v) ==> v.0 == with_sign(magnitude as nat, float_scan(s@, f)->negative, f),
        r matches Some(v) ==> v.1 == range_errno_if(decimal_range_error(decimal_token_of(s@), magnitude as nat, f)),
{
    let ghost sq = s@;
    let len = s.len();
    let scan = scan_float(s, f);
    let (negative, start, mantissa_end, end) = match scan {
        FloatScan::Decimal { negative, start, mantissa_end, end } => (negative, start, mantissa_end, end),
        FloatScan::Converted { .. } => {
            return None;
        },
    };
    proof {
        lemma_scan_token(sq, f);
        crate::float_format::lemma_format_bounds(f);
        lemma_token_shape(decimal_token_of(sq));
        let p = after_sign(sq);
        assert(0 <= p <= dec_mantissa_end(sq, p) <= dec_end(sq, p) <= sq.len());
        assert(sq.len() == len);
        assert((p as usize) as int == p);
        assert((dec_end(sq, p) as usize) as int == dec_end(sq, p));
        assert(scan == float_scan(sq, f));
        assert(scan == FloatScan::Decimal { negative, start, mantissa_end, end });
        if !starts_number(sq, p) || crate::strto::hex_prefix(sq, p) {
            assert(float_scan(sq, f) is Converted);
        }
        assert(float_scan(sq, f) == FloatScan::Decimal {
            negative: crate::integer::int_negative(sq),
            start: p as usize,
            mantissa_end: dec_mantissa_end(sq, p) as usize,
            end: dec_end(sq, p) as usize,
        });
        assert(start == p);
        assert(end == dec_end(sq, p));
        assert(mantissa_end == dec_mantissa_end(sq, p));
    }
    let tok = &s[start..end];
    assert(tok@ == decimal_token_of(sq));
    // a zero result from a nonzero number underflowed
    let mut any_nonzero = false;
    let mut j: usize = start;
    while j < mantissa_end
        invariant
            sq == s@,
            start <= j <= mantissa_end <= end <= s.len(),
            tok@ == sq.subrange(start as int, end as int),
            any_nonzero == (exists|i: int| 0 <= i < j - start && 0x31 <= #[trigger] tok@[i] <= 0x39),
        decreases mantissa_end - j,
    {
        let c = s[j];
        proof {
            assert(tok@[j - start] == c);
            if exists|i: int| 0 <= i < j + 1 - start && 0x31 <= #[trigger] tok@[i] <= 0x39 {
                let i = choose|i: int| 0 <= i < j + 1 - start && 0x31 <= #[trigger] tok@[i] <= 0x39;
                if i < j - start {
                    assert(0 <= i < j - start && 0x31 <= tok@[i] <= 0x39);
                }
            }
        }
        if 0x31 <= c && c <= 0x39 {
            any_nonzero = true;
        }
        j += 1;
    }
    proof {
        let t = tok@;
        let mt = dec_mantissa_end(t, 0);
        assert(mt == mantissa_end - start);
        lemma_digits_zero(t, mt);
    }
    let fb = f.fraction_bits();
    proof {
        vstd::arithmetic::power2::lemma2_to64();
        vstd::bits::lemma_u64_pow2_no_overflow(fb as nat);
        vstd::bits::lemma_u64_shl_is_mul(1, fb as u64);
    }
    let min_normal = 1u64 << fb as u64;
    let error = magnitude == f.infinity_bits() || (magnitude == 0 && any_nonzero) || (0 < magnitude
        && magnitude < min_normal && {
        proof {
            vstd::arithmetic::div_mod::lemma_small_mod(magnitude as nat, pow2(fb as nat));
        }
        !decimal_is_exact(tok, magnitude, f)
    });
    let bits = if negative {
        magnitude + f.sign_bit()
    } else {
        magnitude
    };
    Some((bits, if error {
        Some(range_errno())
    } else {
        None
    }))
}

} // verus!
