//! glibc's NaN syntax: `nan`, optionally followed by `(n-char-sequence)`,
//! whose number, when `strtoull` reads all of it in base 0, becomes the
//! payload.

use vstd::prelude::*;
use vstd::arithmetic::power2::{pow2, lemma_pow2_pos};
use crate::chars::{is_digit_in, digit_of, ascii_digit};
use crate::integer::digits_value;
use crate::float_format::{FloatFormat, fraction_bits, quiet_nan_bits};

verus! {

// ---------------------------------------------------------------------------
// strtoull(seq, &end, 0) when it must read all of `seq`
// ---------------------------------------------------------------------------

/// Whether `seq` starts with `0x` or `0X` followed by something.
pub open spec fn base0_hex(s: Seq<u8>) -> bool {
    s.len() >= 3 && s[0] == 0x30 && (s[1] == 0x78 || s[1] == 0x58)
}

/// The radix base 0 detects: 16 after `0x`, 8 after a leading `0`, else 10.
pub open spec fn base0_radix(s: Seq<u8>) -> nat {
    if base0_hex(s) {
        16
    } else if s.len() >= 1 && s[0] == 0x30 {
        8
    } else {
        10
    }
}

/// Where the digits start: after a `0x` prefix, or at once.
pub open spec fn base0_start(s: Seq<u8>) -> int {
    if base0_hex(s) {
        2
    } else {
        0
    }
}

/// Whether every byte from the start of the digits on is a digit.
pub open spec fn base0_all_digits(s: Seq<u8>) -> bool {
    forall|i: int| base0_start(s) <= i < s.len() ==> is_digit_in(#[trigger] s[i], base0_radix(s))
}

/// The number the digits denote, saturated at `u64::MAX`.
pub open spec fn base0_saturated(s: Seq<u8>) -> int {
    let v = digits_value(s, base0_start(s), s.len() as int, base0_radix(s));
    if v > u64::MAX {
        u64::MAX as int
    } else {
        v as int
    }
}

/// `strtoull(seq, &end, 0)` when `end` reaches the end of `seq`, saturating
/// as `strtoull` does; `None` when some byte is not a digit. An empty
/// sequence reads as 0.
pub fn strtoull_base0_whole(seq: &[u8]) -> (r: Option<u64>)
    ensures
        r is Some <==> base0_all_digits(seq@),
        r matches Some(v) ==> v == base0_saturated(seq@),
{
    let ghost sq = seq@;
    let hex = seq.len() >= 3 && seq[0] == 0x30 && (seq[1] == 0x78 || seq[1] == 0x58);
    let (radix, start): (u64, usize) = if hex {
        (16, 2)
    } else if seq.len() >= 1 && seq[0] == 0x30 {
        (8, 0)
    } else {
        (10, 0)
    };
    assert(radix == base0_radix(sq) && start == base0_start(sq));
    let mut acc: u64 = 0;
    let mut i: usize = start;
    while i < seq.len()
        invariant
            sq == seq@,
            radix == base0_radix(sq),
            start == base0_start(sq),
            start <= i <= seq.len(),
            forall|j: int| start <= j < i ==> is_digit_in(#[trigger] sq[j], radix as nat),
            acc == (if digits_value(sq, start as int, i as int, radix as nat) > u64::MAX {
                u64::MAX as int
            } else {
                digits_value(sq, start as int, i as int, radix as nat) as int
            }),
        decreases seq.len() - i,
    {
        let d: u64 = match ascii_digit(seq[i]) {
            Some(d) => {
                if (d as u64) < radix {
                    d as u64
                } else {
                    return None;
                }
            },
            None => {
                return None;
            },
        };
        let ghost v = digits_value(sq, start as int, i as int, radix as nat);
        assert(digits_value(sq, start as int, i + 1, radix as nat) == v * radix + d);
        assert(v * radix >= v) by (nonlinear_arith)
            requires radix >= 8;
        acc = match acc.checked_mul(radix) {
            Some(a) => match a.checked_add(d) {
                Some(b) => b,
                None => u64::MAX,
            },
            None => u64::MAX,
        };
        proof {
            if v > u64::MAX {
                assert(u64::MAX * radix > u64::MAX) by (nonlinear_arith)
                    requires radix >= 8;
            }
        }
        i += 1;
    }
    Some(acc)
}

// ---------------------------------------------------------------------------
// NaN
// ---------------------------------------------------------------------------

/// Whether a byte may stand in an n-char-sequence: a letter, a digit or `_`.
pub open spec fn is_nchar(c: u8) -> bool {
    (0x30 <= c <= 0x39) || (0x41 <= c <= 0x5A) || (0x61 <= c <= 0x7A) || c == 0x5F
}

/// The end of the run of n-chars in `s` from `i`.
pub open spec fn nchar_run_end(s: Seq<u8>, i: int) -> int
    decreases s.len() - i,
{
    if 0 <= i < s.len() && is_nchar(s[i]) {
        nchar_run_end(s, i + 1)
    } else {
        i
    }
}

/// Whether `after` (what follows `nan`) starts with `(n-char-sequence)`.
pub open spec fn nan_has_parens(after: Seq<u8>) -> bool {
    let n = nchar_run_end(after, 1);
    after.len() >= 1 && after[0] == 0x28 && n < after.len() && after[n] == 0x29
}

/// The length of the parenthesised part: the n-chars and both parentheses.
pub open spec fn nan_parens_len(after: Seq<u8>) -> int {
    nchar_run_end(after, 1) + 1
}

/// The mask of the payload: the fraction bits below the quiet bit.
pub open spec fn payload_mask(f: FloatFormat) -> nat {
    (pow2((fraction_bits(f) - 1) as nat) - 1) as nat
}

/// The bit pattern of the NaN: the default quiet NaN, carrying as payload
/// the number of the n-char-sequence (reduced to the payload bits) when
/// `strtoull` reads all of it in base 0 and the reduced payload is not zero.
pub open spec fn nan_bits(after: Seq<u8>, f: FloatFormat) -> nat {
    let seq = after.subrange(1, nchar_run_end(after, 1));
    let payload = (base0_saturated(seq) % (pow2((fraction_bits(f) - 1) as nat) as int)) as nat;
    if nan_has_parens(after) && base0_all_digits(seq) && payload != 0 {
        quiet_nan_bits(f) + payload
    } else {
        quiet_nan_bits(f)
    }
}

/// Whether a byte may stand in an n-char-sequence.
fn nchar(c: u8) -> (r: bool)
    ensures
        r == is_nchar(c),
{
    (0x30 <= c && c <= 0x39) || (0x41 <= c && c <= 0x5A) || (0x61 <= c && c <= 0x7A) || c == 0x5F
}

/// The quiet NaN of the format for what follows `nan`, with glibc's
/// `nan(n-char-sequence)` payload; sets `endoff` to the length of the
/// parenthesised part when there is one, and leaves it alone otherwise.
pub fn nan(after: &[u8], endoff: &mut usize, f: FloatFormat) -> (r: u64)
    ensures
        r == nan_bits(after@, f),
        nan_has_parens(after@) ==> *final(endoff) == nan_parens_len(after@),
        !nan_has_parens(after@) ==> *final(endoff) == *old(endoff),
{
    let ghost a = after@;
    let plain = f.quiet_nan_bits();
    if !(after.len() >= 1 && after[0] == 0x28) {
        return plain;
    }
    let mut n: usize = 1;
    while n < after.len() && nchar(after[n])
        invariant
            a == after@,
            1 <= n <= after.len(),
            nchar_run_end(a, n as int) == nchar_run_end(a, 1),
        decreases after.len() - n,
    {
        n += 1;
    }
    if !(n < after.len() && after[n] == 0x29) {
        return plain;
    }
    *endoff = n + 1;
    let fb = f.fraction_bits();
    proof {
        vstd::arithmetic::power2::lemma2_to64();
        vstd::arithmetic::power2::lemma2_to64_rest();
        vstd::bits::lemma_u64_pow2_no_overflow((fb - 1) as nat);
        vstd::bits::lemma_u64_shl_is_mul(1, (fb - 1) as u64);
    }
    let payload_mask: u64 = (1u64 << (fb - 1) as u64) - 1;
    match strtoull_base0_whole(&after[1..n]) {
        Some(v) => {
            proof {
                vstd::bits::lemma_u64_low_bits_mask_is_mod(v, (fb - 1) as nat);
            }
            let payload = v & payload_mask;
            if payload != 0 {
                let bits = plain | payload;
                proof {
                    if f == FloatFormat::Binary64 {
                        assert(plain | payload == plain + payload) by (bit_vector)
                            requires plain == 0x7FF8_0000_0000_0000u64, payload < 0x8_0000_0000_0000u64;
                    } else {
                        assert(plain | payload == plain + payload) by (bit_vector)
                            requires plain == 0x7FC0_0000u64, payload < 0x40_0000u64;
                    }
                }
                bits
            } else {
                plain
            }
        },
        None => plain,
    }
}

} // verus!
