//! The binary interchange formats of IEEE 754 that `strtof` and `strtod`
//! produce, described by their parameters and handled as bit patterns.

use vstd::prelude::*;
use vstd::arithmetic::power2::pow2;

verus! {

/// `binary32` (C `float`) or `binary64` (C `double`).
#[derive(Clone, Copy, Debug, PartialEq, Eq, Structural)]
pub enum FloatFormat {
    Binary32,
    Binary64,
}

/// The number of bits of the stored fraction (23 or 52).
pub open spec fn fraction_bits(f: FloatFormat) -> nat {
    match f {
        FloatFormat::Binary32 => 23,
        FloatFormat::Binary64 => 52,
    }
}

/// The precision: the fraction bits and the implicit leading bit.
pub open spec fn precision(f: FloatFormat) -> nat {
    fraction_bits(f) + 1
}

/// The largest exponent of a finite value (127 or 1023).
pub open spec fn max_exp(f: FloatFormat) -> int {
    match f {
        FloatFormat::Binary32 => 127,
        FloatFormat::Binary64 => 1023,
    }
}

/// The smallest exponent of a normal value (-126 or -1022).
pub open spec fn min_normal_exp(f: FloatFormat) -> int {
    1 - max_exp(f)
}

/// The exponent of the smallest subnormal (-149 or -1074).
pub open spec fn subnormal_exp(f: FloatFormat) -> int {
    min_normal_exp(f) - fraction_bits(f)
}

/// The width of a value in bits (32 or 64).
pub open spec fn width(f: FloatFormat) -> nat {
    match f {
        FloatFormat::Binary32 => 32,
        FloatFormat::Binary64 => 64,
    }
}

/// The bit pattern of positive infinity: every exponent bit set.
pub open spec fn infinity_bits(f: FloatFormat) -> nat {
    (2 * max_exp(f) + 1) as nat * pow2(fraction_bits(f))
}

/// The sign bit.
pub open spec fn sign_bit(f: FloatFormat) -> nat {
    pow2((width(f) - 1) as nat)
}

/// The default quiet NaN: every exponent bit and the top fraction bit set.
pub open spec fn quiet_nan_bits(f: FloatFormat) -> nat {
    infinity_bits(f) + pow2((fraction_bits(f) - 1) as nat)
}

/// Infinity, and every NaN that a conversion makes, lie below the sign bit;
/// the fraction bits below the quiet bit are the payload.
pub proof fn lemma_format_bounds(f: FloatFormat)
    ensures
        infinity_bits(f) < sign_bit(f),
        quiet_nan_bits(f) + pow2((fraction_bits(f) - 1) as nat) <= sign_bit(f),
        infinity_bits(f) > 0,
        pow2(fraction_bits(f)) <= infinity_bits(f),
        sign_bit(f) <= 0x8000_0000_0000_0000,
{
    vstd::arithmetic::power2::lemma2_to64();
    vstd::arithmetic::power2::lemma2_to64_rest();
    assert(pow2(52) == 0x10_0000_0000_0000 && pow2(51) == 0x8_0000_0000_0000) by {
        vstd::arithmetic::power2::lemma_pow2_adds(48, 4);
        vstd::arithmetic::power2::lemma_pow2_adds(48, 3);
    }
    match f {
        FloatFormat::Binary32 => {
            assert(infinity_bits(f) == 255 * 0x80_0000);
        },
        FloatFormat::Binary64 => {
            assert(infinity_bits(f) == 2047 * 0x10_0000_0000_0000);
        },
    }
}

impl FloatFormat {
    /// The number of stored fraction bits.
    pub fn fraction_bits(self) -> (r: u32)
        ensures
            r == fraction_bits(self),
    {
        match self {
            FloatFormat::Binary32 => 23,
            FloatFormat::Binary64 => 52,
        }
    }

    /// The precision in bits.
    pub fn significand_bits(self) -> (r: i64)
        ensures
            r == precision(self),
    {
        match self {
            FloatFormat::Binary32 => 24,
            FloatFormat::Binary64 => 53,
        }
    }

    /// The largest exponent of a finite value.
    pub fn max_exp(self) -> (r: i64)
        ensures
            r == max_exp(self),
    {
        match self {
            FloatFormat::Binary32 => 127,
            FloatFormat::Binary64 => 1023,
        }
    }

    /// The smallest exponent of a normal value.
    pub fn min_normal_exp(self) -> (r: i64)
        ensures
            r == min_normal_exp(self),
    {
        match self {
            FloatFormat::Binary32 => -126,
            FloatFormat::Binary64 => -1022,
        }
    }

    /// The exponent of the smallest subnormal.
    pub fn subnormal_exp(self) -> (r: i64)
        ensures
            r == subnormal_exp(self),
    {
        match self {
            FloatFormat::Binary32 => -149,
            FloatFormat::Binary64 => -1074,
        }
    }

    /// The bit pattern of positive infinity.
    pub fn infinity_bits(self) -> (r: u64)
        ensures
            r == infinity_bits(self),
    {
        proof {
            vstd::arithmetic::power2::lemma2_to64();
            vstd::arithmetic::power2::lemma2_to64_rest();
        }
        match self {
            FloatFormat::Binary32 => {
                assert(pow2(23) == 0x80_0000);
                assert(infinity_bits(self) == 255 * 0x80_0000);
                0x7F80_0000
            },
            FloatFormat::Binary64 => {
                assert(pow2(52) == 0x10_0000_0000_0000) by {
                    vstd::arithmetic::power2::lemma_pow2_adds(48, 4);
                }
                assert(infinity_bits(self) == 2047 * 0x10_0000_0000_0000);
                0x7FF0_0000_0000_0000
            },
        }
    }

    /// The sign bit.
    pub fn sign_bit(self) -> (r: u64)
        ensures
            r == sign_bit(self),
    {
        proof {
            vstd::arithmetic::power2::lemma2_to64();
            vstd::arithmetic::power2::lemma2_to64_rest();
        }
        match self {
            FloatFormat::Binary32 => 0x8000_0000,
            FloatFormat::Binary64 => 0x8000_0000_0000_0000,
        }
    }

    /// The bit pattern of the default quiet NaN.
    pub fn quiet_nan_bits(self) -> (r: u64)
        ensures
            r == quiet_nan_bits(self),
    {
        proof {
            vstd::arithmetic::power2::lemma2_to64();
            vstd::arithmetic::power2::lemma2_to64_rest();
        }
        match self {
            FloatFormat::Binary32 => {
                assert(pow2(23) == 0x80_0000 && pow2(22) == 0x40_0000);
                assert(quiet_nan_bits(self) == 255 * 0x80_0000 + 0x40_0000);
                0x7FC0_0000
            },
            FloatFormat::Binary64 => {
                assert(pow2(52) == 0x10_0000_0000_0000 && pow2(51) == 0x8_0000_0000_0000) by {
                    vstd::arithmetic::power2::lemma_pow2_adds(48, 4);
                    vstd::arithmetic::power2::lemma_pow2_adds(48, 3);
                }
                assert(quiet_nan_bits(self) == 2047 * 0x10_0000_0000_0000 + 0x8_0000_0000_0000);
                0x7FF8_0000_0000_0000
            },
        }
    }
}

} // verus!
