//! IEEE 754 binary32 numbers, held as their bit patterns, and their widening to
//! binary64.
//!
//! A pattern has a sign bit, eight exponent bits and twenty-three fraction bits.
//! Every finite number of the format is a whole multiple of 2^-149.

use vstd::prelude::*;
use vstd::arithmetic::power2::pow2;
use crate::arithmetic::{bit_length, lemma_mul_bounds, power_of_two};
use crate::number::{
    abs_bits, is_finite, is_infinite, lemma_magnitude_of_parts, magnitude, sign_negative, Double,
    HIDDEN_BIT, INFINITY, SIGN_BIT,
};

verus! {

/// The sign bit of a binary32 pattern.
pub const SINGLE_SIGN_BIT: u32 = 0x8000_0000;

/// The binary32 pattern of positive infinity.
pub const SINGLE_INFINITY: u32 = 0x7f80_0000;

/// 2^23: the weight of the lowest exponent bit of a binary32 pattern.
pub const SINGLE_HIDDEN_BIT: u32 = 0x80_0000;

/// 2^51: the fraction bit that marks a binary64 NaN as quiet.
pub const QUIET_BIT: u64 = 0x8_0000_0000_0000;

/// 2^29: the weight that a binary32 fraction bit gains in a binary64 fraction.
pub const FRACTION_SHIFT: u64 = 0x2000_0000;

/// The sign bit is set.
pub open spec fn single_sign_negative(bits: u32) -> bool {
    bits >= SINGLE_SIGN_BIT
}

/// The pattern without its sign bit.
pub open spec fn single_abs_bits(bits: u32) -> u32 {
    if bits >= SINGLE_SIGN_BIT {
        (bits - SINGLE_SIGN_BIT) as u32
    } else {
        bits
    }
}

/// The pattern is a NaN.
pub open spec fn single_is_nan(bits: u32) -> bool {
    single_abs_bits(bits) > SINGLE_INFINITY
}

/// The pattern is positive or negative infinity.
pub open spec fn single_is_infinite(bits: u32) -> bool {
    single_abs_bits(bits) == SINGLE_INFINITY
}

/// The exponent bits, as a number.
pub open spec fn single_exponent_field(bits: u32) -> nat {
    (single_abs_bits(bits) / SINGLE_HIDDEN_BIT) as nat
}

/// The fraction bits, as a number.
pub open spec fn single_fraction_field(bits: u32) -> nat {
    (single_abs_bits(bits) % SINGLE_HIDDEN_BIT) as nat
}

/// The magnitude of a finite pattern, counted in units of 2^-149.
pub open spec fn single_magnitude(bits: u32) -> nat {
    if single_exponent_field(bits) == 0 {
        single_fraction_field(bits)
    } else {
        ((SINGLE_HIDDEN_BIT + single_fraction_field(bits)) * pow2(
            (single_exponent_field(bits) - 1) as nat,
        )) as nat
    }
}

/// `wide` is the binary64 pattern of the binary32 number `narrow`: it has the
/// same sign; a finite number keeps its magnitude, an infinity stays one, and a
/// NaN becomes the quiet NaN that holds its fraction bits in front.
pub open spec fn widens_to(wide: u64, narrow: u32) -> bool {
    &&& sign_negative(wide) == single_sign_negative(narrow)
    &&& if single_is_nan(narrow) {
        abs_bits(wide) == INFINITY + single_fraction_field(narrow) * FRACTION_SHIFT + (
        if single_fraction_field(narrow) * FRACTION_SHIFT < QUIET_BIT {
            QUIET_BIT as int
        } else {
            0
        })
    } else if single_is_infinite(narrow) {
        is_infinite(wide)
    } else {
        is_finite(wide) && magnitude(wide) == single_magnitude(narrow) * pow2(925)
    }
}

/// The binary64 pattern of a binary32 number.
pub open spec fn double_of_single(narrow: u32) -> u64 {
    choose|wide: u64| widens_to(wide, narrow)
}

/// Only one binary64 pattern is that of a binary32 number.
pub proof fn lemma_widening_is_unique(a: u64, b: u64, narrow: u32)
    requires
        widens_to(a, narrow),
        widens_to(b, narrow),
    ensures
        a == b,
        a == double_of_single(narrow),
{
    let x = abs_bits(a);
    let y = abs_bits(b);
    if x < y {
        crate::number::lemma_magnitude_increases(x, y);
    }
    if y < x {
        crate::number::lemma_magnitude_increases(y, x);
    }
    let c = double_of_single(narrow);
    let z = abs_bits(c);
    if x < z {
        crate::number::lemma_magnitude_increases(x, z);
    }
    if z < x {
        crate::number::lemma_magnitude_increases(z, x);
    }
}

/// A binary32 number.
#[derive(Clone, Copy, Debug)]
pub struct Single {
    /// The bit pattern of the number.
    pub bits: u32,
}

impl View for Single {
    type V = u32;

    open spec fn view(&self) -> u32 {
        self.bits
    }
}

impl Single {
    /// The number with the given bit pattern.
    pub fn from_bits(bits: u32) -> (s: Single)
        ensures
            s@ == bits,
    {
        Single { bits }
    }

    /// The bit pattern of the number.
    pub fn to_bits(&self) -> (bits: u32)
        ensures
            bits == self@,
    {
        self.bits
    }
}

/// The binary64 pattern without sign of a binary32 pattern without sign.
fn widen_magnitude(m: u32) -> (wide: u64)
    requires
        m < SINGLE_SIGN_BIT,
    ensures
        wide < SIGN_BIT,
        widens_to(wide, m),
{
    let field: u32 = m / SINGLE_HIDDEN_BIT;
    let fraction: u32 = m % SINGLE_HIDDEN_BIT;
    proof {
        vstd::arithmetic::power2::lemma2_to64();
        vstd::arithmetic::power2::lemma2_to64_rest();
        assert(single_exponent_field(m) == field && single_fraction_field(m) == fraction);
    }
    if field == 255 {
        let payload: u64 = fraction as u64 * FRACTION_SHIFT;
        if fraction == 0 {
            INFINITY
        } else if payload < QUIET_BIT {
            INFINITY + payload + QUIET_BIT
        } else {
            INFINITY + payload
        }
    } else if field == 0 {
        if fraction == 0 {
            proof {
                assert(magnitude(0) == 0);
                assert(0 * pow2(925) == 0);
            }
            return 0;
        }
        let len: u32 = bit_length(fraction as u128);
        proof {
            if len > 23 {
                vstd::arithmetic::power2::lemma_pow2_strictly_increases(23, (len - 1) as nat);
            }
        }
        let shift: u32 = 53 - len;
        let factor: u128 = power_of_two(shift);
        proof {
            vstd::arithmetic::power2::lemma_pow2_adds((len - 1) as nat, shift as nat);
            vstd::arithmetic::power2::lemma_pow2_adds(len as nat, shift as nat);
            lemma_mul_bounds(
                pow2((len - 1) as nat) as int,
                fraction as int,
                pow2(len as nat) as int,
                factor as int,
            );
        }
        let significand: u64 = (fraction as u128 * factor) as u64;
        let wide_field: u64 = len as u64 + 873;
        let wide: u64 = (wide_field - 1) * HIDDEN_BIT + significand;
        proof {
            lemma_magnitude_of_parts(wide_field as nat, significand as nat);
            vstd::arithmetic::power2::lemma_pow2_adds(shift as nat, (wide_field - 1) as nat);
            assert(fraction * factor * pow2((wide_field - 1) as nat) == fraction * (factor * pow2(
                (wide_field - 1) as nat,
            ))) by (nonlinear_arith);
        }
        wide
    } else {
        let significand: u64 = (SINGLE_HIDDEN_BIT as u64 + fraction as u64) * FRACTION_SHIFT;
        let wide_field: u64 = field as u64 + 896;
        let wide: u64 = (wide_field - 1) * HIDDEN_BIT + significand;
        proof {
            lemma_magnitude_of_parts(wide_field as nat, significand as nat);
            vstd::arithmetic::power2::lemma_pow2_adds(29, (wide_field - 1) as nat);
            vstd::arithmetic::power2::lemma_pow2_adds((field - 1) as nat, 925);
            let narrow = (SINGLE_HIDDEN_BIT + fraction) as int;
            assert(narrow * FRACTION_SHIFT * pow2((wide_field - 1) as nat) == narrow * (pow2(29)
                * pow2((wide_field - 1) as nat))) by (nonlinear_arith)
                requires
                    pow2(29) == FRACTION_SHIFT,
            ;
            assert(narrow * pow2((field - 1) as nat) * pow2(925) == narrow * (pow2(
                (field - 1) as nat,
            ) * pow2(925))) by (nonlinear_arith);
        }
        wide
    }
}

impl Double {
    /// The binary64 number that a binary32 number is widened to. Every finite
    /// number and both infinities keep their value; a NaN stays a NaN.
    pub fn from_single(s: Single) -> (d: Double)
        ensures
            widens_to(d@, s@),
            d@ == double_of_single(s@),
    {
        let bits: u32 = s.bits;
        let wide: u64 = if bits >= SINGLE_SIGN_BIT {
            widen_magnitude(bits - SINGLE_SIGN_BIT) + SIGN_BIT
        } else {
            widen_magnitude(bits)
        };
        proof {
            lemma_widening_is_unique(wide, wide, bits);
        }
        Double { bits: wide }
    }
}

} // verus!
