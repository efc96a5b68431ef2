//! IEEE 754 binary64 numbers, held as their bit patterns.
//!
//! A pattern has a sign bit, eleven exponent bits and fifty-two fraction bits.
//! Every finite number is a whole multiple of 2^-1074, the smallest positive
//! number of the format, so the model of a finite pattern is its sign and that
//! multiple, a natural number.

use vstd::prelude::*;
use vstd::arithmetic::power2::pow2;
use crate::arithmetic::{lemma_common_factor, lemma_mul_bounds, lemma_quotient_bounds, power_of_two};

verus! {

/// The sign bit.
pub const SIGN_BIT: u64 = 0x8000_0000_0000_0000;

/// The pattern of positive infinity: the least pattern that is not finite.
pub const INFINITY: u64 = 0x7ff0_0000_0000_0000;

/// 2^52: the weight of the lowest exponent bit, and the implicit leading bit of
/// a normal number's significand.
pub const HIDDEN_BIT: u64 = 0x10_0000_0000_0000;

/// The sign bit is set.
pub open spec fn sign_negative(bits: u64) -> bool {
    bits >= SIGN_BIT
}

/// The pattern without its sign bit.
pub open spec fn abs_bits(bits: u64) -> u64 {
    if bits >= SIGN_BIT {
        (bits - SIGN_BIT) as u64
    } else {
        bits
    }
}

/// The pattern is a zero, a subnormal or a normal number.
pub open spec fn is_finite(bits: u64) -> bool {
    abs_bits(bits) < INFINITY
}

/// The pattern is positive or negative infinity.
pub open spec fn is_infinite(bits: u64) -> bool {
    abs_bits(bits) == INFINITY
}

/// The pattern is a NaN: all exponent bits set and a fraction that is not zero.
pub open spec fn is_nan(bits: u64) -> bool {
    abs_bits(bits) > INFINITY
}

/// The pattern is positive or negative zero.
pub open spec fn is_zero(bits: u64) -> bool {
    abs_bits(bits) == 0
}

/// The exponent bits, as a number.
pub open spec fn exponent_field(bits: u64) -> nat {
    (abs_bits(bits) / HIDDEN_BIT) as nat
}

/// The fraction bits, as a number.
pub open spec fn fraction_field(bits: u64) -> nat {
    (abs_bits(bits) % HIDDEN_BIT) as nat
}

/// The magnitude of a finite pattern, counted in units of 2^-1074.
pub open spec fn magnitude(bits: u64) -> nat {
    if exponent_field(bits) == 0 {
        fraction_field(bits)
    } else {
        ((HIDDEN_BIT + fraction_field(bits)) * pow2((exponent_field(bits) - 1) as nat)) as nat
    }
}

/// The magnitude of the whole number `n` in the same units.
pub open spec fn scaled(n: nat) -> nat {
    n * pow2(1074)
}

/// The pattern is a finite whole number.
pub open spec fn is_whole(bits: u64) -> bool {
    is_finite(bits) && magnitude(bits) % pow2(1074) == 0
}

/// The magnitude of a pattern in whole units, fractions dropped.
pub open spec fn whole_magnitude(bits: u64) -> nat {
    magnitude(bits) / pow2(1074)
}

/// Numeric equality of two patterns: no NaN equals anything, the two zeros are
/// equal, and every other number equals only its own pattern.
pub open spec fn number_eq(a: u64, b: u64) -> bool {
    &&& !is_nan(a)
    &&& !is_nan(b)
    &&& (a == b || (is_zero(a) && is_zero(b)))
}

/// From one finite pattern to the next the magnitude grows by one unit in the
/// last place.
pub proof fn lemma_magnitude_step(m: u64)
    requires
        m + 1 < INFINITY,
    ensures
        magnitude((m + 1) as u64) == magnitude(m) + (if exponent_field(m) == 0 {
            1
        } else {
            pow2((exponent_field(m) - 1) as nat)
        }),
        magnitude(m) < magnitude((m + 1) as u64),
{
    let e = exponent_field(m);
    let f = fraction_field(m);
    let next = (m + 1) as u64;
    vstd::arithmetic::power2::lemma2_to64();
    if f + 1 < HIDDEN_BIT {
        assert(exponent_field(next) == e && fraction_field(next) == f + 1);
        if e > 0 {
            let p = pow2((e - 1) as nat);
            vstd::arithmetic::power2::lemma_pow2_pos((e - 1) as nat);
            assert((HIDDEN_BIT + (f + 1)) * p == (HIDDEN_BIT + f) * p + p) by (nonlinear_arith);
        }
    } else {
        assert(exponent_field(next) == e + 1 && fraction_field(next) == 0);
        if e > 0 {
            let p = pow2((e - 1) as nat);
            vstd::arithmetic::power2::lemma_pow2_pos((e - 1) as nat);
            vstd::arithmetic::power2::lemma_pow2_unfold(e);
            assert(HIDDEN_BIT * (2 * p) == (HIDDEN_BIT + f) * p + p) by (nonlinear_arith)
                requires
                    f + 1 == HIDDEN_BIT,
            ;
        }
    }
}

/// Among finite patterns without sign, a greater pattern is a greater number.
pub proof fn lemma_magnitude_increases(a: u64, b: u64)
    requires
        a < b < INFINITY,
    ensures
        magnitude(a) < magnitude(b),
    decreases b - a,
{
    let before = (b - 1) as u64;
    lemma_magnitude_step(before);
    if a < before {
        lemma_magnitude_increases(a, before);
    }
}

/// Numeric equality compares values: two finite patterns are equal as numbers
/// exactly when they have the same magnitude and, unless that is zero, the same
/// sign.
pub proof fn lemma_number_eq_compares_values(a: u64, b: u64)
    requires
        is_finite(a),
        is_finite(b),
    ensures
        number_eq(a, b) <==> (magnitude(a) == magnitude(b) && (magnitude(a) == 0 || sign_negative(a)
            == sign_negative(b))),
{
    let x = abs_bits(a);
    let y = abs_bits(b);
    assert(magnitude(a) == magnitude(x) && magnitude(b) == magnitude(y));
    assert(magnitude(0) == 0);
    if x < y {
        lemma_magnitude_increases(x, y);
    }
    if y < x {
        lemma_magnitude_increases(y, x);
    }
    if 0 < x {
        lemma_magnitude_increases(0, x);
    }
}

/// The magnitude of a normal pattern that is put together from its exponent
/// bits and its significand.
pub(crate) proof fn lemma_magnitude_of_parts(field: nat, significand: nat)
    requires
        1 <= field < 2047,
        HIDDEN_BIT <= significand < 2 * HIDDEN_BIT,
    ensures
        (field - 1) * HIDDEN_BIT + significand < INFINITY,
        magnitude(((field - 1) * HIDDEN_BIT + significand) as u64) == significand * pow2(
            (field - 1) as nat,
        ),
        (((field - 1) * HIDDEN_BIT + significand) as u64) % 2 == significand % 2,
{
    let m = ((field - 1) * HIDDEN_BIT + significand) as u64;
    let fraction = significand - HIDDEN_BIT;
    assert(m == field * HIDDEN_BIT + fraction);
    vstd::arithmetic::div_mod::lemma_fundamental_div_mod_converse(
        m as int,
        HIDDEN_BIT as int,
        field as int,
        fraction as int,
    );
}

/// The whole number that a finite pattern holds the magnitude of, where it holds
/// one that is below 2^64.
fn whole_of(m: u64) -> (r: Option<u64>)
    requires
        m < INFINITY,
    ensures
        r == (if is_whole(m) && whole_magnitude(m) <= u64::MAX {
            Some(whole_magnitude(m) as u64)
        } else {
            None
        }),
{
    let field: u64 = m / HIDDEN_BIT;
    let fraction: u64 = m % HIDDEN_BIT;
    let ghost unit = pow2(1074) as int;
    proof {
        vstd::arithmetic::power2::lemma2_to64();
        vstd::arithmetic::power2::lemma2_to64_rest();
        vstd::arithmetic::power2::lemma_pow2_pos(1074);
        assert(exponent_field(m) == field && fraction_field(m) == fraction);
    }
    if field == 0 {
        proof {
            vstd::arithmetic::power2::lemma_pow2_strictly_increases(52, 1074);
            vstd::arithmetic::div_mod::lemma_small_mod(fraction as nat, unit as nat);
            vstd::arithmetic::div_mod::lemma_basic_div(fraction as int, unit);
        }
        return if fraction == 0 {
            Some(0)
        } else {
            None
        };
    }
    let significand: u64 = HIDDEN_BIT + fraction;
    let ghost scale = pow2((field - 1) as nat) as int;
    proof {
        vstd::arithmetic::power2::lemma_pow2_pos((field - 1) as nat);
        assert(magnitude(m) == significand * scale);
    }
    if field < 1023 {
        proof {
            vstd::arithmetic::power2::lemma_pow2_adds(53, (field - 1) as nat);
            if field + 52 < 1074 {
                vstd::arithmetic::power2::lemma_pow2_strictly_increases(
                    (field + 52) as nat,
                    1074,
                );
            }
            lemma_mul_bounds(HIDDEN_BIT as int, significand as int, pow2(53) as int, scale);
            assert(0 < magnitude(m) < unit);
            vstd::arithmetic::div_mod::lemma_small_mod(magnitude(m), unit as nat);
            assert(!is_whole(m));
        }
        None
    } else if field <= 1075 {
        let shift: u32 = (1075 - field) as u32;
        let divisor: u64 = power_of_two(shift) as u64;
        proof {
            vstd::arithmetic::power2::lemma_pow2_adds((field - 1) as nat, shift as nat);
            lemma_common_factor(significand as int, divisor as int, scale);
            assert(significand * scale == scale * significand) by (nonlinear_arith);
            lemma_quotient_bounds(significand as int, divisor as int);
            assert((significand / divisor) * divisor >= significand / divisor) by (nonlinear_arith)
                requires
                    divisor >= 1,
                    significand / divisor >= 0,
            ;
            assert(unit == scale * divisor);
            assert(is_whole(m) <==> significand % divisor == 0);
            assert(whole_magnitude(m) == significand / divisor);
        }
        if significand % divisor == 0 {
            Some(significand / divisor)
        } else {
            None
        }
    } else {
        let shift: u32 = (field - 1075) as u32;
        proof {
            vstd::arithmetic::power2::lemma_pow2_adds(shift as nat, 1074);
            vstd::arithmetic::power2::lemma_pow2_pos(shift as nat);
            let factor = pow2(shift as nat) as int;
            assert(significand * scale == (significand * factor) * unit) by (nonlinear_arith)
                requires
                    scale == factor * unit,
            ;
            vstd::arithmetic::div_mod::lemma_mod_multiples_basic(significand * factor, unit);
            vstd::arithmetic::div_mod::lemma_div_by_multiple(significand * factor, unit);
            assert(whole_magnitude(m) == significand * factor);
            assert(is_whole(m));
            if shift <= 11 {
                vstd::arithmetic::power2::lemma_pow2_adds(shift as nat, (11 - shift) as nat);
                vstd::arithmetic::power2::lemma_pow2_pos((11 - shift) as nat);
                assert(factor <= pow2(11)) by (nonlinear_arith)
                    requires
                        pow2(11) == factor * pow2((11 - shift) as nat),
                        pow2((11 - shift) as nat) >= 1,
                        factor >= 1,
                ;
                lemma_mul_bounds(0, factor - 1, pow2(11) as int, significand as int);
                assert(significand * factor <= significand * pow2(11)) by (nonlinear_arith)
                    requires
                        factor <= pow2(11),
                        significand >= 0,
                ;
            } else {
                vstd::arithmetic::power2::lemma_pow2_adds(12, (shift - 12) as nat);
                vstd::arithmetic::power2::lemma_pow2_pos((shift - 12) as nat);
                assert(significand * factor >= HIDDEN_BIT * pow2(12)) by (nonlinear_arith)
                    requires
                        factor == pow2(12) * pow2((shift - 12) as nat),
                        pow2((shift - 12) as nat) >= 1,
                        significand >= HIDDEN_BIT,
                        pow2(12) == 0x1000,
                ;
            }
        }
        if shift <= 11 {
            let factor: u64 = power_of_two(shift) as u64;
            Some(significand * factor)
        } else {
            None
        }
    }
}

/// A binary64 number.
#[derive(Clone, Copy, Debug)]
pub struct Double {
    /// The bit pattern of the number.
    pub bits: u64,
}

impl View for Double {
    type V = u64;

    open spec fn view(&self) -> u64 {
        self.bits
    }
}

impl Double {
    /// The number with the given bit pattern.
    pub fn from_bits(bits: u64) -> (d: Double)
        ensures
            d@ == bits,
    {
        Double { bits }
    }

    /// The bit pattern of the number.
    pub fn to_bits(&self) -> (bits: u64)
        ensures
            bits == self@,
    {
        self.bits
    }

    /// Whether the sign bit of the number is set.
    pub fn is_sign_negative(&self) -> (r: bool)
        ensures
            r == sign_negative(self@),
    {
        self.bits >= SIGN_BIT
    }

    /// Whether the number is a NaN.
    pub fn is_nan(&self) -> (r: bool)
        ensures
            r == is_nan(self@),
    {
        let bits: u64 = self.bits;
        let magnitude: u64 = bits & 0x7fff_ffff_ffff_ffff;
        assert(magnitude == abs_bits(bits)) by (bit_vector)
            requires
                magnitude == bits & 0x7fff_ffff_ffff_ffff,
        ;
        magnitude > INFINITY
    }

    /// Numeric equality.
    pub fn equals(&self, other: &Double) -> (r: bool)
        ensures
            r == number_eq(self@, other@),
    {
        let x: u64 = self.bits;
        let y: u64 = other.bits;
        let a: u64 = x & 0x7fff_ffff_ffff_ffff;
        let b: u64 = y & 0x7fff_ffff_ffff_ffff;
        assert(a == abs_bits(x)) by (bit_vector)
            requires
                a == x & 0x7fff_ffff_ffff_ffff,
        ;
        assert(b == abs_bits(y)) by (bit_vector)
            requires
                b == y & 0x7fff_ffff_ffff_ffff,
        ;
        a <= INFINITY && b <= INFINITY && (x == y || (a == 0 && b == 0))
    }

    /// The magnitude of the number as an integer, where the number is a whole
    /// number of a magnitude below 2^64.
    pub fn whole(&self) -> (r: Option<u64>)
        ensures
            r == (if is_whole(self@) && whole_magnitude(self@) <= u64::MAX {
                Some(whole_magnitude(self@) as u64)
            } else {
                None
            }),
    {
        let bits: u64 = self.bits;
        let m: u64 = if bits >= SIGN_BIT {
            bits - SIGN_BIT
        } else {
            bits
        };
        if m < INFINITY {
            whole_of(m)
        } else {
            None
        }
    }
}

impl PartialEq for Double {
    fn eq(&self, other: &Double) -> (r: bool) {
        self.equals(other)
    }
}

impl vstd::std_specs::cmp::PartialEqSpecImpl for Double {
    open spec fn obeys_eq_spec() -> bool {
        true
    }

    open spec fn eq_spec(&self, other: &Double) -> bool {
        number_eq(self@, other@)
    }
}

} // verus!
