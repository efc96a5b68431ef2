//! The rounding of integers to binary64 numbers.
//!
//! An integer becomes the number of its sign whose magnitude is nearest to its
//! own; where two are equally near, the one whose bit pattern is even. Integers
//! of a magnitude up to 2^53 are held exactly.

use vstd::prelude::*;
use vstd::arithmetic::power2::pow2;
use crate::arithmetic::{
    bit_length, lemma_mul_bounds, lemma_mul_compare, lemma_quotient_bounds, lemma_quotient_range,
    lemma_scaled_parts, power_of_two,
};
use crate::number::{
    abs_bits, exponent_field, is_finite, lemma_magnitude_increases, lemma_magnitude_of_parts,
    lemma_magnitude_step, magnitude, scaled, sign_negative, Double, HIDDEN_BIT, INFINITY, SIGN_BIT,
};

verus! {

/// How far the magnitude of a pattern is from the whole number `n`.
pub open spec fn distance(bits: u64, n: nat) -> nat {
    if magnitude(bits) >= scaled(n) {
        (magnitude(bits) - scaled(n)) as nat
    } else {
        (scaled(n) - magnitude(bits)) as nat
    }
}

/// `m` is the pattern of the finite number that is nearest to `n`; of two that are
/// equally near, it is the one whose last fraction bit is zero.
pub open spec fn nearest(m: u64, n: nat) -> bool {
    &&& m < INFINITY
    &&& forall|o: u64| o < INFINITY ==> distance(m, n) <= #[trigger] distance(o, n)
    &&& forall|o: u64|
        o < INFINITY && o != m && #[trigger] distance(o, n) == distance(m, n) ==> m % 2 == 0
}

/// `bits` is what the integer `x` is rounded to: it has the sign of `x`, and its
/// magnitude is the nearest to that of `x`, ties going to the even pattern.
pub open spec fn rounds_to(bits: u64, x: int) -> bool {
    &&& sign_negative(bits) == (x < 0)
    &&& nearest(abs_bits(bits), vstd::math::abs(x) as nat)
}

/// The pattern that the integer `x` is rounded to. There is exactly one.
pub open spec fn double_of_int(x: int) -> u64 {
    choose|bits: u64| rounds_to(bits, x)
}

/// `bits` holds exactly the integer `x`.
pub open spec fn holds_exactly(bits: u64, x: int) -> bool {
    &&& is_finite(bits)
    &&& sign_negative(bits) == (x < 0)
    &&& magnitude(bits) == scaled(vstd::math::abs(x) as nat)
}

/// A whole number that lies between two neighbouring patterns is nearest to the
/// one that is closer to it, and at the same distance from both to the even one.
pub proof fn lemma_nearest_of_neighbours(lo: u64, n: nat, up: bool)
    requires
        lo + 1 < INFINITY,
        magnitude(lo) <= scaled(n) <= magnitude((lo + 1) as u64),
        up ==> distance((lo + 1) as u64, n) <= distance(lo, n),
        !up ==> distance(lo, n) <= distance((lo + 1) as u64, n),
        distance(lo, n) == distance((lo + 1) as u64, n) ==> (up <==> lo % 2 == 1),
    ensures
        nearest(
            if up {
                (lo + 1) as u64
            } else {
                lo
            },
            n,
        ),
{
    let hi = (lo + 1) as u64;
    let m = if up {
        hi
    } else {
        lo
    };
    lemma_magnitude_step(lo);
    assert forall|o: u64| o < INFINITY implies distance(m, n) <= #[trigger] distance(o, n) by {
        if o < lo {
            lemma_magnitude_increases(o, lo);
        } else if o > hi {
            lemma_magnitude_increases(hi, o);
        }
    }
    assert forall|o: u64|
        o < INFINITY && o != m && #[trigger] distance(o, n) == distance(m, n) implies m % 2
        == 0 by {
        if o < lo {
            lemma_magnitude_increases(o, lo);
        } else if o > hi {
            lemma_magnitude_increases(hi, o);
        }
    }
}

/// A pattern that holds a whole number exactly is the nearest to it.
pub proof fn lemma_exact_is_nearest(m: u64, n: nat)
    requires
        m < INFINITY,
        magnitude(m) == scaled(n),
    ensures
        nearest(m, n),
{
    assert forall|o: u64|
        o < INFINITY && o != m && #[trigger] distance(o, n) == distance(m, n) implies m % 2
        == 0 by {
        if o < m {
            lemma_magnitude_increases(o, m);
        } else {
            lemma_magnitude_increases(m, o);
        }
    }
}

/// Only one pattern is the nearest to a whole number.
pub proof fn lemma_nearest_is_unique(a: u64, b: u64, n: nat)
    requires
        nearest(a, n),
        nearest(b, n),
    ensures
        a == b,
{
    if a != b {
        let lo = if a < b {
            a
        } else {
            b
        };
        let hi = if a < b {
            b
        } else {
            a
        };
        assert(distance(a, n) <= distance(b, n));
        assert(distance(b, n) <= distance(a, n));
        lemma_magnitude_increases(lo, hi);
        assert(lo % 2 == 0 && hi % 2 == 0);
        let mid = (lo + 1) as u64;
        lemma_magnitude_increases(lo, mid);
        lemma_magnitude_increases(mid, hi);
        assert(distance(lo, n) <= distance(mid, n));
    }
}

/// Among the patterns up to `last`, one is nearest to `n`.
proof fn lemma_nearest_up_to(n: nat, last: u64) -> (m: u64)
    requires
        last < INFINITY,
    ensures
        m <= last,
        forall|o: u64| o <= last ==> distance(m, n) <= #[trigger] distance(o, n),
    decreases last,
{
    if last == 0 {
        0
    } else {
        let before = lemma_nearest_up_to(n, (last - 1) as u64);
        if distance(last, n) < distance(before, n) {
            last
        } else {
            before
        }
    }
}

/// Every whole number has a nearest pattern.
pub proof fn lemma_nearest_exists(n: nat) -> (m: u64)
    ensures
        nearest(m, n),
{
    let first = lemma_nearest_up_to(n, (INFINITY - 1) as u64);
    if exists|o: u64| o < INFINITY && o != first && distance(o, n) == distance(first, n) {
        let other = choose|o: u64|
            o < INFINITY && o != first && distance(o, n) == distance(first, n);
        let lo = if first < other {
            first
        } else {
            other
        };
        let hi = if first < other {
            other
        } else {
            first
        };
        lemma_magnitude_increases(lo, hi);
        let next = (lo + 1) as u64;
        lemma_magnitude_increases(lo, next);
        if next < hi {
            lemma_magnitude_increases(next, hi);
            assert(distance(first, n) <= distance(next, n));
        }
        assert(hi == lo + 1);
        let even = if lo % 2 == 0 {
            lo
        } else {
            hi
        };
        assert forall|o: u64|
            o < INFINITY && o != even && #[trigger] distance(o, n) == distance(even, n) implies even
            % 2 == 0 by {}
        even
    } else {
        first
    }
}

/// Every integer is rounded to some pattern: the nearest finite number.
pub proof fn lemma_rounding_exists(x: int)
    ensures
        rounds_to(double_of_int(x), x),
{
    let m = lemma_nearest_exists(vstd::math::abs(x) as nat);
    let bits = if x < 0 {
        (m + SIGN_BIT) as u64
    } else {
        m
    };
    assert(rounds_to(bits, x));
}

/// Only one pattern is what an integer is rounded to.
pub proof fn lemma_rounding_is_unique(a: u64, b: u64, x: int)
    requires
        rounds_to(a, x),
        rounds_to(b, x),
    ensures
        a == b,
        a == double_of_int(x),
{
    lemma_nearest_is_unique(abs_bits(a), abs_bits(b), vstd::math::abs(x) as nat);
    let c = double_of_int(x);
    lemma_nearest_is_unique(abs_bits(a), abs_bits(c), vstd::math::abs(x) as nat);
}

/// A pattern that holds an integer exactly is what the integer is rounded to.
pub proof fn lemma_exact_is_rounding(bits: u64, x: int)
    requires
        holds_exactly(bits, x),
    ensures
        rounds_to(bits, x),
        bits == double_of_int(x),
{
    lemma_exact_is_nearest(abs_bits(bits), vstd::math::abs(x) as nat);
    lemma_rounding_is_unique(bits, bits, x);
}

/// The pattern without sign of the number that the whole number `n` is rounded
/// to.
fn round_magnitude(n: u128) -> (m: u64)
    ensures
        nearest(m, n as nat),
        n <= pow2(53) ==> magnitude(m) == scaled(n as nat),
{
    let len: u32 = bit_length(n);
    proof {
        vstd::arithmetic::power2::lemma2_to64();
        vstd::arithmetic::power2::lemma2_to64_rest();
    }
    if len == 0 {
        proof {
            assert(magnitude(0) == 0);
            assert(scaled(0) == 0);
            lemma_exact_is_nearest(0, 0);
        }
        return 0;
    }
    let ghost unit = pow2(1074);
    let field: u64 = len as u64 + 1022;
    if len <= 53 {
        let shift: u32 = 53 - len;
        let factor: u128 = power_of_two(shift);
        proof {
            vstd::arithmetic::power2::lemma_pow2_adds((len - 1) as nat, shift as nat);
            vstd::arithmetic::power2::lemma_pow2_adds(len as nat, shift as nat);
            lemma_mul_bounds(
                pow2((len - 1) as nat) as int,
                n as int,
                pow2(len as nat) as int,
                factor as int,
            );
        }
        let significand: u64 = (n * factor) as u64;
        let m: u64 = (field - 1) * HIDDEN_BIT + significand;
        proof {
            lemma_magnitude_of_parts(field as nat, significand as nat);
            vstd::arithmetic::power2::lemma_pow2_adds(shift as nat, (field - 1) as nat);
            assert(n * factor * pow2((field - 1) as nat) == n * (factor * pow2(
                (field - 1) as nat,
            ))) by (nonlinear_arith);
            lemma_exact_is_nearest(m, n as nat);
        }
        m
    } else {
        let shift: u32 = len - 53;
        let divisor: u128 = power_of_two(shift);
        proof {
            vstd::arithmetic::power2::lemma_pow2_pos(shift as nat);
        }
        let quotient: u128 = n / divisor;
        let rest: u128 = n % divisor;
        let half: u128 = divisor / 2;
        proof {
            lemma_quotient_bounds(n as int, divisor as int);
            vstd::arithmetic::power2::lemma_pow2_adds(52, shift as nat);
            vstd::arithmetic::power2::lemma_pow2_adds(53, shift as nat);
            lemma_quotient_range(
                n as int,
                divisor as int,
                pow2(52) as int,
                pow2(53) as int,
            );
        }
        let significand: u64 = quotient as u64;
        let lo: u64 = (field - 1) * HIDDEN_BIT + significand;
        let up: bool = rest > half || (rest == half && significand % 2 == 1);
        proof {
            let step = pow2((field - 1) as nat);
            lemma_magnitude_of_parts(field as nat, significand as nat);
            lemma_magnitude_step(lo);
            assert(exponent_field(lo) == field) by {
                vstd::arithmetic::div_mod::lemma_fundamental_div_mod_converse(
                    lo as int,
                    HIDDEN_BIT as int,
                    field as int,
                    (significand - HIDDEN_BIT) as int,
                );
            }
            vstd::arithmetic::power2::lemma_pow2_adds(shift as nat, 1074);
            assert(step == divisor * unit);
            vstd::arithmetic::power2::lemma_pow2_unfold(shift as nat);
            assert(divisor == 2 * half);
            lemma_scaled_parts(quotient as int, divisor as int, rest as int, unit as int);
            assert(magnitude(lo) == quotient * (divisor * unit));
            assert(scaled(n as nat) == magnitude(lo) + rest * unit);
            assert(magnitude((lo + 1) as u64) == magnitude(lo) + divisor * unit);
            assert(distance(lo, n as nat) == rest * unit);
            assert(distance((lo + 1) as u64, n as nat) == (divisor - rest) * unit);
            vstd::arithmetic::power2::lemma_pow2_pos(1074);
            lemma_mul_compare(rest as int, (divisor - rest) as int, unit as int);
            lemma_nearest_of_neighbours(lo, n as nat, up);
            if n <= pow2(53) {
                assert(rest == 0) by {
                    if len > 54 {
                        vstd::arithmetic::power2::lemma_pow2_strictly_increases(
                            53,
                            (len - 1) as nat,
                        );
                    }
                    assert(n == pow2(53));
                    assert(divisor == 2);
                    assert(quotient * divisor == quotient * 2) by (nonlinear_arith)
                        requires
                            divisor == 2,
                    ;
                }
                assert(!up);
            }
        }
        if up {
            lo + 1
        } else {
            lo
        }
    }
}

impl Double {
    /// The number that an unsigned integer is rounded to: the nearest one, and of
    /// two that are equally near the one with an even pattern. Integers up to
    /// 2^53 are held exactly.
    pub fn from_unsigned(n: u128) -> (d: Double)
        ensures
            rounds_to(d@, n as int),
            d@ == double_of_int(n as int),
            n <= pow2(53) ==> holds_exactly(d@, n as int),
    {
        let m: u64 = round_magnitude(n);
        proof {
            lemma_rounding_is_unique(m, m, n as int);
        }
        Double { bits: m }
    }

    /// The number that a signed integer is rounded to: the nearest one, and of
    /// two that are equally near the one with an even pattern. Integers of a
    /// magnitude up to 2^53 are held exactly.
    pub fn from_signed(i: i128) -> (d: Double)
        ensures
            rounds_to(d@, i as int),
            d@ == double_of_int(i as int),
            -pow2(53) <= i <= pow2(53) ==> holds_exactly(d@, i as int),
    {
        if i >= 0 {
            Double::from_unsigned(i as u128)
        } else {
            let n: u128 = if i == i128::MIN {
                0x8000_0000_0000_0000_0000_0000_0000_0000
            } else {
                (-i) as u128
            };
            let m: u64 = round_magnitude(n);
            let bits: u64 = m + SIGN_BIT;
            proof {
                lemma_rounding_is_unique(bits, bits, i as int);
            }
            Double { bits }
        }
    }
}

} // verus!
