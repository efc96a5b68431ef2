//! Facts about products, quotients and powers of two, and two small
//! computations with powers of two.

use vstd::prelude::*;
use vstd::arithmetic::power2::pow2;

verus! {

/// Multiplying by a positive factor keeps bounds.
pub(crate) proof fn lemma_mul_bounds(lo: int, n: int, hi: int, factor: int)
    by (nonlinear_arith)
    requires
        lo <= n < hi,
        0 < factor,
    ensures
        lo * factor <= n * factor < hi * factor,
{
}

/// A quotient and its divisor bound the dividend from both sides.
pub(crate) proof fn lemma_quotient_bounds(n: int, d: int)
    requires
        0 <= n,
        0 < d,
    ensures
        (n / d) * d <= n < (n / d) * d + d,
        0 <= n % d < d,
        n == (n / d) * d + n % d,
        0 <= n / d,
{
    vstd::arithmetic::div_mod::lemma_fundamental_div_mod(n, d);
    vstd::arithmetic::div_mod::lemma_mod_bound(n, d);
    vstd::arithmetic::div_mod::lemma_div_pos_is_pos(n, d);
    assert(d * (n / d) == (n / d) * d) by (nonlinear_arith);
}

/// A dividend between two multiples of the divisor has its quotient between the
/// two factors.
pub(crate) proof fn lemma_quotient_range(n: int, d: int, lo: int, hi: int)
    by (nonlinear_arith)
    requires
        0 < d,
        lo * d <= n < hi * d,
        (n / d) * d <= n < (n / d) * d + d,
    ensures
        lo <= n / d < hi,
{
}

/// A dividend, taken apart and scaled.
pub(crate) proof fn lemma_scaled_parts(q: int, d: int, r: int, unit: int)
    by (nonlinear_arith)
    ensures
        (q * d + r) * unit == q * (d * unit) + r * unit,
        (d - r) * unit == d * unit - r * unit,
{
}

/// Scaling by a positive unit keeps the order of two numbers.
pub(crate) proof fn lemma_mul_compare(a: int, b: int, unit: int)
    by (nonlinear_arith)
    requires
        0 < unit,
    ensures
        a <= b <==> a * unit <= b * unit,
        a == b <==> a * unit == b * unit,
{
}

/// A product of a positive factor is divided by another such product as the
/// other factors are divided.
pub(crate) proof fn lemma_common_factor(x: int, c: int, b: int)
    requires
        0 <= x,
        0 < c,
        0 < b,
    ensures
        0 < b * c,
        (b * x) % (b * c) == b * (x % c),
        (b * x) / (b * c) == x / c,
        (b * x) % (b * c) == 0 <==> x % c == 0,
{
    vstd::arithmetic::div_mod::lemma_truncate_middle(x, b, c);
    vstd::arithmetic::div_mod::lemma_div_multiples_vanish_quotient(b, x, c);
    vstd::arithmetic::div_mod::lemma_mod_bound(x, c);
    let r = x % c;
    assert(b * r == 0 <==> r == 0) by (nonlinear_arith)
        requires
            0 < b,
            0 <= r,
    ;
}

/// 2^128 is one more than the greatest 128-bit number.
pub(crate) proof fn lemma_pow2_128()
    ensures
        pow2(128) == u128::MAX + 1,
{
    vstd::arithmetic::power2::lemma2_to64();
    vstd::arithmetic::power2::lemma_pow2_adds(64, 64);
}

/// Shifting one to the left by `k` places gives 2^k.
pub(crate) proof fn lemma_shift_one(k: u32)
    requires
        k < 128,
    ensures
        (1u128 << k) == pow2(k as nat),
    decreases k,
{
    if k == 0 {
        assert((1u128 << 0u32) == 1) by (bit_vector);
        vstd::arithmetic::power2::lemma2_to64();
    } else {
        let j = (k - 1) as u32;
        assert((1u128 << k) == 2 * (1u128 << j)) by (bit_vector)
            requires
                0 < k < 128,
                j == k - 1,
        ;
        lemma_shift_one(j);
        vstd::arithmetic::power2::lemma_pow2_unfold(k as nat);
    }
}

/// 2^k.
pub(crate) fn power_of_two(k: u32) -> (p: u128)
    requires
        k < 128,
    ensures
        p == pow2(k as nat),
{
    proof {
        lemma_shift_one(k);
    }
    1u128 << k
}

/// The number of binary digits of `n`.
pub(crate) fn bit_length(n: u128) -> (len: u32)
    ensures
        len <= 128,
        n < pow2(len as nat),
        len > 0 ==> pow2((len - 1) as nat) <= n,
{
    let mut len: u32 = 0;
    let mut rest: u128 = n;
    proof {
        vstd::arithmetic::power2::lemma2_to64();
    }
    while rest > 0
        invariant
            len <= 128,
            rest as int == (n as int) / (pow2(len as nat) as int),
            len > 0 ==> pow2((len - 1) as nat) <= n,
        decreases rest,
    {
        proof {
            let p = pow2(len as nat) as int;
            vstd::arithmetic::power2::lemma_pow2_pos(len as nat);
            lemma_quotient_bounds(n as int, p);
            let q = (n as int) / p;
            assert(q * p >= p) by (nonlinear_arith)
                requires
                    q >= 1,
                    p > 0,
            ;
            if len == 128 {
                lemma_pow2_128();
            }
            vstd::arithmetic::power2::lemma_pow2_unfold((len + 1) as nat);
            vstd::arithmetic::div_mod::lemma_div_denominator(n as int, p, 2);
            assert(p * 2 == 2 * p);
        }
        rest = rest / 2;
        len = len + 1;
    }
    proof {
        vstd::arithmetic::power2::lemma_pow2_pos(len as nat);
        lemma_quotient_bounds(n as int, pow2(len as nat) as int);
    }
    len
}

} // verus!
