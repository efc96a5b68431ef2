//! Greatest common divisor of two positive integers.

use vstd::prelude::*;

verus! {

/// `d` divides `n` without remainder.
pub open spec fn divides(d: nat, n: nat) -> bool {
    d > 0 && n % d == 0
}

/// `d` divides both `n` and `m`.
pub open spec fn common_divisor(d: nat, n: nat, m: nat) -> bool {
    divides(d, n) && divides(d, m)
}

/// `g` is the largest number that divides both `n` and `m`.
pub open spec fn is_gcd(g: nat, n: nat, m: nat) -> bool {
    &&& common_divisor(g, n, m)
    &&& forall|d: nat| #[trigger] common_divisor(d, n, m) ==> d <= g
}

/// Two numbers have only one greatest common divisor.
pub proof fn lemma_gcd_is_unique(g: nat, h: nat, n: nat, m: nat)
    requires
        is_gcd(g, n, m),
        is_gcd(h, n, m),
    ensures
        g == h,
{
}

/// Replacing `m` by its remainder modulo `n` keeps the common divisors.
pub proof fn lemma_common_divisor_rem(d: nat, n: nat, m: nat)
    requires
        n > 0,
    ensures
        common_divisor(d, n, m) <==> common_divisor(d, n, m % n),
{
    if d > 0 && n % d == 0 {
        let q = (m / n) as int;
        let r = (m % n) as int;
        let k = (n / d) as int;
        vstd::arithmetic::div_mod::lemma_fundamental_div_mod(m as int, n as int);
        vstd::arithmetic::div_mod::lemma_fundamental_div_mod(n as int, d as int);
        assert(n * q == d * (k * q)) by (nonlinear_arith)
            requires
                n == d * k,
        ;
        vstd::arithmetic::div_mod::lemma_mod_multiples_vanish(k * q, r, d as int);
    }
}

/// Computes the greatest common divisor of two positive integers.
pub fn gcd(n: u64, m: u64) -> (g: u64)
    requires
        n != 0,
        m != 0,
    ensures
        is_gcd(g as nat, n as nat, m as nat),
{
    let mut a: u64 = n;
    let mut b: u64 = m;
    while b != 0
        invariant
            a != 0,
            forall|d: nat|
                common_divisor(d, a as nat, b as nat) <==> common_divisor(d, n as nat, m as nat),
        decreases b, a,
    {
        if b < a {
            let t: u64 = b;
            b = a;
            a = t;
        }
        proof {
            assert forall|d: nat|
                common_divisor(d, a as nat, (b % a) as nat) <==> common_divisor(
                    d,
                    n as nat,
                    m as nat,
                ) by {
                lemma_common_divisor_rem(d, a as nat, b as nat);
            }
        }
        b = b % a;
    }
    proof {
        assert(common_divisor(a as nat, a as nat, 0)) by {
            vstd::arithmetic::div_mod::lemma_mod_self_0(a as int);
        }
        assert forall|d: nat| #[trigger] common_divisor(d, n as nat, m as nat) implies d <= a by {
            assert(common_divisor(d, a as nat, 0));
            if d > a {
                vstd::arithmetic::div_mod::lemma_small_mod(a as nat, d);
            }
        }
    }
    a
}

} // verus!
