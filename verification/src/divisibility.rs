//! Greatest common divisors and the primality of the modulus, the facts that
//! back modular inversion.

use vstd::prelude::*;

use crate::modint::MOD;
use vstd::arithmetic::div_mod::{
    lemma_add_mod_noop, lemma_fundamental_div_mod, lemma_mod_multiples_basic, lemma_mod_self_0,
    lemma_mul_mod_noop_right, lemma_small_mod,
};
use vstd::arithmetic::mul::{lemma_mul_inequality, lemma_mul_is_commutative};

verus! {

/// The greatest common divisor, by the Euclidean recursion.
pub open spec fn gcd(a: nat, b: nat) -> nat
    decreases b,
{
    if b == 0 {
        a
    } else {
        gcd(b, a % b)
    }
}

/// The gcd of two numbers, not both zero, is positive.
pub proof fn lemma_gcd_pos(a: nat, b: nat)
    requires
        a > 0 || b > 0,
    ensures
        gcd(a, b) > 0,
    decreases b,
{
    if b != 0 {
        lemma_gcd_pos(b, a % b);
    }
}

/// The gcd divides both of its arguments.
pub proof fn lemma_gcd_divides(a: nat, b: nat)
    requires
        gcd(a, b) > 0,
    ensures
        a % gcd(a, b) == 0,
        b % gcd(a, b) == 0,
    decreases b,
{
    let g = gcd(a, b) as int;
    if b == 0 {
        lemma_mod_self_0(g);
        lemma_small_mod(0nat, g as nat);
    } else {
        lemma_gcd_divides(b, a % b);
        let q = a as int / b as int;
        let r = a as int % b as int;
        lemma_fundamental_div_mod(a as int, b as int);
        assert(a as int == q * (b as int) + r);
        assert((q * (b as int)) % g == 0) by {
            lemma_mul_mod_noop_right(q, b as int, g);
            assert(q * 0int == 0int) by (nonlinear_arith);
            lemma_small_mod(0nat, g as nat);
        }
        assert(a as int % g == 0) by {
            lemma_add_mod_noop(q * (b as int), r, g);
            lemma_small_mod(0nat, g as nat);
        }
    }
}

/// A positive divisor of a positive number is no larger than it.
pub proof fn lemma_divisor_le(n: int, d: int)
    requires
        n > 0,
        d > 0,
        n % d == 0,
    ensures
        d <= n,
{
    let q = n / d;
    lemma_fundamental_div_mod(n, d);
    assert(n == q * d);
    if q <= 0 {
        assert(q * d <= 0) by (nonlinear_arith)
            requires
                q <= 0,
                d > 0,
        ;
        assert(false);
    }
    lemma_mul_inequality(1, q, d);
}

/// The modulus has no divisor below 31596, the least integer whose square
/// exceeds it. The solver checks this by exhausting the range bit by bit.
proof fn lemma_no_small_factor(d: int)
    requires
        2 <= d < 31596,
    ensures
        (MOD as int) % d != 0,
{
    assert(forall|e: u32| 2 <= e < 31596 ==> #[trigger] (998244353u32 % e) != 0) by (bit_vector);
    let e = d as u32;
    assert(998244353u32 % e != 0);
}

/// The modulus is prime: no integer in `[2, MOD)` divides it.
pub proof fn lemma_modulus_prime(d: int)
    requires
        2 <= d < MOD,
    ensures
        (MOD as int) % d != 0,
{
    let p = MOD as int;
    if p % d == 0 {
        let q = p / d;
        lemma_fundamental_div_mod(p, d);
        lemma_mul_is_commutative(d, q);
        assert(p == q * d);
        if q <= 0 {
            assert(q * d <= 0) by (nonlinear_arith)
                requires
                    q <= 0,
                    d > 0,
            ;
            assert(false);
        }
        if q == 1 {
            assert(q * d == d) by (nonlinear_arith)
                requires
                    q == 1,
            ;
            assert(false);
        }
        assert(p % q == 0) by {
            lemma_mod_multiples_basic(d, q);
            lemma_mul_is_commutative(d, q);
        }
        if d < 31596 {
            lemma_no_small_factor(d);
            assert(false);
        } else {
            assert(q < 31596) by {
                if q >= 31596 {
                    assert(q * d >= 31596 * 31596) by (nonlinear_arith)
                        requires
                            q >= 31596,
                            d >= 31596,
                    ;
                    assert(false);
                }
            }
            lemma_no_small_factor(q);
            assert(false);
        }
    }
}

/// Every nonzero reduced value is coprime to the modulus.
pub proof fn lemma_coprime_to_modulus(a: nat)
    requires
        0 < a < MOD,
    ensures
        gcd(a, MOD as nat) == 1,
{
    let g = gcd(a, MOD as nat);
    lemma_gcd_pos(a, MOD as nat);
    lemma_gcd_divides(a, MOD as nat);
    lemma_divisor_le(a as int, g as int);
    if g != 1 {
        lemma_modulus_prime(g as int);
        assert(false);
    }
}

} // verus!
