//! Arithmetic in the prime field Z/MOD, with every element kept in canonical
//! reduced form: the carried integer is always in `[0, MOD)`.

use vstd::prelude::*;

use crate::divisibility::{gcd, lemma_coprime_to_modulus};
use vstd::arithmetic::div_mod::{
    lemma_fundamental_div_mod, lemma_fundamental_div_mod_converse_mod, lemma_mod_add_multiples_vanish,
    lemma_mod_bound, lemma_mod_self_0, lemma_mul_mod_noop, lemma_mul_mod_noop_left,
    lemma_mul_mod_noop_right, lemma_small_mod, lemma_sub_mod_noop,
};
use vstd::arithmetic::mul::lemma_mul_is_commutative;
use vstd::arithmetic::power::{lemma_pow0, lemma_pow1, lemma_pow_adds, lemma_pow_mod_noop,
    lemma_pow_multiplies, pow};

verus! {

/// The fixed NTT-friendly prime modulus: 119 * 2^23 + 1.
pub const MOD: usize = 998244353;

/// An element of the field Z/MOD.
#[derive(Debug, Clone, Copy, PartialEq, Eq, Structural)]
pub struct ModInt {
    pub val: usize,
}

/// `pow(b, e) % MOD`: the mathematical value that modular exponentiation returns.
pub open spec fn pow_mod(b: int, e: nat) -> int {
    pow(b, e) % (MOD as int)
}

impl ModInt {
    /// The canonical-form invariant: the carried value is reduced.
    pub open spec fn wf(self) -> bool {
        self.val < MOD
    }

    /// Builds a field element from an arbitrary integer by reduction.
    pub fn new(n: usize) -> (r: ModInt)
        ensures
            r.wf(),
            r.val == n % MOD,
    {
        ModInt { val: n % MOD }
    }

    /// The canonical integer value of the element.
    pub fn val(&self) -> (r: usize)
        ensures
            r == self.val,
    {
        self.val
    }

    /// Field addition.
    pub fn add(self, other: ModInt) -> (r: ModInt)
        requires
            self.wf(),
            other.wf(),
        ensures
            r.wf(),
            r.val == (self.val + other.val) % (MOD as int),
    {
        let s = self.val + other.val;
        if s < MOD {
            proof {
                lemma_small_mod(s as nat, MOD as nat);
            }
            ModInt { val: s }
        } else {
            proof {
                lemma_fundamental_div_mod_converse_mod(s as int, MOD as int, 1, s - MOD);
            }
            ModInt { val: s - MOD }
        }
    }

    /// Field subtraction. The result is `(self.val - other.val) % MOD` with the
    /// Euclidean remainder, so it lies in `[0, MOD)` even when `other` is larger.
    pub fn sub(self, other: ModInt) -> (r: ModInt)
        requires
            self.wf(),
            other.wf(),
        ensures
            r.wf(),
            r.val == (self.val - other.val) % (MOD as int),
    {
        if self.val >= other.val {
            proof {
                lemma_small_mod((self.val - other.val) as nat, MOD as nat);
            }
            ModInt { val: self.val - other.val }
        } else {
            proof {
                lemma_fundamental_div_mod_converse_mod(
                    self.val - other.val,
                    MOD as int,
                    -1,
                    MOD + self.val - other.val,
                );
            }
            ModInt { val: MOD + self.val - other.val }
        }
    }

    /// Field multiplication: the full product reduced mod MOD.
    pub fn mul(self, other: ModInt) -> (r: ModInt)
        requires
            self.wf(),
            other.wf(),
        ensures
            r.wf(),
            r.val == (self.val * other.val) % (MOD as int),
    {
        proof {
            assert(self.val * other.val <= (MOD - 1) * (MOD - 1)) by (nonlinear_arith)
                requires
                    self.val < MOD,
                    other.val < MOD,
            ;
        }
        let prod: u64 = (self.val as u64) * (other.val as u64);
        let red: u64 = prod % (MOD as u64);
        ModInt { val: red as usize }
    }

    /// Field negation: the additive inverse of `self`.
    pub fn neg(self) -> (r: ModInt)
        requires
            self.wf(),
        ensures
            r.wf(),
            r.val == (0 - self.val) % (MOD as int),
            (self.val + r.val) % (MOD as int) == 0,
    {
        let r = ModInt { val: 0 }.sub(self);
        proof {
            if self.val == 0 {
                lemma_small_mod(0nat, MOD as nat);
            } else {
                assert(r.val == MOD - self.val);
                assert((self.val + r.val) == MOD);
                lemma_mod_self_0(MOD as int);
            }
        }
        r
    }

    /// The multiplicative inverse of a nonzero element, by the extended
    /// Euclidean algorithm. Undefined on zero, which has no inverse: callers
    /// must not invoke it there.
    pub fn inv(&self) -> (r: ModInt)
        requires
            self.wf(),
            self.val != 0,
        ensures
            r.wf(),
            (self.val * r.val) % (MOD as int) == 1,
    {
        let p: u64 = MOD as u64;
        let a: u64 = self.val as u64;
        let mut r0: u64 = a;
        let mut r1: u64 = p;
        let mut s0: u64 = 1;
        let mut s1: u64 = 0;
        proof {
            lemma_small_mod(a as nat, p as nat);
            lemma_mod_self_0(p as int);
        }
        while r1 != 0
            invariant
                1 <= a < p,
                p == MOD,
                r0 <= p,
                r1 <= p,
                s0 < p,
                s1 < p,
                gcd(r0 as nat, r1 as nat) == gcd(a as nat, MOD as nat),
                (s0 * a) % (p as int) == r0 as int % (p as int),
                (s1 * a) % (p as int) == r1 as int % (p as int),
            decreases r1,
        {
            let q = r0 / r1;
            let r2 = r0 % r1;
            proof {
                assert((q % p) * s1 <= (MOD - 1) * (MOD - 1)) by (nonlinear_arith)
                    requires
                        q % p < MOD,
                        s1 < MOD,
                        p == MOD,
                ;
                lemma_mod_bound(((q % p) * s1) as int, p as int);
                lemma_inv_step(a as int, r0 as int, r1 as int, s0 as int, s1 as int, q as int);
            }
            let t = ((q % p) * s1) % p;
            let s2 = (s0 + p - t) % p;
            r0 = r1;
            r1 = r2;
            s0 = s1;
            s1 = s2;
        }
        proof {
            lemma_coprime_to_modulus(a as nat);
            assert(gcd(r0 as nat, 0nat) == r0 as nat);
            assert(r0 == 1);
            lemma_small_mod(1nat, p as nat);
            lemma_mul_is_commutative(s0 as int, a as int);
        }
        ModInt { val: s0 as usize }
    }

    /// Field division: multiplication by the inverse of `other`.
    pub fn div(self, other: ModInt) -> (r: ModInt)
        requires
            self.wf(),
            other.wf(),
            other.val != 0,
        ensures
            r.wf(),
            (r.val * other.val) % (MOD as int) == self.val,
    {
        let w = other.inv();
        let r = self.mul(w);
        proof {
            lemma_mul_inv_cancel(self.val as int, other.val as int, w.val as int);
        }
        r
    }

    /// In-place field addition.
    pub fn add_assign(&mut self, other: ModInt)
        requires
            old(self).wf(),
            other.wf(),
        ensures
            final(self).wf(),
            final(self).val == (old(self).val + other.val) % (MOD as int),
    {
        let r = self.add(other);
        *self = r;
    }

    /// In-place field subtraction.
    pub fn sub_assign(&mut self, other: ModInt)
        requires
            old(self).wf(),
            other.wf(),
        ensures
            final(self).wf(),
            final(self).val == (old(self).val - other.val) % (MOD as int),
    {
        let r = self.sub(other);
        *self = r;
    }

    /// In-place field multiplication.
    pub fn mul_assign(&mut self, other: ModInt)
        requires
            old(self).wf(),
            other.wf(),
        ensures
            final(self).wf(),
            final(self).val == (old(self).val * other.val) % (MOD as int),
    {
        let r = self.mul(other);
        *self = r;
    }

    /// In-place field division.
    pub fn div_assign(&mut self, other: ModInt)
        requires
            old(self).wf(),
            other.wf(),
            other.val != 0,
        ensures
            final(self).wf(),
            (final(self).val * other.val) % (MOD as int) == old(self).val,
    {
        let r = self.div(other);
        *self = r;
    }

    /// Binary exponentiation: `self` raised to `n`, mod MOD.
    pub fn pow(&self, n: usize) -> (r: ModInt)
        requires
            self.wf(),
        ensures
            r.wf(),
            r.val == pow_mod(self.val as int, n as nat),
    {
        let mut res = ModInt { val: 1 };
        let mut x = *self;
        let mut m = n;
        proof {
            lemma_pow0(x.val as int);
            lemma_pow1(x.val as int);
            lemma_small_mod(1nat, MOD as nat);
        }
        while m > 0
            invariant
                res.wf(),
                x.wf(),
                (res.val * pow(x.val as int, m as nat)) % (MOD as int) == pow_mod(
                    self.val as int,
                    n as nat,
                ),
            decreases m,
        {
            let ghost r0 = res.val as int;
            let ghost x0 = x.val as int;
            let ghost m0 = m as nat;
            if m % 2 == 1 {
                res = res.mul(x);
                proof {
                    lemma_pow_step_odd(r0, x0, m0);
                }
            }
            let ghost r1 = res.val as int;
            x = x.mul(x);
            m = m / 2;
            proof {
                lemma_pow_square_base(r1, x0, m as nat);
            }
        }
        proof {
            lemma_pow0(x.val as int);
            lemma_small_mod(res.val as nat, MOD as nat);
        }
        res
    }
}

/// One round of the extended Euclidean loop keeps the Bezout relation: the
/// updated coefficient still maps `a` onto the updated remainder, mod MOD.
proof fn lemma_inv_step(a: int, r0: int, r1: int, s0: int, s1: int, q: int)
    requires
        0 <= a,
        0 <= r0,
        0 < r1,
        0 <= s0 < MOD,
        0 <= s1 < MOD,
        (s0 * a) % (MOD as int) == r0 % (MOD as int),
        (s1 * a) % (MOD as int) == r1 % (MOD as int),
        q == r0 / r1,
    ensures
        ((((s0 + MOD - ((q % (MOD as int)) * s1) % (MOD as int)) % (MOD as int)) * a) % (
        MOD as int)) == (r0 % r1) % (MOD as int),
{
    let p = MOD as int;
    let t = ((q % p) * s1) % p;
    let s2 = (s0 + p - t) % p;
    let r2 = r0 % r1;
    lemma_mod_bound((q % p) * s1, p);
    lemma_mod_bound(s0 + p - t, p);
    assert(t % p == (q * s1) % p) by {
        lemma_mul_mod_noop_left(q, s1, p);
        lemma_small_mod(t as nat, p as nat);
    }
    assert(s2 % p == (s0 - t) % p) by {
        lemma_mod_add_multiples_vanish(s0 - t, p);
    }
    assert((s2 * a) % p == ((s0 - t) * a) % p) by {
        lemma_mul_mod_noop_left(s2, a, p);
        lemma_mul_mod_noop_left(s0 - t, a, p);
    }
    assert((s0 - t) * a == s0 * a - t * a) by (nonlinear_arith);
    assert((t * a) % p == (q * r1) % p) by {
        lemma_mul_mod_noop_left(t, a, p);
        lemma_mul_mod_noop_left(q * s1, a, p);
        assert((q * s1) * a == q * (s1 * a)) by (nonlinear_arith);
        lemma_mul_mod_noop_right(q, s1 * a, p);
        lemma_mul_mod_noop_right(q, r1, p);
    }
    assert((s0 * a - t * a) % p == (r0 - q * r1) % p) by {
        lemma_sub_mod_noop(s0 * a, t * a, p);
        lemma_sub_mod_noop(r0, q * r1, p);
    }
    assert(r0 - q * r1 == r2) by {
        lemma_fundamental_div_mod(r0, r1);
        lemma_mul_is_commutative(r1, q);
    }
}

/// The recursion behind the extended Euclidean algorithm, in ghost form:
/// carries the Bezout coefficients down to a unit remainder and hands back a
/// multiplicative inverse of `a`.
proof fn lemma_bezout_rec(a: int, r0: int, r1: int, s0: int, s1: int) -> (w: int)
    requires
        1 <= a < MOD,
        0 <= r0,
        0 <= r1,
        0 <= s0 < MOD,
        0 <= s1 < MOD,
        gcd(r0 as nat, r1 as nat) == gcd(a as nat, MOD as nat),
        (s0 * a) % (MOD as int) == r0 % (MOD as int),
        (s1 * a) % (MOD as int) == r1 % (MOD as int),
    ensures
        0 <= w < MOD,
        (w * a) % (MOD as int) == 1,
    decreases r1,
{
    let p = MOD as int;
    if r1 == 0 {
        lemma_coprime_to_modulus(a as nat);
        assert(gcd(r0 as nat, 0nat) == r0 as nat);
        assert(r0 == 1);
        lemma_small_mod(1nat, p as nat);
        s0
    } else {
        let q = r0 / r1;
        let r2 = r0 % r1;
        let t = ((q % p) * s1) % p;
        let s2 = (s0 + p - t) % p;
        lemma_mod_bound((q % p) * s1, p);
        lemma_mod_bound(s0 + p - t, p);
        lemma_inv_step(a, r0, r1, s0, s1, q);
        lemma_bezout_rec(a, r1, r2, s1, s2)
    }
}

/// Every nonzero reduced value has a multiplicative inverse mod MOD.
pub proof fn lemma_inverse_exists(a: int) -> (w: int)
    requires
        1 <= a < MOD,
    ensures
        0 <= w < MOD,
        (a * w) % (MOD as int) == 1,
{
    let p = MOD as int;
    lemma_small_mod(a as nat, p as nat);
    lemma_mod_self_0(p);
    let w = lemma_bezout_rec(a, a, p, 1, 0);
    lemma_mul_is_commutative(w, a);
    w
}

/// A product with a factor coprime to the modulus vanishes only when the
/// other factor does.
pub proof fn lemma_coprime_cancel(x: int, c: int)
    requires
        1 <= c < MOD,
        (x * c) % (MOD as int) == 0,
    ensures
        x % (MOD as int) == 0,
{
    let p = MOD as int;
    let w = lemma_inverse_exists(c);
    assert((x * c) * w == x * (c * w)) by (nonlinear_arith);
    lemma_mul_mod_noop_left(x * c, w, p);
    lemma_small_mod(0nat, p as nat);
    assert((0 * w) % p == 0) by {
        assert(0 * w == 0);
    }
    lemma_mul_mod_noop_right(x, c * w, p);
    assert((x * 1) % p == x % p);
}

/// Peeling one factor off a running product keeps the inverse relation: when
/// `a` inverts `f1 * c`, the product `a * c` inverts `f1`.
pub proof fn lemma_inverse_peel(a: int, f1: int, c: int)
    requires
        (a * ((f1 * c) % (MOD as int))) % (MOD as int) == 1,
    ensures
        (((a * c) % (MOD as int)) * f1) % (MOD as int) == 1,
{
    let p = MOD as int;
    lemma_mul_mod_noop_right(a, f1 * c, p);
    lemma_mul_mod_noop_left(a * c, f1, p);
    assert((a * c) * f1 == a * (f1 * c)) by (nonlinear_arith);
}

/// The batched-inverse coefficient identity: with `u` inverting `f * c`,
/// scaling `x` by `u` and then by `f` divides it by `c`.
pub proof fn lemma_batched_divide(x: int, u: int, f: int, c: int)
    requires
        0 <= x < MOD,
        (u * ((f * c) % (MOD as int))) % (MOD as int) == 1,
    ensures
        (c * ((((x * u) % (MOD as int)) * f) % (MOD as int))) % (MOD as int) == x,
{
    let p = MOD as int;
    let y = (x * u) % p;
    let f1 = (f * c) % p;
    lemma_mul_mod_noop_right(c, y * f, p);
    assert(c * (y * f) == y * (f * c)) by (nonlinear_arith);
    lemma_mul_mod_noop_right(y, f * c, p);
    lemma_mul_mod_noop_left(x * u, f1, p);
    assert((x * u) * f1 == x * (u * f1)) by (nonlinear_arith);
    lemma_mul_mod_noop_right(x, u * f1, p);
    lemma_small_mod(x as nat, p as nat);
}

/// Multiplying by `w` and then by `b` comes back to where it started when `w`
/// inverts `b`.
pub proof fn lemma_mul_inv_cancel(x: int, b: int, w: int)
    requires
        0 <= x < MOD,
        (b * w) % (MOD as int) == 1,
    ensures
        (((x * w) % (MOD as int)) * b) % (MOD as int) == x,
{
    let p = MOD as int;
    lemma_mul_mod_noop_left(x * w, b, p);
    assert((x * w) * b == x * (b * w)) by (nonlinear_arith);
    lemma_mul_mod_noop_right(x, b * w, p);
    lemma_small_mod(1nat, p as nat);
    lemma_small_mod(x as nat, p as nat);
}

/// Folding one factor of the base into the accumulator preserves the running
/// product when the exponent is odd.
proof fn lemma_pow_step_odd(r: int, x: int, m: nat)
    requires
        m % 2 == 1,
        0 <= r < MOD,
        0 <= x < MOD,
    ensures
        (((r * x) % (MOD as int)) * pow(x, (m - 1) as nat)) % (MOD as int) == (r * pow(x, m)) % (
        MOD as int),
{
    let p = MOD as int;
    let s = pow(x, (m - 1) as nat);
    lemma_pow1(x);
    lemma_pow_adds(x, 1nat, (m - 1) as nat);
    assert(pow(x, m) == x * s);
    assert(r * (x * s) == (r * x) * s) by (nonlinear_arith);
    lemma_mul_mod_noop(r * x, s, p);
    lemma_mul_mod_noop_right((r * x) % p, s, p);
}

/// Squaring the base and halving the exponent preserves the running product.
proof fn lemma_pow_square_base(r: int, x: int, h: nat)
    requires
        0 <= x < MOD,
    ensures
        (r * pow((x * x) % (MOD as int), h)) % (MOD as int) == (r * pow(x, 2 * h)) % (MOD as int),
{
    let p = MOD as int;
    lemma_pow_multiplies(x, 2nat, h);
    assert(pow(x, 2nat) == x * x) by {
        lemma_pow1(x);
        lemma_pow_adds(x, 1nat, 1nat);
    }
    assert(pow(pow(x, 2nat), h) == pow(x, 2 * h));
    lemma_pow_mod_noop(x * x, h, p);
    lemma_mul_mod_noop_right(r, pow((x * x) % p, h), p);
    lemma_mul_mod_noop_right(r, pow(x, 2 * h), p);
}

} // verus!
