//! Formal power series over the prime field: a finite coefficient sequence
//! read as the series it begins, with ring operations, shifts, and the
//! analytic operations built on convolution.

use vstd::prelude::*;

use crate::convolution::conv;
use crate::modint::{
    lemma_batched_divide, lemma_coprime_cancel, lemma_inverse_peel, ModInt, MOD,
};
use crate::poly::{
    at, conv_at, conv_partial, conv_seq, conv_sum, deriv_of, drv, is_zero_seq,
    lemma_conv_partial_beyond, lemma_conv_partial_congruent, lemma_conv_partial_delta_right,
    lemma_conv_partial_zero_left, lemma_conv_partial_zero_right, lemma_conv_sum_assoc,
    lemma_conv_sum_comm, lemma_drv_at, lemma_newton_exp_step, lemma_newton_inv_step,
    lemma_take_up_to_at, lemma_trim_at, lemma_trim_last, lemma_trim_len, one_at, shift_up,
    take_up_to, trim, vals, vec_wf,
};
use vstd::arithmetic::div_mod::{lemma_mod_twice, lemma_mul_mod_noop_left, lemma_small_mod};
use vstd::arithmetic::mul::lemma_mul_is_commutative;

verus! {

/// A formal power series: coefficient `i` of the carried vector is the
/// coefficient of `x^i`.
#[derive(Debug, Clone)]
pub struct FPS {
    pub coeff: Vec<ModInt>,
}

impl View for FPS {
    type V = Seq<int>;

    open spec fn view(&self) -> Seq<int> {
        vals(self.coeff@)
    }
}

impl FPS {
    /// Every coefficient is in canonical reduced form.
    pub open spec fn wf(self) -> bool {
        vec_wf(self.coeff@)
    }

    /// Wraps a coefficient vector as a series.
    pub fn new(coeff: Vec<ModInt>) -> (r: FPS)
        ensures
            r.coeff@ == coeff@,
            r@ == vals(coeff@),
    {
        FPS { coeff }
    }

    /// The number of stored coefficients.
    pub fn len(&self) -> (r: usize)
        ensures
            r == self@.len(),
    {
        self.coeff.len()
    }

    /// Whether the series is identically zero: every stored coefficient is
    /// the zero element (an empty sequence counts).
    pub fn is_empty(&self) -> (r: bool)
        ensures
            r == is_zero_seq(self@),
    {
        let mut i: usize = 0;
        while i < self.coeff.len()
            invariant
                i <= self.coeff.len(),
                forall|t: int| 0 <= t < i ==> self@[t] == 0,
            decreases self.coeff.len() - i,
        {
            if self.coeff[i].val != 0 {
                assert(self@[i as int] != 0);
                return false;
            }
            i = i + 1;
        }
        true
    }

    /// The coefficient of `x^n`: the zero element beyond the stored range.
    pub fn get(&self, n: usize) -> (r: ModInt)
        requires
            self.wf(),
        ensures
            r.wf(),
            r.val == at(self@, n as int),
    {
        if n < self.coeff.len() {
            self.coeff[n]
        } else {
            ModInt { val: 0 }
        }
    }

    /// Assigns the coefficient of `x^n`, growing the storage with zeros so
    /// that index `n` exists.
    pub fn set(&mut self, n: usize, a: ModInt)
        requires
            old(self).wf(),
            a.wf(),
            n < usize::MAX,
        ensures
            final(self).wf(),
            final(self)@.len() == if old(self)@.len() < n + 1 {
                n + 1
            } else {
                old(self)@.len() as int
            },
            final(self)@[n as int] == a.val,
            forall|i: int|
                0 <= i < final(self)@.len() && i != n ==> final(self)@[i] == at(old(self)@, i),
    {
        while self.coeff.len() < n + 1
            invariant
                self.wf(),
                self.coeff@.len() >= old(self).coeff@.len(),
                old(self).coeff@.len() < n + 1 ==> self.coeff@.len() <= n + 1,
                old(self).coeff@.len() >= n + 1 ==> self.coeff@.len() == old(self).coeff@.len(),
                n < usize::MAX,
                forall|i: int|
                    0 <= i < old(self).coeff@.len() ==> self.coeff@[i] == old(self).coeff@[i],
                forall|i: int|
                    old(self).coeff@.len() <= i < self.coeff@.len() ==> (#[trigger] self.coeff@[i]).val
                        == 0,
            decreases n + 1 - self.coeff.len(),
        {
            self.coeff.push(ModInt { val: 0 });
        }
        self.coeff[n] = a;
    }

    /// Drops the trailing zero coefficients.
    fn trim_zeros(&mut self)
        requires
            old(self).wf(),
        ensures
            final(self).wf(),
            final(self)@ == trim(old(self)@),
    {
        while self.coeff.len() > 0 && self.coeff[self.coeff.len() - 1].val == 0
            invariant
                self.wf(),
                trim(self@) == trim(old(self)@),
            decreases self.coeff.len(),
        {
            proof {
                assert(self@.drop_last() =~= vals(self.coeff@.drop_last()));
            }
            self.coeff.pop();
        }
    }

    /// Keeps the first `len` coefficients, then drops trailing zeros.
    pub fn truncate(&mut self, len: usize)
        requires
            old(self).wf(),
        ensures
            final(self).wf(),
            final(self)@ == trim(take_up_to(old(self)@, len as int)),
    {
        self.coeff.truncate(len);
        proof {
            assert(self@ =~= take_up_to(old(self)@, len as int));
        }
        self.trim_zeros();
    }

    /// Multiplies by `x^n`: every coefficient moves up `n` places and the
    /// `n` lowest coefficients are the zero element; trailing zeros are then
    /// dropped.
    pub fn shift_left(&mut self, n: usize)
        requires
            old(self).wf(),
            old(self)@.len() + n <= usize::MAX,
        ensures
            final(self).wf(),
            final(self)@ == trim(shift_up(old(self)@, n as int)),
            forall|i: int| 0 <= i < n ==> at(final(self)@, i) == 0,
            forall|i: int| 0 <= i ==> at(final(self)@, n + i) == at(old(self)@, i),
    {
        let l = self.coeff.len();
        let mut v: Vec<ModInt> = Vec::new();
        let mut i: usize = 0;
        while i < n
            invariant
                i <= n,
                v@.len() == i,
                vec_wf(v@),
                forall|t: int| 0 <= t < i ==> (#[trigger] v@[t]).val == 0,
            decreases n - i,
        {
            v.push(ModInt { val: 0 });
            i = i + 1;
        }
        let mut j: usize = 0;
        while j < l
            invariant
                self.wf(),
                self@ == old(self)@,
                l == self@.len(),
                j <= l,
                v@.len() == n + j,
                vec_wf(v@),
                forall|t: int| 0 <= t < n ==> (#[trigger] v@[t]).val == 0,
                forall|t: int| n <= t < v@.len() ==> #[trigger] v@[t] == self.coeff@[t - n],
            decreases l - j,
        {
            let c = self.coeff[j];
            v.push(c);
            j = j + 1;
        }
        self.coeff = v;
        proof {
            assert(self@ =~= shift_up(old(self)@, n as int));
        }
        self.trim_zeros();
        proof {
            let raised = shift_up(old(self)@, n as int);
            assert forall|i: int| 0 <= i < n implies at(self@, i) == 0 by {
                lemma_trim_at(raised, i);
            }
            assert forall|i: int| 0 <= i implies at(self@, n + i) == at(old(self)@, i) by {
                lemma_trim_at(raised, n + i);
            }
        }
    }

    /// Divides by `x^n`: discards the `n` lowest coefficients and shifts the
    /// rest down, then drops trailing zeros. Shifting by more than the
    /// stored length would discard every significant term, so it is
    /// excluded.
    pub fn shift_right(&mut self, n: usize)
        requires
            old(self).wf(),
            n <= old(self)@.len(),
        ensures
            final(self).wf(),
            final(self)@ == trim(old(self)@.skip(n as int)),
            forall|i: int| 0 <= i ==> at(final(self)@, i) == at(old(self)@, n + i),
    {
        let l = self.coeff.len();
        let mut v: Vec<ModInt> = Vec::new();
        let mut i: usize = n;
        while i < l
            invariant
                self.wf(),
                self@ == old(self)@,
                n <= i <= l,
                l == self@.len(),
                v@.len() == i - n,
                vec_wf(v@),
                forall|t: int| 0 <= t < v@.len() ==> #[trigger] v@[t] == self.coeff@[n + t],
            decreases l - i,
        {
            let c = self.coeff[i];
            v.push(c);
            i = i + 1;
        }
        self.coeff = v;
        proof {
            assert(self@ =~= old(self)@.skip(n as int));
        }
        self.trim_zeros();
        proof {
            let lowered = old(self)@.skip(n as int);
            assert forall|i: int| 0 <= i implies at(self@, i) == at(old(self)@, n + i) by {
                lemma_trim_at(lowered, i);
            }
        }
    }

    /// Coefficient-wise sum over the union of the index ranges; a missing
    /// side counts as zero.
    pub fn add(&self, other: &FPS) -> (r: FPS)
        requires
            self.wf(),
            other.wf(),
        ensures
            r.wf(),
            r@.len() == if self@.len() >= other@.len() {
                self@.len()
            } else {
                other@.len()
            },
            forall|i: int|
                0 <= i < r@.len() ==> r@[i] == (at(self@, i) + at(other@, i)) % (MOD as int),
    {
        let len = if self.coeff.len() >= other.coeff.len() {
            self.coeff.len()
        } else {
            other.coeff.len()
        };
        let mut v: Vec<ModInt> = Vec::new();
        let mut i: usize = 0;
        while i < len
            invariant
                self.wf(),
                other.wf(),
                i <= len,
                len == if self@.len() >= other@.len() {
                    self@.len()
                } else {
                    other@.len()
                },
                v@.len() == i,
                vec_wf(v@),
                forall|t: int|
                    0 <= t < i ==> (#[trigger] v@[t]).val == (at(self@, t) + at(other@, t)) % (
                    MOD as int),
            decreases len - i,
        {
            let c = self.get(i).add(other.get(i));
            v.push(c);
            i = i + 1;
        }
        FPS { coeff: v }
    }

    /// Coefficient-wise difference over the union of the index ranges.
    pub fn sub(&self, other: &FPS) -> (r: FPS)
        requires
            self.wf(),
            other.wf(),
        ensures
            r.wf(),
            r@.len() == if self@.len() >= other@.len() {
                self@.len()
            } else {
                other@.len()
            },
            forall|i: int|
                0 <= i < r@.len() ==> r@[i] == (at(self@, i) - at(other@, i)) % (MOD as int),
    {
        let len = if self.coeff.len() >= other.coeff.len() {
            self.coeff.len()
        } else {
            other.coeff.len()
        };
        let mut v: Vec<ModInt> = Vec::new();
        let mut i: usize = 0;
        while i < len
            invariant
                self.wf(),
                other.wf(),
                i <= len,
                len == if self@.len() >= other@.len() {
                    self@.len()
                } else {
                    other@.len()
                },
                v@.len() == i,
                vec_wf(v@),
                forall|t: int|
                    0 <= t < i ==> (#[trigger] v@[t]).val == (at(self@, t) - at(other@, t)) % (
                    MOD as int),
            decreases len - i,
        {
            let c = self.get(i).sub(other.get(i));
            v.push(c);
            i = i + 1;
        }
        FPS { coeff: v }
    }

    /// The product of the two series: delegates to convolution.
    pub fn mul(&self, other: &FPS) -> (r: FPS)
        requires
            self.wf(),
            other.wf(),
            self@.len() + other@.len() <= usize::MAX,
        ensures
            r.wf(),
            r@ == conv_seq(self@, other@),
    {
        FPS { coeff: conv(&self.coeff, &other.coeff) }
    }

    /// The additive inverse: every coefficient negated.
    pub fn neg(&self) -> (r: FPS)
        requires
            self.wf(),
        ensures
            r.wf(),
            r@.len() == self@.len(),
            forall|i: int| 0 <= i < r@.len() ==> r@[i] == (0 - self@[i]) % (MOD as int),
    {
        let mut v: Vec<ModInt> = Vec::new();
        let mut i: usize = 0;
        while i < self.coeff.len()
            invariant
                self.wf(),
                i <= self@.len(),
                v@.len() == i,
                vec_wf(v@),
                forall|t: int|
                    0 <= t < i ==> (#[trigger] v@[t]).val == (0 - self@[t]) % (MOD as int),
            decreases self.coeff.len() - i,
        {
            let c = ModInt { val: 0 }.sub(self.coeff[i]);
            v.push(c);
            i = i + 1;
        }
        FPS { coeff: v }
    }

    /// In-place sum.
    pub fn add_assign(&mut self, other: &FPS)
        requires
            old(self).wf(),
            other.wf(),
        ensures
            final(self).wf(),
            final(self)@.len() == if old(self)@.len() >= other@.len() {
                old(self)@.len()
            } else {
                other@.len()
            },
            forall|i: int|
                0 <= i < final(self)@.len() ==> final(self)@[i] == (at(old(self)@, i) + at(
                    other@,
                    i,
                )) % (MOD as int),
    {
        let r = self.add(other);
        *self = r;
    }

    /// In-place difference.
    pub fn sub_assign(&mut self, other: &FPS)
        requires
            old(self).wf(),
            other.wf(),
        ensures
            final(self).wf(),
            final(self)@.len() == if old(self)@.len() >= other@.len() {
                old(self)@.len()
            } else {
                other@.len()
            },
            forall|i: int|
                0 <= i < final(self)@.len() ==> final(self)@[i] == (at(old(self)@, i) - at(
                    other@,
                    i,
                )) % (MOD as int),
    {
        let r = self.sub(other);
        *self = r;
    }

    /// In-place product.
    pub fn mul_assign(&mut self, other: &FPS)
        requires
            old(self).wf(),
            other.wf(),
            old(self)@.len() + other@.len() <= usize::MAX,
        ensures
            final(self).wf(),
            final(self)@ == conv_seq(old(self)@, other@),
    {
        let r = self.mul(other);
        *self = r;
    }

    /// The reciprocal series to `len` coefficients: returns `g` with
    /// `f * g == 1` modulo `x^len`, by Newton iteration that doubles the
    /// matched precision each round. The constant term must be nonzero.
    pub fn inv(&self, len: usize) -> (r: FPS)
        requires
            self.wf(),
            self@.len() > 0,
            self@[0] != 0,
            len <= usize::MAX / 4,
        ensures
            r.wf(),
            r@.len() <= len,
            r@.len() > 0 ==> r@[r@.len() - 1] != 0,
            forall|k: int| 0 <= k < len ==> conv_at(self@, r@, k) == one_at(k),
    {
        let w = self.coeff[0].inv();
        let mut v0: Vec<ModInt> = Vec::new();
        v0.push(w);
        let mut g = FPS { coeff: v0 };
        let mut d: usize = 1;
        proof {
            assert(conv_partial(self@, g@, 0, 0) == 0);
            assert(conv_sum(self@, g@, 0) == at(self@, 0) * at(g@, 0));
            assert(at(g@, 0) == w.val);
            assert(at(self@, 0) == self@[0]);
            assert(conv_at(self@, g@, 0) == 1);
        }
        while d < len
            invariant
                self.wf(),
                g.wf(),
                self@.len() > 0,
                self@[0] != 0,
                len <= usize::MAX / 4,
                1 <= d,
                1 <= g@.len() <= d,
                forall|k: int| 0 <= k < d ==> conv_at(self@, g@, k) == one_at(k),
            decreases 2 * len - d,
        {
            let two_d = 2 * d;
            let flen = self.coeff.len();
            let cut = if two_d <= flen {
                two_d
            } else {
                flen
            };
            let mut ft: Vec<ModInt> = Vec::new();
            let mut i: usize = 0;
            while i < cut
                invariant
                    self.wf(),
                    cut <= self@.len(),
                    i <= cut,
                    ft@.len() == i,
                    vec_wf(ft@),
                    forall|t: int| 0 <= t < i ==> #[trigger] ft@[t] == self.coeff@[t],
                decreases cut - i,
            {
                let c = self.coeff[i];
                ft.push(c);
                i = i + 1;
            }
            let ghost ftv = vals(ft@);
            let ghost gv = g@;
            proof {
                assert(ftv =~= take_up_to(self@, two_d as int));
            }
            let t = conv(&ft, &g.coeff);
            proof {
                assert(ftv.len() >= 1);
                assert(gv.len() >= 1);
                assert(vals(t@) == conv_seq(ftv, gv));
                assert(conv_seq(ftv, gv).len() == ftv.len() + gv.len() - 1);
                assert(t@.len() == vals(t@).len());
            }
            let mut u: Vec<ModInt> = Vec::new();
            let mut j: usize = 0;
            while j < two_d
                invariant
                    vec_wf(t@),
                    vals(t@) == conv_seq(ftv, gv),
                    t@.len() == ftv.len() + gv.len() - 1,
                    ftv.len() >= 1,
                    gv.len() >= 1,
                    j <= two_d,
                    u@.len() == j,
                    vec_wf(u@),
                    forall|q: int|
                        0 <= q < j ==> (#[trigger] u@[q]).val == (2 * one_at(q) - conv_at(
                            ftv,
                            gv,
                            q,
                        )) % (MOD as int),
                decreases two_d - j,
            {
                let tj = if j < t.len() {
                    t[j]
                } else {
                    ModInt { val: 0 }
                };
                proof {
                    if j < t@.len() {
                        assert(tj.val == vals(t@)[j as int]);
                    } else {
                        lemma_conv_partial_beyond(ftv, gv, j as int, j + 1);
                        lemma_small_mod(0nat, MOD as nat);
                    }
                    assert(tj.val == conv_at(ftv, gv, j as int));
                }
                let uj = if j == 0 {
                    ModInt { val: 2 }.sub(tj)
                } else {
                    ModInt { val: 0 }.sub(tj)
                };
                u.push(uj);
                j = j + 1;
            }
            let mut nv = conv(&g.coeff, &u);
            let ghost full = nv@;
            nv.truncate(two_d);
            g = FPS { coeff: nv };
            proof {
                let uv = vals(u@);
                assert(uv.len() == two_d);
                assert(vals(full) == conv_seq(gv, uv));
                assert(conv_seq(gv, uv).len() == gv.len() + uv.len() - 1);
                assert(full.len() == gv.len() + two_d - 1);
                assert(g@.len() == two_d);
                assert forall|l: int| 0 <= l < two_d implies at(g@, l) == conv_at(gv, uv, l) by {
                    assert(g@[l] == vals(full)[l]);
                    assert(vals(full)[l] == conv_seq(gv, uv)[l]);
                }
                assert forall|k: int| 0 <= k < two_d implies conv_at(self@, g@, k) == one_at(k) by {
                    lemma_newton_inv_step(self@, gv, uv, g@, d as int, k);
                }
            }
            d = two_d;
        }
        let ghost gf = g@;
        let ghost whole = self@;
        g.truncate(len);
        proof {
            lemma_trim_len(take_up_to(gf, len as int));
            lemma_trim_last(take_up_to(gf, len as int));
            assert forall|k: int| 0 <= k < len implies conv_at(whole, g@, k) == one_at(k) by {
                assert forall|jj: int| 0 <= jj <= k implies at(g@, jj) % (MOD as int) == at(
                    gf,
                    jj,
                ) % (MOD as int) by {
                    lemma_trim_at(take_up_to(gf, len as int), jj);
                    lemma_take_up_to_at(gf, len as int, jj);
                }
                lemma_conv_partial_congruent(whole, whole, gf, g@, k, k + 1);
            }
        }
        g
    }

    /// The formal derivative: drops the constant term and scales coefficient
    /// `i+1` by `i+1`.
    pub fn derivative(&self) -> (r: FPS)
        requires
            self.wf(),
        ensures
            r.wf(),
            r@ == deriv_of(self@),
    {
        let mut v: Vec<ModInt> = Vec::new();
        let mut i: usize = 1;
        while i < self.coeff.len()
            invariant
                self.wf(),
                1 <= i,
                v@.len() == i - 1,
                self@.len() == 0 ==> i == 1,
                self@.len() >= 1 ==> i <= self@.len(),
                vec_wf(v@),
                forall|t: int|
                    0 <= t < v@.len() ==> (#[trigger] v@[t]).val == ((t + 1) * at(self@, t + 1)) % (
                    MOD as int),
            decreases self.coeff.len() - i,
        {
            let c = ModInt::new(i).mul(self.coeff[i]);
            proof {
                lemma_mul_mod_noop_left(i as int, self@[i as int], MOD as int);
            }
            v.push(c);
            i = i + 1;
        }
        let r = FPS { coeff: v };
        proof {
            assert(r@.len() == deriv_of(self@).len());
            assert forall|t: int| 0 <= t < r@.len() implies r@[t] == deriv_of(self@)[t] by {
                assert(r@[t] == v@[t].val);
            }
            assert(r@ =~= deriv_of(self@));
        }
        r
    }

    /// The logarithm of a series with constant term 1, to `len` coefficients:
    /// the integral of `f'/f`. The result `r` is pinned by the differential
    /// relation `r' * f == f'` through `len - 1` coefficients, together with
    /// its zero constant term.
    pub fn log(&self, len: usize) -> (r: FPS)
        requires
            self.wf(),
            self@.len() > 0,
            self@[0] == 1,
            1 <= len,
            len <= MOD,
            self@.len() + len <= usize::MAX,
        ensures
            r.wf(),
            r@.len() <= len,
            r@.len() > 0 ==> r@[r@.len() - 1] != 0,
            at(r@, 0) == 0,
            forall|k: int|
                0 <= k < len - 1 ==> conv_at(deriv_of(r@), self@, k) == at(deriv_of(self@), k),
    {
        let fd = self.derivative();
        let g = self.inv(len - 1);
        let mut h = fd.mul(&g);
        let ghost hfull = h@;
        h.truncate(len - 1);
        proof {
            lemma_trim_len(take_up_to(hfull, (len - 1) as int));
            assert(h@.len() <= len - 1);
        }
        let r = h.integral();
        proof {
            let p = MOD as int;
            let f = self@;
            let dr = deriv_of(r@);
            let hv = h@;
            // the result ends in a nonzero coefficient: the integrand was
            // trimmed, and integrating cannot turn its top coefficient to zero
            lemma_trim_last(take_up_to(hfull, (len - 1) as int));
            if is_zero_seq(hv) {
                assert(hv.len() == 0) by {
                    if hv.len() > 0 {
                        assert(hv[hv.len() - 1] != 0);
                        assert(hv[hv.len() - 1] == 0);
                    }
                }
                assert(r@ == hv);
            } else {
                let last = hv.len() - 1;
                assert(hv.len() > 0);
                assert(hv[last] != 0);
                assert(at(r@, last + 1) == 0 <==> hv[last] == 0);
                assert(r@.len() == hv.len() + 1);
                assert(r@[r@.len() - 1] == at(r@, last + 1));
            }
            assert forall|m: int| 0 <= m implies at(dr, m) == at(hv, m) by {
                if is_zero_seq(hv) {
                    assert(r@ == hv);
                    if 0 <= m < dr.len() {
                        assert(at(hv, m + 1) == 0);
                        assert((m + 1) * 0 == 0);
                        lemma_small_mod(0nat, MOD as nat);
                    }
                    if 0 <= m < hv.len() {
                        assert(at(hv, m) == 0);
                    }
                } else {
                    if 0 <= m < hv.len() {
                        assert(((m + 1) * at(r@, m + 1)) % p == hv[m]);
                    }
                }
            }
            assert forall|k: int| 0 <= k < len - 1 implies conv_at(dr, f, k) == at(
                deriv_of(f),
                k,
            ) by {
                let m = (k + 1) as nat;
                let fdg = Seq::new(m, |l: int| conv_sum(fd@, g@, l));
                let gf = Seq::new(m, |l: int| conv_sum(g@, f, l));
                let dl = Seq::new(m, |l: int| one_at(l));
                // the derivative of the integral reads back the integrand
                assert(conv_sum(dr, f, k) % p == conv_sum(hv, f, k) % p) by {
                    lemma_conv_partial_congruent(dr, hv, f, f, k, k + 1);
                }
                // truncation and trimming do not change the low coefficients
                assert(conv_sum(hv, f, k) % p == conv_sum(hfull, f, k) % p) by {
                    assert forall|i: int| 0 <= i < k + 1 implies at(hv, i) % p == at(
                        hfull,
                        i,
                    ) % p by {
                        lemma_trim_at(take_up_to(hfull, (len - 1) as int), i);
                        lemma_take_up_to_at(hfull, (len - 1) as int, i);
                    }
                    lemma_conv_partial_congruent(hv, hfull, f, f, k, k + 1);
                }
                // the product vector carries the convolution sums of f' and g
                assert(conv_sum(hfull, f, k) % p == conv_sum(fdg, f, k) % p) by {
                    assert forall|i: int| 0 <= i < k + 1 implies at(hfull, i) % p == at(
                        fdg,
                        i,
                    ) % p by {
                        assert(at(fdg, i) == conv_sum(fd@, g@, i));
                        if i < hfull.len() {
                            assert(at(hfull, i) == conv_at(fd@, g@, i));
                            lemma_mod_twice(conv_sum(fd@, g@, i), p);
                        } else {
                            if fd@.len() == 0 {
                                lemma_conv_partial_zero_left(fd@, g@, i, i + 1);
                            } else if g@.len() == 0 {
                                lemma_conv_partial_zero_right(fd@, g@, i, i + 1);
                            } else {
                                lemma_conv_partial_beyond(fd@, g@, i, i + 1);
                            }
                            lemma_small_mod(0nat, p as nat);
                        }
                    }
                    lemma_conv_partial_congruent(hfull, fdg, f, f, k, k + 1);
                }
                // regroup (f' * g) * f into f' * (g * f)
                lemma_conv_sum_assoc(fd@, g@, f, k, m);
                // g * f is the identity through len - 1 coefficients
                assert(conv_sum(fd@, gf, k) % p == conv_sum(fd@, dl, k) % p) by {
                    assert forall|l: int| 0 <= l <= k implies at(gf, l) % p == at(dl, l) % p by {
                        lemma_conv_sum_comm(g@, f, l);
                        lemma_mod_twice(conv_sum(g@, f, l), p);
                        assert(conv_at(f, g@, l) == one_at(l));
                        lemma_small_mod(one_at(l) as nat, p as nat);
                    }
                    lemma_conv_partial_congruent(fd@, fd@, gf, dl, k, k + 1);
                }
                // folding with the identity reads off the coefficient of f'
                assert(at(dl, 0) == 1);
                assert(forall|j: int| 1 <= j ==> at(dl, j) == 0);
                lemma_conv_partial_delta_right(fd@, dl, k, k + 1);
                assert(conv_sum(fd@, dl, k) == at(fd@, k));
                assert(at(fd@, k) % p == at(fd@, k)) by {
                    if 0 <= k < fd@.len() {
                        lemma_small_mod(fd@[k] as nat, p as nat);
                    } else {
                        lemma_small_mod(0nat, p as nat);
                    }
                }
            }
        }
        r
    }

    /// The exponential of a series with constant term 0, to `len`
    /// coefficients: Newton iteration on `g = g * (1 - log g + f)`, doubling
    /// the matched precision each round. The result has constant term 1.
    pub fn exp(&self, len: usize) -> (r: FPS)
        requires
            self.wf(),
            at(self@, 0) == 0,
            len <= MOD / 2,
        ensures
            r.wf(),
            r@.len() <= len,
            r@.len() > 0 ==> r@[r@.len() - 1] != 0,
            len >= 1 ==> at(r@, 0) == 1,
            forall|m: int|
                0 <= m < len - 1 ==> at(drv(r@), m) % (MOD as int) == conv_at(drv(self@), r@, m),
    {
        let mut v0: Vec<ModInt> = Vec::new();
        v0.push(ModInt { val: 1 });
        let one = FPS { coeff: v0 };
        let mut g = FPS { coeff: Vec::new() };
        let c1 = one.coeff[0];
        g.coeff.push(c1);
        let mut d: usize = 1;
        while d < len
            invariant
                self.wf(),
                at(self@, 0) == 0,
                len <= MOD / 2,
                one.wf(),
                one@.len() == 1,
                one@[0] == 1,
                1 <= d,
                g.wf(),
                1 <= g@.len() <= d,
                g@[0] == 1,
                forall|j: int|
                    0 <= j < d - 1 ==> at(drv(g@), j) % (MOD as int) == conv_at(drv(self@), g@, j),
            decreases 2 * len - d,
        {
            let two_d = 2 * d;
            let flen = self.coeff.len();
            let cut = if two_d <= flen {
                two_d
            } else {
                flen
            };
            let mut fv: Vec<ModInt> = Vec::new();
            let mut i: usize = 0;
            while i < cut
                invariant
                    self.wf(),
                    cut <= self@.len(),
                    i <= cut,
                    fv@.len() == i,
                    vec_wf(fv@),
                    forall|t: int| 0 <= t < i ==> #[trigger] fv@[t] == self.coeff@[t],
                decreases cut - i,
            {
                let c = self.coeff[i];
                fv.push(c);
                i = i + 1;
            }
            let ft = FPS { coeff: fv };
            proof {
                assert(at(ft@, 0) == at(self@, 0));
            }
            let lg = g.log(two_d);
            let t = ft.sub(&lg);
            let t2 = t.add(&one);
            let ghost gv = g@;
            let nm = g.mul(&t2);
            let ghost nmv = nm@;
            let mut nv = nm.coeff;
            nv.truncate(two_d);
            g = FPS { coeff: nv };
            proof {
                let p = MOD as int;
                assert(at(t@, 0) == 0) by {
                    if t@.len() >= 1 {
                        assert(t@[0] == (at(ft@, 0) - at(lg@, 0)) % p);
                        lemma_small_mod(0nat, p as nat);
                    }
                }
                assert(at(t2@, 0) == 1) by {
                    assert(t2@.len() >= 1);
                    assert(t2@[0] == (at(t@, 0) + at(one@, 0)) % p);
                    lemma_small_mod(1nat, p as nat);
                }
                assert(nmv[0] == conv_at(gv, t2@, 0));
                assert(conv_partial(gv, t2@, 0, 0) == 0);
                assert(conv_sum(gv, t2@, 0) == at(gv, 0) * at(t2@, 0));
                lemma_small_mod(1nat, p as nat);
                assert(g@[0] == 1);
                assert(1 <= g@.len() <= two_d);
                let fvw = self@;
                let t2v = t2@;
                // the update multiplier carries 1 + f - lg, coefficient-wise
                assert forall|j: int| 1 <= j < two_d implies at(t2v, j) % p == (at(fvw, j) - at(
                    lg@,
                    j,
                )) % p by {
                    lemma_small_mod(0nat, p as nat);
                    assert(at(ft@, j) == at(fvw, j));
                    if j < t2v.len() {
                        assert(t2v[j] == (at(t@, j) + at(one@, j)) % p);
                        assert(at(one@, j) == 0);
                        if j < t@.len() {
                            assert(t@[j] == (at(ft@, j) - at(lg@, j)) % p);
                            lemma_mod_twice(at(t@, j) + 0, p);
                            lemma_mod_twice(at(ft@, j) - at(lg@, j), p);
                        } else {
                            assert(at(t@, j) == 0);
                            assert(at(ft@, j) == 0 && at(lg@, j) == 0);
                            lemma_mod_twice(0, p);
                        }
                        lemma_mod_twice(at(t2v, j), p);
                    } else {
                        assert(at(t2v, j) == 0);
                        assert(at(ft@, j) == 0 && at(lg@, j) == 0);
                    }
                }
                assert(t2v.len() <= two_d);
                assert(forall|j: int| 2 * (d as int) <= j ==> at(t2v, j) == 0);
                // the truncated product reads as the convolution of g and t2
                assert forall|l: int| 0 <= l < two_d implies at(g@, l) == conv_at(gv, t2v, l) by {
                    if l < g@.len() {
                        assert(nmv == conv_seq(gv, t2v));
                        assert(g@.len() <= nmv.len());
                        assert(nmv.len() == gv.len() + t2v.len() - 1);
                        assert(g@[l] == nmv[l]);
                        assert(nmv[l] == conv_seq(gv, t2v)[l]);
                        assert(conv_seq(gv, t2v)[l] == conv_at(gv, t2v, l));
                        assert(at(g@, l) == g@[l]);
                    } else {
                        assert(nmv.len() == gv.len() + t2v.len() - 1);
                        assert(g@.len() == if two_d <= nmv.len() {
                            two_d as int
                        } else {
                            nmv.len() as int
                        });
                        assert(l >= gv.len() + t2v.len() - 1);
                        lemma_conv_partial_beyond(gv, t2v, l, l + 1);
                        lemma_small_mod(0nat, p as nat);
                    }
                }
                // one Newton round doubles the matched precision
                assert forall|j: int| 0 <= j < 2 * (d as int) - 1 implies at(drv(g@), j) % p
                    == conv_at(drv(fvw), g@, j) by {
                    lemma_newton_exp_step(fvw, gv, lg@, t2v, g@, d as int, j);
                }
            }
            d = two_d;
        }
        let ghost gf = g@;
        let ghost whole = self@;
        g.truncate(len);
        proof {
            let p = MOD as int;
            lemma_trim_len(take_up_to(gf, len as int));
            lemma_trim_last(take_up_to(gf, len as int));
            if len >= 1 {
                lemma_trim_at(take_up_to(gf, len as int), 0);
                lemma_take_up_to_at(gf, len as int, 0);
            }
            assert forall|m: int| 0 <= m < len - 1 implies at(drv(g@), m) % p == conv_at(
                drv(whole),
                g@,
                m,
            ) by {
                lemma_trim_at(take_up_to(gf, len as int), m + 1);
                lemma_take_up_to_at(gf, len as int, m + 1);
                lemma_drv_at(g@, m);
                lemma_drv_at(gf, m);
                assert(at(drv(g@), m) == at(drv(gf), m));
                assert(at(drv(gf), m) % p == conv_at(drv(whole), gf, m));
                assert forall|jj: int| 0 <= jj <= m implies at(g@, jj) % p == at(gf, jj) % p by {
                    lemma_trim_at(take_up_to(gf, len as int), jj);
                    lemma_take_up_to_at(gf, len as int, jj);
                }
                lemma_conv_partial_congruent(drv(whole), drv(whole), gf, g@, m, m + 1);
            }
        }
        g
    }

    /// The formal integral: a zero constant term, and coefficient `i` divided
    /// by `i+1` at position `i+1`. The identically-zero series comes back
    /// unchanged. The divisions are batched through factorial and
    /// inverse-factorial tables, so one modular inversion serves every
    /// coefficient. Each new coefficient is pinned by the relation
    /// `(i+1) * r[i+1] == self[i]` mod MOD, and is zero exactly where the
    /// input coefficient is.
    pub fn integral(&self) -> (r: FPS)
        requires
            self.wf(),
            self@.len() < MOD,
        ensures
            r.wf(),
            is_zero_seq(self@) ==> r@ == self@,
            !is_zero_seq(self@) ==> r@.len() == self@.len() + 1,
            !is_zero_seq(self@) ==> at(r@, 0) == 0,
            !is_zero_seq(self@) ==> forall|i: int|
                0 <= i < self@.len() ==> ((i + 1) * at(r@, i + 1)) % (MOD as int) == self@[i],
            !is_zero_seq(self@) ==> forall|i: int|
                0 <= i < self@.len() ==> (at(r@, i + 1) == 0 <==> self@[i] == 0),
    {
        if self.is_empty() {
            let mut v: Vec<ModInt> = Vec::new();
            let mut i: usize = 0;
            while i < self.coeff.len()
                invariant
                    self.wf(),
                    i <= self@.len(),
                    v@.len() == i,
                    forall|t: int| 0 <= t < i ==> v@[t] == self.coeff@[t],
                decreases self.coeff.len() - i,
            {
                let c = self.coeff[i];
                v.push(c);
                i = i + 1;
            }
            let r = FPS { coeff: v };
            proof {
                assert(r@ =~= self@);
            }
            return r;
        }
        let n = self.coeff.len();
        let mut fact: Vec<ModInt> = Vec::new();
        fact.push(ModInt { val: 1 });
        let mut i: usize = 0;
        while i < n
            invariant
                self.wf(),
                n == self@.len(),
                n < MOD,
                i <= n,
                fact@.len() == i + 1,
                vec_wf(fact@),
                forall|t: int| 0 <= t <= i ==> (#[trigger] fact@[t]).val != 0,
                forall|t: int|
                    0 <= t < i ==> (#[trigger] fact@[t + 1]).val == (fact@[t].val * (t + 1)) % (
                    MOD as int),
            decreases n - i,
        {
            let d = ModInt::new(i + 1);
            let nx = fact[i].mul(d);
            proof {
                lemma_small_mod((i + 1) as nat, MOD as nat);
                if nx.val == 0 {
                    lemma_coprime_cancel(fact@[i as int].val as int, (i + 1) as int);
                    lemma_small_mod(fact@[i as int].val as nat, MOD as nat);
                    assert(false);
                }
            }
            fact.push(nx);
            i = i + 1;
        }
        let w0 = fact[n].inv();
        let mut ifact_rev: Vec<ModInt> = Vec::new();
        ifact_rev.push(w0);
        proof {
            lemma_mul_is_commutative(fact@[n as int].val as int, w0.val as int);
        }
        let mut k: usize = 0;
        while k < n
            invariant
                n < MOD,
                k <= n,
                fact@.len() == n + 1,
                vec_wf(fact@),
                forall|t: int|
                    0 <= t < n ==> (#[trigger] fact@[t + 1]).val == (fact@[t].val * (t + 1)) % (
                    MOD as int),
                ifact_rev@.len() == k + 1,
                vec_wf(ifact_rev@),
                forall|t: int|
                    0 <= t <= k ==> ((#[trigger] ifact_rev@[t]).val * fact@[n - t].val) % (
                    MOD as int) == 1,
            decreases n - k,
        {
            let d = ModInt::new(n - k);
            let nx = ifact_rev[k].mul(d);
            proof {
                lemma_small_mod((n - k) as nat, MOD as nat);
                let t = n - k - 1;
                assert(fact@[t + 1].val == (fact@[t as int].val * (t + 1)) % (MOD as int));
                assert((ifact_rev@[k as int].val * fact@[n - k].val) % (MOD as int) == 1);
                lemma_inverse_peel(
                    ifact_rev@[k as int].val as int,
                    fact@[n - k - 1].val as int,
                    (n - k) as int,
                );
            }
            ifact_rev.push(nx);
            k = k + 1;
        }
        let mut v: Vec<ModInt> = Vec::new();
        v.push(ModInt { val: 0 });
        i = 0;
        while i < n
            invariant
                self.wf(),
                n == self@.len(),
                n < MOD,
                i <= n,
                fact@.len() == n + 1,
                vec_wf(fact@),
                forall|t: int|
                    0 <= t < n ==> (#[trigger] fact@[t + 1]).val == (fact@[t].val * (t + 1)) % (
                    MOD as int),
                ifact_rev@.len() == n + 1,
                vec_wf(ifact_rev@),
                forall|t: int|
                    0 <= t <= n ==> ((#[trigger] ifact_rev@[t]).val * fact@[n - t].val) % (
                    MOD as int) == 1,
                v@.len() == i + 1,
                vec_wf(v@),
                v@[0].val == 0,
                forall|t: int|
                    0 <= t < i ==> ((t + 1) * (#[trigger] v@[t + 1]).val) % (MOD as int) == self@[t],
                forall|t: int| 0 <= t < i ==> ((#[trigger] v@[t + 1]).val == 0 <==> self@[t] == 0),
            decreases n - i,
        {
            let u = ifact_rev[n - i - 1];
            let m1 = self.coeff[i].mul(u);
            let c = m1.mul(fact[i]);
            proof {
                let p = MOD as int;
                assert((u.val * fact@[i + 1].val) % p == 1);
                assert(fact@[i + 1].val == (fact@[i as int].val * (i + 1)) % p);
                lemma_batched_divide(
                    self@[i as int],
                    u.val as int,
                    fact@[i as int].val as int,
                    (i + 1) as int,
                );
                if self@[i as int] == 0 {
                    lemma_small_mod(0nat, MOD as nat);
                    assert(0 * u.val == 0);
                    assert(m1.val == 0);
                    assert(0 * fact@[i as int].val == 0);
                    assert(c.val == 0);
                } else if c.val == 0 {
                    assert((i + 1) * 0 == 0);
                    lemma_small_mod(0nat, MOD as nat);
                    assert(false);
                }
            }
            v.push(c);
            i = i + 1;
        }
        FPS { coeff: v }
    }
}

} // verus!
