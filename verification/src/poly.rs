//! The coefficient-level model of polynomial arithmetic: convolution sums over
//! integer sequences, and the algebraic laws that the library's contracts and
//! the Newton-iteration proofs rest on.
//!
//! A polynomial is modelled as a `Seq<int>` of reduced coefficients; `at`
//! extends it with zeros to every index, so every sequence stands for the
//! formal power series it begins.

use vstd::prelude::*;

use crate::modint::{ModInt, MOD};
use vstd::arithmetic::div_mod::{
    lemma_add_mod_noop, lemma_fundamental_div_mod_converse_mod, lemma_mod_twice,
    lemma_mul_mod_noop_left, lemma_mul_mod_noop_right, lemma_small_mod, lemma_sub_mod_noop,
    lemma_sub_mod_noop_right,
};

verus! {

/// The sequence of integer values behind a vector of field elements.
pub open spec fn vals(v: Seq<ModInt>) -> Seq<int> {
    Seq::new(v.len(), |i: int| v[i].val as int)
}

/// Every element of the vector is in canonical reduced form.
pub open spec fn vec_wf(v: Seq<ModInt>) -> bool {
    forall|i: int| 0 <= i < v.len() ==> (#[trigger] v[i]).wf()
}

/// All stored coefficients are zero: the sequence stands for the zero series.
pub open spec fn is_zero_seq(s: Seq<int>) -> bool {
    forall|i: int| 0 <= i < s.len() ==> s[i] == 0
}

/// `s` with its trailing zero coefficients removed.
pub open spec fn trim(s: Seq<int>) -> Seq<int>
    decreases s.len(),
{
    if s.len() > 0 && s[s.len() - 1] == 0 {
        trim(s.drop_last())
    } else {
        s
    }
}

/// The first `n` coefficients of `s`, or all of them when `s` is shorter.
pub open spec fn take_up_to(s: Seq<int>, n: int) -> Seq<int> {
    if n < 0 {
        Seq::empty()
    } else if n <= s.len() {
        s.take(n)
    } else {
        s
    }
}

/// `s` multiplied by `x^n`: `n` zero coefficients below, then `s`.
pub open spec fn shift_up(s: Seq<int>, n: int) -> Seq<int> {
    Seq::new(n as nat, |i: int| 0) + s
}

/// The coefficients of the constant series 1: one at index 0, zero elsewhere.
pub open spec fn one_at(k: int) -> int {
    if k == 0 {
        1
    } else {
        0
    }
}

/// The formal derivative: coefficient `i` becomes `(i+1)` times coefficient
/// `i+1`, and the constant term is dropped.
pub open spec fn deriv_of(s: Seq<int>) -> Seq<int> {
    Seq::new(if s.len() == 0 {
        0
    } else {
        (s.len() - 1) as nat
    }, |i: int| ((i + 1) * at(s, i + 1)) % (MOD as int))
}

/// The coefficient of `x^i` in `s`: zero outside the stored range.
pub open spec fn at(s: Seq<int>, i: int) -> int {
    if 0 <= i < s.len() {
        s[i]
    } else {
        0
    }
}

/// Every stored coefficient lies in `[0, MOD)`.
pub open spec fn reduced(s: Seq<int>) -> bool {
    forall|i: int| 0 <= i < s.len() ==> 0 <= #[trigger] s[i] < MOD
}

/// The sum over `i` in `[0, n)` of `a_i * b_(k-i)`, over the integers.
pub open spec fn conv_partial(a: Seq<int>, b: Seq<int>, k: int, n: int) -> int
    decreases n,
{
    if n <= 0 {
        0
    } else {
        conv_partial(a, b, k, n - 1) + at(a, n - 1) * at(b, k - (n - 1))
    }
}

/// The full convolution sum at index `k` (zero for `k < 0`), over the integers.
pub open spec fn conv_sum(a: Seq<int>, b: Seq<int>, k: int) -> int {
    conv_partial(a, b, k, k + 1)
}

/// The coefficient of `x^k` in the product of `a` and `b`, reduced mod MOD.
pub open spec fn conv_at(a: Seq<int>, b: Seq<int>, k: int) -> int {
    conv_sum(a, b, k) % (MOD as int)
}

/// The product sequence: empty when either factor is empty, else one shorter
/// than the two lengths combined.
pub open spec fn conv_seq(a: Seq<int>, b: Seq<int>) -> Seq<int> {
    if a.len() == 0 || b.len() == 0 {
        Seq::empty()
    } else {
        Seq::new((a.len() + b.len() - 1) as nat, |k: int| conv_at(a, b, k))
    }
}

/// `s` without its first coefficient (empty when there is none).
pub open spec fn tail_of(s: Seq<int>) -> Seq<int> {
    if s.len() <= 1 {
        Seq::empty()
    } else {
        s.subrange(1, s.len() as int)
    }
}

/// The tail reads the original sequence one position up.
pub proof fn lemma_tail_at(s: Seq<int>, i: int)
    requires
        0 <= i,
    ensures
        at(tail_of(s), i) == at(s, i + 1),
{
}

/// Convolution sums only see coefficients congruent mod MOD: exchanging both
/// factors for congruent ones keeps the sum congruent.
pub proof fn lemma_conv_partial_congruent(
    a: Seq<int>,
    a2: Seq<int>,
    b: Seq<int>,
    b2: Seq<int>,
    k: int,
    n: int,
)
    requires
        forall|i: int| 0 <= i < n ==> at(a, i) % (MOD as int) == at(a2, i) % (MOD as int),
        forall|j: int| 0 <= j <= k ==> at(b, j) % (MOD as int) == at(b2, j) % (MOD as int),
    ensures
        conv_partial(a, b, k, n) % (MOD as int) == conv_partial(a2, b2, k, n) % (MOD as int),
    decreases n,
{
    let p = MOD as int;
    if n > 0 {
        lemma_conv_partial_congruent(a, a2, b, b2, k, n - 1);
        let s = conv_partial(a, b, k, n - 1);
        let s2 = conv_partial(a2, b2, k, n - 1);
        let t = at(a, n - 1) * at(b, k - (n - 1));
        let t2 = at(a2, n - 1) * at(b2, k - (n - 1));
        assert(t % p == t2 % p) by {
            if k - (n - 1) < 0 {
                assert(at(b, k - (n - 1)) == 0 && at(b2, k - (n - 1)) == 0);
            }
            lemma_mul_mod_noop_left(at(a, n - 1), at(b, k - (n - 1)), p);
            lemma_mul_mod_noop_left(at(a2, n - 1), at(b, k - (n - 1)), p);
            lemma_mul_mod_noop_right(at(a2, n - 1) % p, at(b, k - (n - 1)), p);
            lemma_mul_mod_noop_right(at(a2, n - 1) % p, at(b2, k - (n - 1)), p);
            lemma_mul_mod_noop_left(at(a2, n - 1), at(b2, k - (n - 1)), p);
        }
        lemma_add_mod_noop(s, t, p);
        lemma_add_mod_noop(s % p, t2 % p, p);
        lemma_add_mod_noop(s2, t2, p);
        lemma_add_mod_noop(s2 % p, t2 % p, p);
    }
}

/// A factor whose coefficients are all zero annihilates the sum (first slot).
pub proof fn lemma_conv_partial_zero_left(a: Seq<int>, b: Seq<int>, k: int, n: int)
    requires
        forall|i: int| 0 <= i ==> at(a, i) == 0,
    ensures
        conv_partial(a, b, k, n) == 0,
    decreases n,
{
    if n > 0 {
        lemma_conv_partial_zero_left(a, b, k, n - 1);
        assert(at(a, n - 1) == 0 || n - 1 < 0);
    }
}

/// A factor whose coefficients are all zero annihilates the sum (second slot).
pub proof fn lemma_conv_partial_zero_right(a: Seq<int>, b: Seq<int>, k: int, n: int)
    requires
        forall|j: int| 0 <= j ==> at(b, j) == 0,
    ensures
        conv_partial(a, b, k, n) == 0,
    decreases n,
{
    if n > 0 {
        lemma_conv_partial_zero_right(a, b, k, n - 1);
        assert(at(b, k - (n - 1)) == 0);
    }
}

/// Splitting off the first coefficient of the first factor.
pub proof fn lemma_conv_partial_head(a: Seq<int>, b: Seq<int>, k: int, n: int)
    requires
        1 <= n,
    ensures
        conv_partial(a, b, k, n) == at(a, 0) * at(b, k) + conv_partial(
            tail_of(a),
            b,
            k - 1,
            n - 1,
        ),
    decreases n,
{
    if n == 1 {
        assert(conv_partial(a, b, k, 1) == conv_partial(a, b, k, 0) + at(a, 0) * at(b, k));
        assert(conv_partial(tail_of(a), b, k - 1, 0) == 0);
    } else {
        lemma_conv_partial_head(a, b, k, n - 1);
        lemma_tail_at(a, n - 2);
        assert(conv_partial(a, b, k, n) == conv_partial(a, b, k, n - 1) + at(a, n - 1) * at(
            b,
            k - (n - 1),
        ));
        assert(conv_partial(tail_of(a), b, k - 1, n - 1) == conv_partial(tail_of(a), b, k - 1, n - 2)
            + at(tail_of(a), n - 2) * at(b, (k - 1) - (n - 2)));
    }
}

/// The convolution sum, decomposed around the first coefficient of `a`.
pub proof fn lemma_conv_sum_head(a: Seq<int>, b: Seq<int>, k: int)
    requires
        0 <= k,
    ensures
        conv_sum(a, b, k) == at(a, 0) * at(b, k) + conv_sum(tail_of(a), b, k - 1),
{
    lemma_conv_partial_head(a, b, k, k + 1);
}

/// Splitting off the first coefficient of the second factor.
proof fn lemma_conv_partial_head_snd(a: Seq<int>, b: Seq<int>, k: int, n: int)
    ensures
        conv_partial(a, b, k, n) == conv_partial(a, tail_of(b), k - 1, n) + (
        if 0 <= k < n {
            at(a, k) * at(b, 0)
        } else {
            0
        }),
    decreases n,
{
    if n > 0 {
        lemma_conv_partial_head_snd(a, b, k, n - 1);
        if k - (n - 1) >= 1 {
            lemma_tail_at(b, k - (n - 1) - 1);
        } else if k - (n - 1) == 0 {
            assert(at(tail_of(b), (k - 1) - (n - 1)) == 0);
        } else {
            assert(at(b, k - (n - 1)) == 0);
            assert(at(tail_of(b), (k - 1) - (n - 1)) == 0);
        }
    }
}

/// Convolution sums are symmetric in their two factors.
pub proof fn lemma_conv_sum_comm(a: Seq<int>, b: Seq<int>, k: int)
    ensures
        conv_sum(a, b, k) == conv_sum(b, a, k),
    decreases a.len(),
{
    if k < 0 {
    } else if a.len() == 0 {
        assert(forall|i: int| 0 <= i ==> at(a, i) == 0);
        lemma_conv_partial_zero_left(a, b, k, k + 1);
        lemma_conv_partial_zero_right(b, a, k, k + 1);
    } else {
        lemma_conv_sum_head(a, b, k);
        lemma_conv_sum_comm(tail_of(a), b, k - 1);
        lemma_conv_partial_head_snd(b, a, k, k + 1);
        vstd::arithmetic::mul::lemma_mul_is_commutative(at(a, 0), at(b, k));
        assert(conv_partial(b, tail_of(a), k - 1, k + 1) == conv_partial(b, tail_of(a), k - 1, k)
            + at(b, k) * at(tail_of(a), (k - 1) - k));
        assert(at(tail_of(a), -1) == 0);
    }
}

/// A first factor that reads as `x` times `b` plus `w` shifted one degree up
/// splits the convolution sum accordingly.
proof fn lemma_conv_partial_affine(
    s: Seq<int>,
    b: Seq<int>,
    w: Seq<int>,
    c: Seq<int>,
    x: int,
    k: int,
    n: int,
)
    requires
        forall|l: int| 0 <= l < n ==> at(s, l) == x * at(b, l) + at(w, l - 1),
    ensures
        conv_partial(s, c, k, n) == x * conv_partial(b, c, k, n) + conv_partial(w, c, k - 1, n - 1),
    decreases n,
{
    if n <= 0 {
        assert(x * conv_partial(b, c, k, n) == 0);
    } else {
        lemma_conv_partial_affine(s, b, w, c, x, k, n - 1);
        let cb = at(c, k - (n - 1));
        assert((x * at(b, n - 1) + at(w, n - 2)) * cb == x * (at(b, n - 1) * cb) + at(w, n - 2)
            * cb) by (nonlinear_arith);
        assert(x * (conv_partial(b, c, k, n - 1) + at(b, n - 1) * cb) == x * conv_partial(
            b,
            c,
            k,
            n - 1,
        ) + x * (at(b, n - 1) * cb)) by (nonlinear_arith);
        assert(conv_partial(w, c, k - 1, n - 1) == conv_partial(w, c, k - 1, n - 2) + at(w, n - 2)
            * at(c, (k - 1) - (n - 2)));
    }
}

/// Convolution is associative: folding `a` with the product of `b` and `c`
/// gives the same coefficients as folding the product of `a` and `b` with `c`.
/// The products are read through windows of length `m`, wide enough to hold
/// every index that coefficient `k` looks at.
pub proof fn lemma_conv_sum_assoc(a: Seq<int>, b: Seq<int>, c: Seq<int>, k: int, m: nat)
    requires
        k < m,
    ensures
        conv_sum(Seq::new(m, |l: int| conv_sum(a, b, l)), c, k) == conv_sum(
            a,
            Seq::new(m, |l: int| conv_sum(b, c, l)),
            k,
        ),
    decreases a.len(),
{
    let ab = Seq::new(m, |l: int| conv_sum(a, b, l));
    let bc = Seq::new(m, |l: int| conv_sum(b, c, l));
    if k < 0 {
    } else if a.len() == 0 {
        assert forall|l: int| 0 <= l implies at(ab, l) == 0 by {
            if l < m {
                lemma_conv_partial_zero_left(a, b, l, l + 1);
            }
        }
        lemma_conv_partial_zero_left(ab, c, k, k + 1);
        lemma_conv_partial_zero_left(a, bc, k, k + 1);
    } else {
        let tl = tail_of(a);
        let tb = Seq::new(m, |l: int| conv_sum(tl, b, l));
        assert forall|l: int| 0 <= l < k + 1 implies at(ab, l) == at(a, 0) * at(b, l) + at(
            tb,
            l - 1,
        ) by {
            lemma_conv_sum_head(a, b, l);
            if l == 0 {
                assert(conv_sum(tl, b, -1) == 0);
            }
        }
        lemma_conv_partial_affine(ab, b, tb, c, at(a, 0), k, k + 1);
        lemma_conv_sum_assoc(tl, b, c, k - 1, m);
        lemma_conv_sum_head(a, bc, k);
    }
}

/// Trimming drops only zero coefficients, so the extended coefficient reading
/// is unchanged at every index.
pub proof fn lemma_trim_at(s: Seq<int>, j: int)
    requires
        0 <= j,
    ensures
        at(trim(s), j) == at(s, j),
    decreases s.len(),
{
    if s.len() > 0 && s[s.len() - 1] == 0 {
        lemma_trim_at(s.drop_last(), j);
    }
}

/// Trimming never lengthens a sequence.
pub proof fn lemma_trim_len(s: Seq<int>)
    ensures
        trim(s).len() <= s.len(),
    decreases s.len(),
{
    if s.len() > 0 && s[s.len() - 1] == 0 {
        lemma_trim_len(s.drop_last());
    }
}

/// A trimmed sequence is empty or ends in a nonzero coefficient.
pub proof fn lemma_trim_last(s: Seq<int>)
    ensures
        trim(s).len() > 0 ==> trim(s)[trim(s).len() - 1] != 0,
    decreases s.len(),
{
    if s.len() > 0 && s[s.len() - 1] == 0 {
        lemma_trim_last(s.drop_last());
    }
}

/// Beyond the combined degree the convolution sum is empty.
pub proof fn lemma_conv_partial_beyond(a: Seq<int>, b: Seq<int>, k: int, n: int)
    requires
        k >= a.len() + b.len() - 1,
        k >= 0,
    ensures
        conv_partial(a, b, k, n) == 0,
    decreases n,
{
    if n > 0 {
        lemma_conv_partial_beyond(a, b, k, n - 1);
        let i = n - 1;
        if i < a.len() {
            assert(at(b, k - i) == 0);
        } else {
            assert(at(a, i) == 0);
        }
    }
}

/// A second factor that is a pointwise combination `x*b + y*c` splits the
/// convolution sum accordingly.
proof fn lemma_conv_partial_linear_snd(
    a: Seq<int>,
    s: Seq<int>,
    b: Seq<int>,
    c: Seq<int>,
    x: int,
    y: int,
    k: int,
    n: int,
)
    requires
        forall|j: int| #![trigger at(s, j)] 0 <= j <= k ==> at(s, j) == x * at(b, j) + y * at(c, j),
    ensures
        conv_partial(a, s, k, n) == x * conv_partial(a, b, k, n) + y * conv_partial(a, c, k, n),
    decreases n,
{
    if n <= 0 {
        assert(x * conv_partial(a, b, k, n) == 0);
        assert(y * conv_partial(a, c, k, n) == 0);
    } else {
        lemma_conv_partial_linear_snd(a, s, b, c, x, y, k, n - 1);
        let ai = at(a, n - 1);
        let j = k - (n - 1);
        if j < 0 {
            assert(at(s, j) == 0 && at(b, j) == 0 && at(c, j) == 0);
            assert(at(s, j) == x * at(b, j) + y * at(c, j)) by (nonlinear_arith)
                requires
                    at(s, j) == 0 && at(b, j) == 0 && at(c, j) == 0,
            ;
        }
        assert(ai * (x * at(b, j) + y * at(c, j)) == x * (ai * at(b, j)) + y * (ai * at(c, j)))
            by (nonlinear_arith);
        assert(x * (conv_partial(a, b, k, n - 1) + ai * at(b, j)) == x * conv_partial(a, b, k, n - 1)
            + x * (ai * at(b, j))) by (nonlinear_arith);
        assert(y * (conv_partial(a, c, k, n - 1) + ai * at(c, j)) == y * conv_partial(a, c, k, n - 1)
            + y * (ai * at(c, j))) by (nonlinear_arith);
    }
}

/// A first factor that is a pointwise combination `x*b + y*c` splits the
/// convolution sum accordingly.
proof fn lemma_conv_partial_linear_fst(
    s: Seq<int>,
    b: Seq<int>,
    c: Seq<int>,
    w: Seq<int>,
    x: int,
    y: int,
    k: int,
    n: int,
)
    requires
        forall|i: int| #![trigger at(s, i)] 0 <= i < n ==> at(s, i) == x * at(b, i) + y * at(c, i),
    ensures
        conv_partial(s, w, k, n) == x * conv_partial(b, w, k, n) + y * conv_partial(c, w, k, n),
    decreases n,
{
    if n <= 0 {
        assert(x * conv_partial(b, w, k, n) == 0);
        assert(y * conv_partial(c, w, k, n) == 0);
    } else {
        assert forall|i: int| 0 <= i < n - 1 implies at(s, i) == x * at(b, i) + y * at(c, i) by {
            assert(0 <= i < n);
        }
        lemma_conv_partial_linear_fst(s, b, c, w, x, y, k, n - 1);
        let wj = at(w, k - (n - 1));
        let i = n - 1;
        assert((x * at(b, i) + y * at(c, i)) * wj == x * (at(b, i) * wj) + y * (at(c, i) * wj))
            by (nonlinear_arith);
        assert(x * (conv_partial(b, w, k, n - 1) + at(b, i) * wj) == x * conv_partial(b, w, k, n - 1)
            + x * (at(b, i) * wj)) by (nonlinear_arith);
        assert(y * (conv_partial(c, w, k, n - 1) + at(c, i) * wj) == y * conv_partial(c, w, k, n - 1)
            + y * (at(c, i) * wj)) by (nonlinear_arith);
    }
}

/// Folding with the constant series 1 on the right reads off a coefficient.
pub proof fn lemma_conv_partial_delta_right(a: Seq<int>, dl: Seq<int>, k: int, n: int)
    requires
        at(dl, 0) == 1,
        forall|j: int| 1 <= j ==> at(dl, j) == 0,
    ensures
        conv_partial(a, dl, k, n) == if 0 <= k <= n - 1 {
            at(a, k)
        } else {
            0
        },
    decreases n,
{
    if n > 0 {
        lemma_conv_partial_delta_right(a, dl, k, n - 1);
        if k == n - 1 {
            assert(at(a, n - 1) * at(dl, 0) == at(a, k));
        } else if k - (n - 1) < 0 {
            assert(at(dl, k - (n - 1)) == 0);
        } else {
            assert(at(dl, k - (n - 1)) == 0);
        }
    }
}

/// Folding with the constant series 1 on the left reads off a coefficient.
proof fn lemma_conv_partial_delta_left(dl: Seq<int>, b: Seq<int>, k: int, n: int)
    requires
        at(dl, 0) == 1,
        forall|j: int| 1 <= j ==> at(dl, j) == 0,
    ensures
        conv_partial(dl, b, k, n) == if n >= 1 {
            at(b, k)
        } else {
            0
        },
    decreases n,
{
    if n > 0 {
        lemma_conv_partial_delta_left(dl, b, k, n - 1);
        if n - 1 == 0 {
            assert(at(dl, 0) * at(b, k) == at(b, k));
        } else {
            assert(at(dl, n - 1) == 0);
        }
    }
}

/// When both factors vanish mod MOD below degree `d`, their product vanishes
/// below degree `2d`.
pub proof fn lemma_conv_partial_prefix_zero(a: Seq<int>, b: Seq<int>, d: int, k: int, n: int)
    requires
        forall|i: int| 0 <= i < d ==> #[trigger] at(a, i) % (MOD as int) == 0,
        forall|j: int| 0 <= j < d ==> #[trigger] at(b, j) % (MOD as int) == 0,
        k < 2 * d,
    ensures
        conv_partial(a, b, k, n) % (MOD as int) == 0,
    decreases n,
{
    let p = MOD as int;
    lemma_small_mod(0nat, p as nat);
    if n > 0 {
        lemma_conv_partial_prefix_zero(a, b, d, k, n - 1);
        let i = n - 1;
        let t = at(a, i) * at(b, k - i);
        assert(t % p == 0) by {
            if k - i < 0 {
                assert(at(b, k - i) == 0);
            } else if i < d {
                lemma_mul_mod_noop_left(at(a, i), at(b, k - i), p);
            } else {
                assert(at(b, k - i) % p == 0);
                lemma_mul_mod_noop_right(at(a, i), at(b, k - i), p);
            }
        }
        lemma_add_mod_noop(conv_partial(a, b, k, n - 1), t, p);
    }
}

/// Multiplying by the constant polynomial 1 is the identity: the product
/// sequence is the original, coefficient for coefficient.
pub proof fn lemma_conv_one_identity(a: Seq<int>, one: Seq<int>)
    requires
        reduced(a),
        one.len() == 1,
        one[0] == 1,
    ensures
        conv_seq(a, one) == a,
{
    let p = MOD as int;
    if a.len() == 0 {
        assert(conv_seq(a, one) =~= a);
    } else {
        assert(at(one, 0) == 1);
        assert(forall|j: int| 1 <= j ==> at(one, j) == 0);
        assert forall|k: int| 0 <= k < a.len() implies conv_seq(a, one)[k] == a[k] by {
            lemma_conv_partial_delta_right(a, one, k, k + 1);
            assert(conv_sum(a, one, k) == at(a, k));
            lemma_small_mod(a[k] as nat, p as nat);
        }
        assert(conv_seq(a, one) =~= a);
    }
}

/// Differentiating an integral returns the original series: any sequence `g`
/// whose shifted coefficients satisfy the integral relation against `f` has
/// `f` as its derivative.
pub proof fn lemma_derivative_of_integral(f: Seq<int>, g: Seq<int>)
    requires
        reduced(f),
        g.len() == f.len() + 1,
        forall|i: int| 0 <= i < f.len() ==> ((i + 1) * at(g, i + 1)) % (MOD as int) == f[i],
    ensures
        deriv_of(g) == f,
{
    assert(deriv_of(g).len() == f.len());
    assert forall|i: int| 0 <= i < f.len() implies deriv_of(g)[i] == f[i] by {
        assert(((i + 1) * at(g, i + 1)) % (MOD as int) == f[i]);
    }
    assert(deriv_of(g) =~= f);
}

/// An identically-zero sequence trims to nothing.
pub proof fn lemma_trim_zero_seq(s: Seq<int>)
    requires
        is_zero_seq(s),
    ensures
        trim(s) == Seq::<int>::empty(),
    decreases s.len(),
{
    if s.len() > 0 {
        lemma_trim_zero_seq(s.drop_last());
    } else {
        assert(trim(s) =~= Seq::<int>::empty());
    }
}

/// The identically-zero series integrates to itself and differentiates back
/// to the zero series: the round trip differs from the input only by
/// trailing zero coefficients.
pub proof fn lemma_zero_series_roundtrip(f: Seq<int>)
    requires
        is_zero_seq(f),
    ensures
        trim(deriv_of(f)) == trim(f),
{
    assert forall|i: int| 0 <= i < deriv_of(f).len() implies deriv_of(f)[i] == 0 by {
        assert(at(f, i + 1) == 0);
        assert((i + 1) * 0 == 0);
        lemma_small_mod(0nat, MOD as nat);
    }
    lemma_trim_zero_seq(deriv_of(f));
    lemma_trim_zero_seq(f);
}

/// Below its cut the truncated sequence reads as the original.
pub proof fn lemma_take_up_to_at(s: Seq<int>, n: int, j: int)
    requires
        0 <= j < n,
    ensures
        at(take_up_to(s, n), j) == at(s, j),
{
}

/// One Newton doubling round for the reciprocal: when `g` inverts `f` through
/// degree `d`, the update `g * (2 - f*g)` (with `f` cut to `2d` coefficients)
/// inverts `f` through degree `2d`.
pub proof fn lemma_newton_inv_step(
    f: Seq<int>,
    g: Seq<int>,
    u: Seq<int>,
    gn: Seq<int>,
    d: int,
    k: int,
)
    requires
        1 <= d,
        0 <= k < 2 * d,
        forall|t: int| 0 <= t < d ==> conv_at(f, g, t) == one_at(t),
        forall|j: int|
            0 <= j < 2 * d ==> at(u, j) == (2 * one_at(j) - conv_at(take_up_to(f, 2 * d), g, j)) % (
            MOD as int),
        forall|l: int| 0 <= l < 2 * d ==> at(gn, l) == conv_at(g, u, l),
    ensures
        conv_at(f, gn, k) == one_at(k),
{
    let p = MOD as int;
    let m = (2 * d) as nat;
    let ft = take_up_to(f, 2 * d);
    let fg = Seq::new(m, |l: int| conv_sum(ft, g, l));
    let gu = Seq::new(m, |l: int| conv_sum(g, u, l));
    let dl = Seq::new(m, |l: int| one_at(l));
    let u2 = Seq::new(m, |j: int| 2 * one_at(j) - at(fg, j));
    let e = Seq::new(m, |l: int| at(fg, l) - one_at(l));
    assert(at(dl, 0) == 1);
    assert(forall|j: int| 1 <= j ==> at(dl, j) == 0);

    // replacing f by its first 2d coefficients does not change low coefficients
    assert(conv_sum(f, gn, k) % p == conv_sum(ft, gn, k) % p) by {
        assert forall|i: int| 0 <= i < k + 1 implies at(f, i) % p == at(ft, i) % p by {
            lemma_take_up_to_at(f, 2 * d, i);
        }
        lemma_conv_partial_congruent(f, ft, gn, gn, k, k + 1);
    }

    // the truncated update gn agrees with the full product of g and u
    assert(conv_sum(ft, gn, k) % p == conv_sum(ft, gu, k) % p) by {
        assert forall|j: int| 0 <= j <= k implies at(gn, j) % p == at(gu, j) % p by {
            lemma_mod_twice(conv_sum(g, u, j), p);
        }
        lemma_conv_partial_congruent(ft, ft, gn, gu, k, k + 1);
    }

    // regrouping the triple product (f*g)*u
    lemma_conv_sum_assoc(ft, g, u, k, m);
    assert(conv_sum(ft, gu, k) == conv_sum(fg, u, k));

    // u is congruent to 2 - f*g coefficient-wise
    assert(conv_sum(fg, u, k) % p == conv_sum(fg, u2, k) % p) by {
        assert forall|j: int| 0 <= j <= k implies at(u, j) % p == at(u2, j) % p by {
            lemma_sub_mod_noop_right(2 * one_at(j), conv_sum(ft, g, j), p);
            lemma_mod_twice(2 * one_at(j) - conv_sum(ft, g, j), p);
        }
        lemma_conv_partial_congruent(fg, fg, u, u2, k, k + 1);
    }

    // expand (f*g) * (2 - f*g) = 2*(f*g) - (f*g)^2
    assert forall|j: int| #![trigger at(u2, j)] at(u2, j) == 2 * at(dl, j) + (-1) * at(
        fg,
        j,
    ) by {
        if j < 0 || j >= m {
        } else {
            assert(at(dl, j) == one_at(j));
        }
    }
    lemma_conv_partial_linear_snd(fg, u2, dl, fg, 2, -1, k, k + 1);
    lemma_conv_partial_delta_right(fg, dl, k, k + 1);

    // expand (f*g)^2 around the identity: f*g = 1 + e with e vanishing below d
    assert forall|j: int| #![trigger at(fg, j)] at(fg, j) == 1 * at(dl, j) + 1 * at(e, j) by {
        if j < 0 || j >= m {
        } else {
            assert(at(dl, j) == one_at(j));
            assert(at(e, j) == at(fg, j) - one_at(j));
        }
    }
    lemma_conv_partial_linear_snd(fg, fg, dl, e, 1, 1, k, k + 1);
    lemma_conv_partial_linear_fst(fg, dl, e, e, 1, 1, k, k + 1);
    lemma_conv_partial_delta_left(dl, e, k, k + 1);

    // e has a zero prefix of length d, so e*e vanishes below 2d
    assert forall|i: int| 0 <= i < d implies #[trigger] at(e, i) % p == 0 by {
        assert(conv_sum(ft, g, i) % p == conv_sum(f, g, i) % p) by {
            assert forall|i2: int| 0 <= i2 < i + 1 implies at(ft, i2) % p == at(f, i2) % p by {
                lemma_take_up_to_at(f, 2 * d, i2);
            }
            lemma_conv_partial_congruent(ft, f, g, g, i, i + 1);
        }
        assert(at(e, i) == conv_sum(ft, g, i) - one_at(i));
        lemma_sub_mod_noop(conv_sum(ft, g, i), one_at(i), p);
        lemma_small_mod(one_at(i) as nat, p as nat);
        lemma_small_mod(0nat, p as nat);
    }
    lemma_conv_partial_prefix_zero(e, e, d, k, k + 1);

    // assemble: 2*(f*g) - (f*g)^2 = 1 - e*e, congruent to 1 below 2d
    assert(conv_sum(fg, u2, k) == one_at(k) - conv_sum(e, e, k));
    assert((one_at(k) - conv_sum(e, e, k)) % p == one_at(k)) by {
        lemma_sub_mod_noop(one_at(k), conv_sum(e, e, k), p);
        lemma_small_mod(one_at(k) as nat, p as nat);
        lemma_mod_twice(one_at(k), p);
        assert((one_at(k) % p - 0) % p == one_at(k) % p);
    }
}

/// A first factor congruent to zero on every index the sum reads annihilates
/// it mod MOD.
pub proof fn lemma_conv_partial_left_vanishes(a: Seq<int>, b: Seq<int>, k: int, n: int)
    requires
        forall|i: int| 0 <= i < n ==> #[trigger] at(a, i) % (MOD as int) == 0,
    ensures
        conv_partial(a, b, k, n) % (MOD as int) == 0,
    decreases n,
{
    let p = MOD as int;
    lemma_small_mod(0nat, p as nat);
    if n > 0 {
        lemma_conv_partial_left_vanishes(a, b, k, n - 1);
        let t = at(a, n - 1) * at(b, k - (n - 1));
        lemma_mul_mod_noop_left(at(a, n - 1), at(b, k - (n - 1)), p);
        assert(t % p == 0);
        lemma_add_mod_noop(conv_partial(a, b, k, n - 1), t, p);
    }
}

/// When the factors vanish mod MOD below degrees `d1` and `d2`, their product
/// vanishes below `d1 + d2`.
pub proof fn lemma_conv_partial_prefix_zero_two(
    a: Seq<int>,
    b: Seq<int>,
    d1: int,
    d2: int,
    k: int,
    n: int,
)
    requires
        forall|i: int| 0 <= i < d1 ==> #[trigger] at(a, i) % (MOD as int) == 0,
        forall|j: int| 0 <= j < d2 ==> #[trigger] at(b, j) % (MOD as int) == 0,
        k < d1 + d2,
    ensures
        conv_partial(a, b, k, n) % (MOD as int) == 0,
    decreases n,
{
    let p = MOD as int;
    lemma_small_mod(0nat, p as nat);
    if n > 0 {
        lemma_conv_partial_prefix_zero_two(a, b, d1, d2, k, n - 1);
        let i = n - 1;
        let t = at(a, i) * at(b, k - i);
        assert(t % p == 0) by {
            if k - i < 0 {
                assert(at(b, k - i) == 0);
            } else if i < d1 {
                lemma_mul_mod_noop_left(at(a, i), at(b, k - i), p);
            } else {
                assert(at(b, k - i) % p == 0);
                lemma_mul_mod_noop_right(at(a, i), at(b, k - i), p);
            }
        }
        lemma_add_mod_noop(conv_partial(a, b, k, n - 1), t, p);
    }
}

/// Cancellation against a series with unit constant term: a product that
/// vanishes below `n` forces the first factor to vanish below `n`.
pub proof fn lemma_conv_cancel(h: Seq<int>, g: Seq<int>, n: int, m: int)
    requires
        at(g, 0) % (MOD as int) == 1,
        forall|t: int| 0 <= t < n ==> conv_at(h, g, t) == 0,
        0 <= m < n,
    ensures
        at(h, m) % (MOD as int) == 0,
    decreases m,
{
    let p = MOD as int;
    assert forall|i: int| 0 <= i < m implies #[trigger] at(h, i) % p == 0 by {
        lemma_conv_cancel(h, g, n, i);
    }
    lemma_conv_partial_left_vanishes(h, g, m, m);
    assert(conv_partial(h, g, m, m + 1) == conv_partial(h, g, m, m) + at(h, m) * at(g, 0));
    let s = conv_partial(h, g, m, m);
    let t = at(h, m) * at(g, 0);
    lemma_add_mod_noop(s, t, p);
    lemma_small_mod(0nat, p as nat);
    assert(conv_at(h, g, m) == 0);
    assert((s + t) % p == 0);
    assert((0 + t % p) % p == 0);
    lemma_mod_twice(t, p);
    assert(t % p == 0);
    lemma_mul_mod_noop_right(at(h, m), at(g, 0), p);
    assert((at(h, m) * 1) % p == 0);
}

/// The integer-weighted derivative sequence: coefficient `i` is `(i+1)` times
/// coefficient `i+1`, without reduction.
pub open spec fn drv(s: Seq<int>) -> Seq<int> {
    Seq::new(if s.len() == 0 {
        0
    } else {
        (s.len() - 1) as nat
    }, |i: int| (i + 1) * at(s, i + 1))
}

/// The weighted derivative reads `(i+1)` times the shifted coefficient at
/// every index, stored or not.
pub proof fn lemma_drv_at(s: Seq<int>, i: int)
    requires
        0 <= i,
    ensures
        at(drv(s), i) == (i + 1) * at(s, i + 1),
{
    if s.len() == 0 || i >= s.len() - 1 {
        assert((i + 1) * 0 == 0);
    }
}

/// The reduced derivative reads as the weighted derivative mod MOD at every
/// index.
pub proof fn lemma_deriv_of_drv(s: Seq<int>, i: int)
    requires
        0 <= i,
    ensures
        at(deriv_of(s), i) == at(drv(s), i) % (MOD as int),
{
    if s.len() == 0 || i >= s.len() - 1 {
        lemma_small_mod(0nat, MOD as nat);
        assert(at(s, i + 1) == 0);
        assert((i + 1) * 0 == 0);
        assert(at(drv(s), i) == 0);
    }
}

/// The product rule, partial-sum form: weighting a convolution sum by its
/// degree splits it over the two factors' derivatives.
proof fn lemma_deriv_conv_partial(a: Seq<int>, b: Seq<int>, m: int, n: int)
    requires
        0 <= m,
        0 <= n <= m + 2,
    ensures
        (m + 1) * conv_partial(a, b, m + 1, n) == conv_partial(drv(a), b, m, n - 1)
            + conv_partial(a, drv(b), m, n),
    decreases n,
{
    if n == 0 {
        assert((m + 1) * 0 == 0);
    } else {
        lemma_deriv_conv_partial(a, b, m, n - 1);
        let i = n - 1;
        let ai = at(a, i);
        let bi = at(b, m + 1 - i);
        if i >= 1 {
            lemma_drv_at(a, i - 1);
        }
        if m - i >= 0 {
            lemma_drv_at(b, m - i);
            assert(at(drv(b), m - i) == (m + 1 - i) * at(b, m + 1 - i));
        } else {
            assert(m - i == -1);
            assert(at(drv(b), m - i) == 0);
            assert((m + 1 - i) * bi == 0) by (nonlinear_arith)
                requires
                    i == m + 1,
            ;
        }
        assert((m + 1) * (conv_partial(a, b, m + 1, n - 1) + ai * bi) == (m + 1) * conv_partial(
            a,
            b,
            m + 1,
            n - 1,
        ) + (m + 1) * (ai * bi)) by (nonlinear_arith);
        if i >= 1 {
            assert(at(drv(a), i - 1) == i * at(a, i));
            assert((m + 1) * (ai * bi) == (i * ai) * bi + ai * ((m + 1 - i) * bi))
                by (nonlinear_arith);
        } else {
            assert((m + 1) * (ai * bi) == ai * ((m + 1 - i) * bi)) by (nonlinear_arith)
                requires
                    i == 0,
            ;
        }
    }
}

/// The product rule for formal series: the degree-weighted coefficient of a
/// product splits over the factors' weighted derivatives.
pub proof fn lemma_deriv_conv(a: Seq<int>, b: Seq<int>, m: int)
    requires
        0 <= m,
    ensures
        (m + 1) * conv_sum(a, b, m + 1) == conv_sum(drv(a), b, m) + conv_sum(a, drv(b), m),
{
    lemma_deriv_conv_partial(a, b, m, m + 2);
    assert(conv_partial(a, drv(b), m, m + 2) == conv_partial(a, drv(b), m, m + 1) + at(a, m + 1)
        * at(drv(b), m - (m + 1)));
    assert(at(drv(b), -1) == 0);
    assert(at(a, m + 1) * 0 == 0);
}

/// One Newton doubling round for the exponential: when `g` solves the
/// exponential differential equation `g' == f' * g` through `d` coefficients
/// and `lg` is its logarithm through `2d`, the update `g * (1 + f - lg)`,
/// truncated, solves the equation through `2d` coefficients.
pub proof fn lemma_newton_exp_step(
    f: Seq<int>,
    g: Seq<int>,
    lg: Seq<int>,
    t2: Seq<int>,
    gn: Seq<int>,
    d: int,
    m: int,
)
    requires
        1 <= d,
        2 * d <= MOD,
        0 <= m < 2 * d - 1,
        at(g, 0) % (MOD as int) == 1,
        forall|j: int| 0 <= j < d - 1 ==> at(drv(g), j) % (MOD as int) == conv_at(drv(f), g, j),
        forall|j: int| 0 <= j < 2 * d - 1 ==> conv_at(deriv_of(lg), g, j) == at(deriv_of(g), j),
        at(t2, 0) == 1,
        forall|j: int|
            1 <= j < 2 * d ==> at(t2, j) % (MOD as int) == (at(f, j) - at(lg, j)) % (MOD as int),
        forall|j: int| 2 * d <= j ==> at(t2, j) == 0,
        forall|l: int| 0 <= l < 2 * d ==> at(gn, l) == conv_at(g, t2, l),
    ensures
        at(drv(gn), m) % (MOD as int) == conv_at(drv(f), gn, m),
{
    let p = MOD as int;
    let big = (2 * d) as nat;
    let m2 = (m + 1) as nat;
    let dl2 = Seq::new(big, |j: int| one_at(j));
    let ee = Seq::new(big, |j: int| at(t2, j) - one_at(j));
    let fg2 = Seq::new(m2, |l: int| conv_sum(drv(f), g, l));
    let r2 = Seq::new(m2, |i: int| at(drv(g), i) - at(fg2, i));
    let gt2 = Seq::new(m2, |l: int| conv_sum(g, t2, l));
    let dif = Seq::new(m2, |j: int| at(drv(f), j) - at(drv(lg), j));

    // the residual of the logarithm's derivative against f's vanishes below
    // d - 1: this is where the match of lg with f below d comes from
    assert forall|j: int| 0 <= j < d implies #[trigger] at(ee, j) % p == 0 by {
        lemma_small_mod(0nat, p as nat);
        if j == 0 {
            assert(at(ee, 0) == 0);
        } else {
            let h = Seq::new((d - 1) as nat, |i: int| at(drv(lg), i) - at(drv(f), i));
            assert forall|t: int| 0 <= t < d - 1 implies conv_at(h, g, t) == 0 by {
                assert forall|i: int| 0 <= i < t + 1 implies at(h, i) == 1 * at(drv(lg), i) + (-1)
                    * at(drv(f), i) by {
                    assert(1 * at(drv(lg), i) == at(drv(lg), i));
                    assert((-1) * at(drv(f), i) == -at(drv(f), i));
                }
                lemma_conv_partial_linear_fst(h, drv(lg), drv(f), g, 1, -1, t, t + 1);
                assert(conv_sum(h, g, t) == 1 * conv_sum(drv(lg), g, t) + (-1) * conv_sum(
                    drv(f),
                    g,
                    t,
                ));
                assert(conv_sum(drv(lg), g, t) % p == conv_sum(deriv_of(lg), g, t) % p) by {
                    assert forall|i: int| 0 <= i < t + 1 implies at(drv(lg), i) % p == at(
                        deriv_of(lg),
                        i,
                    ) % p by {
                        lemma_deriv_of_drv(lg, i);
                        lemma_mod_twice(at(drv(lg), i), p);
                    }
                    lemma_conv_partial_congruent(drv(lg), deriv_of(lg), g, g, t, t + 1);
                }
                assert(conv_sum(deriv_of(lg), g, t) % p == at(drv(g), t) % p) by {
                    lemma_deriv_of_drv(g, t);
                    lemma_mod_twice(at(drv(g), t), p);
                }
                assert(at(drv(g), t) % p == conv_sum(drv(f), g, t) % p) by {
                    assert(at(drv(g), t) % p == conv_at(drv(f), g, t));
                    assert(conv_at(drv(f), g, t) == conv_sum(drv(f), g, t) % p);
                    lemma_mod_twice(conv_sum(drv(f), g, t), p);
                }
                assert(1 * conv_sum(drv(lg), g, t) == conv_sum(drv(lg), g, t));
                assert((-1) * conv_sum(drv(f), g, t) == -conv_sum(drv(f), g, t));
                lemma_sub_mod_noop(conv_sum(drv(lg), g, t), conv_sum(drv(f), g, t), p);
            }
            lemma_conv_cancel(h, g, d - 1, j - 1);
            assert(at(h, j - 1) == at(drv(lg), j - 1) - at(drv(f), j - 1));
            lemma_drv_at(lg, j - 1);
            lemma_drv_at(f, j - 1);
            assert(j * at(lg, j) - j * at(f, j) == j * (at(lg, j) - at(f, j)))
                by (nonlinear_arith);
            assert((j * (at(lg, j) - at(f, j))) % p == 0) by {
                assert(at(h, j - 1) == j * (at(lg, j) - at(f, j))) by (nonlinear_arith)
                    requires
                        at(h, j - 1) == j * at(lg, j) - j * at(f, j),
                ;
            }
            vstd::arithmetic::mul::lemma_mul_is_commutative(j, at(lg, j) - at(f, j));
            crate::modint::lemma_coprime_cancel(at(lg, j) - at(f, j), j);
            assert(at(ee, j) == at(t2, j));
            assert((at(lg, j) - at(f, j)) % p == 0);
            lemma_sub_mod_noop(0, at(lg, j) - at(f, j), p);
            assert((0 - (at(lg, j) - at(f, j))) % p == 0);
            assert(0 - (at(lg, j) - at(f, j)) == at(f, j) - at(lg, j));
            assert(at(ee, j) % p == (at(f, j) - at(lg, j)) % p);
        }
    }

    // the residual of g against the equation vanishes below d - 1
    assert forall|i: int| 0 <= i < d - 1 implies #[trigger] at(r2, i) % p == 0 by {
        lemma_small_mod(0nat, p as nat);
        if i < m2 {
            assert(at(drv(g), i) % p == conv_at(drv(f), g, i));
            assert(at(fg2, i) == conv_sum(drv(f), g, i));
            assert(at(r2, i) == at(drv(g), i) - at(fg2, i));
            lemma_mod_twice(conv_sum(drv(f), g, i), p);
            lemma_sub_mod_noop(at(drv(g), i), conv_sum(drv(f), g, i), p);
        } else {
            assert(at(r2, i) == 0);
        }
    }

    // left side: the weighted derivative of the update, through the product
    // rule
    assert(at(gn, m + 1) == conv_at(g, t2, m + 1));
    lemma_drv_at(gn, m);
    lemma_deriv_conv(g, t2, m);
    let s_full = conv_sum(g, t2, m + 1);
    assert(at(drv(gn), m) == (m + 1) * (s_full % p));
    assert(((m + 1) * (s_full % p)) % p == ((m + 1) * s_full) % p) by {
        lemma_mul_mod_noop_right(m + 1, s_full, p);
    }

    // decompose g' * t2 over the residual r2
    assert forall|i: int| 0 <= i < m + 1 implies at(drv(g), i) == 1 * at(fg2, i) + 1 * at(
        r2,
        i,
    ) by {
        assert(at(r2, i) == at(drv(g), i) - at(fg2, i));
    }
    lemma_conv_partial_linear_fst(drv(g), fg2, r2, t2, 1, 1, m, m + 1);
    assert(conv_sum(drv(g), t2, m) == 1 * conv_sum(fg2, t2, m) + 1 * conv_sum(r2, t2, m));

    // r2 * t2 is r2 plus a term that vanishes below 2d - 1
    assert forall|j: int| 0 <= j <= m implies at(t2, j) == 1 * at(dl2, j) + 1 * at(ee, j) by {
        assert(at(dl2, j) == one_at(j));
        assert(at(ee, j) == at(t2, j) - one_at(j));
    }
    lemma_conv_partial_linear_snd(r2, t2, dl2, ee, 1, 1, m, m + 1);
    assert(at(dl2, 0) == 1);
    assert(forall|j: int| 1 <= j ==> at(dl2, j) == 0);
    lemma_conv_partial_delta_right(r2, dl2, m, m + 1);
    assert(conv_sum(r2, dl2, m) == at(r2, m));
    assert(conv_sum(r2, ee, m) % p == 0) by {
        lemma_conv_partial_prefix_zero_two(r2, ee, d - 1, d, m, m + 1);
    }

    // g * (t2)' equals g * (f' - lg') mod p below 2d - 1
    assert forall|j: int| 0 <= j <= m implies at(drv(t2), j) % p == at(dif, j) % p by {
        lemma_drv_at(t2, j);
        assert(at(drv(t2), j) == (j + 1) * at(t2, j + 1));
        lemma_drv_at(f, j);
        lemma_drv_at(lg, j);
        assert(at(dif, j) == (j + 1) * at(f, j + 1) - (j + 1) * at(lg, j + 1));
        assert(at(t2, j + 1) % p == (at(f, j + 1) - at(lg, j + 1)) % p);
        lemma_mul_mod_noop_right(j + 1, at(t2, j + 1), p);
        lemma_mul_mod_noop_right(j + 1, at(f, j + 1) - at(lg, j + 1), p);
        assert((j + 1) * (at(f, j + 1) - at(lg, j + 1)) == (j + 1) * at(f, j + 1) - (j + 1) * at(
            lg,
            j + 1,
        )) by (nonlinear_arith);
    }
    assert(conv_sum(g, drv(t2), m) % p == conv_sum(g, dif, m) % p) by {
        lemma_conv_partial_congruent(g, g, drv(t2), dif, m, m + 1);
    }
    assert forall|j: int| 0 <= j <= m implies at(dif, j) == 1 * at(drv(f), j) + (-1) * at(
        drv(lg),
        j,
    ) by {
        assert(1 * at(drv(f), j) == at(drv(f), j));
        assert((-1) * at(drv(lg), j) == -at(drv(lg), j));
    }
    lemma_conv_partial_linear_snd(g, dif, drv(f), drv(lg), 1, -1, m, m + 1);
    lemma_conv_sum_comm(g, drv(f), m);
    lemma_conv_sum_comm(g, drv(lg), m);
    assert(conv_sum(drv(lg), g, m) % p == at(drv(g), m) % p) by {
        assert forall|i: int| 0 <= i < m + 1 implies at(drv(lg), i) % p == at(
            deriv_of(lg),
            i,
        ) % p by {
            lemma_deriv_of_drv(lg, i);
            lemma_mod_twice(at(drv(lg), i), p);
        }
        lemma_conv_partial_congruent(drv(lg), deriv_of(lg), g, g, m, m + 1);
        lemma_deriv_of_drv(g, m);
        lemma_mod_twice(at(drv(g), m), p);
    }

    // right side: gn reads as g * t2, and the triple product regroups
    assert(conv_sum(drv(f), gn, m) % p == conv_sum(drv(f), gt2, m) % p) by {
        assert forall|l: int| 0 <= l <= m implies at(gn, l) % p == at(gt2, l) % p by {
            lemma_mod_twice(conv_sum(g, t2, l), p);
        }
        lemma_conv_partial_congruent(drv(f), drv(f), gn, gt2, m, m + 1);
    }
    lemma_conv_sum_assoc(drv(f), g, t2, m, m2);
    assert(conv_sum(fg2, t2, m) == conv_sum(drv(f), gt2, m));

    // assemble both sides mod p
    let a1 = conv_sum(fg2, t2, m);
    let a3 = conv_sum(r2, ee, m);
    let gdt = conv_sum(g, drv(t2), m);
    let dgm = at(drv(g), m);
    let fgm = conv_sum(drv(f), g, m);
    let lgm = conv_sum(drv(lg), g, m);
    assert(at(r2, m) == dgm - fgm);
    assert((m + 1) * s_full == a1 + (dgm - fgm) + a3 + gdt);
    assert(gdt % p == (fgm - lgm) % p) by {
        assert(conv_sum(g, dif, m) == 1 * conv_sum(g, drv(f), m) + (-1) * conv_sum(g, drv(lg), m));
        assert(1 * conv_sum(g, drv(f), m) == conv_sum(g, drv(f), m));
        assert((-1) * conv_sum(g, drv(lg), m) == -conv_sum(g, drv(lg), m));
        lemma_sub_mod_noop(conv_sum(g, drv(f), m), conv_sum(g, drv(lg), m), p);
        lemma_sub_mod_noop(fgm, lgm, p);
    }
    lemma_exp_step_arith(a1, dgm, fgm, lgm, a3, gdt);
    assert(((m + 1) * s_full) % p == a1 % p);
    lemma_mod_twice(conv_sum(drv(f), gn, m), p);
}

/// The logarithm undoes the exponential. When `e` solves the exponential
/// differential equation for `f` (with constant terms 0 and 1) and `b`
/// solves the logarithm equation for `e` (with constant term 0), then `b`
/// reads back `f` at every index below the precision.
pub proof fn lemma_exp_log_roundtrip(f: Seq<int>, e: Seq<int>, b: Seq<int>, len: int, k: int)
    requires
        len <= MOD,
        at(f, 0) == 0,
        at(b, 0) == 0,
        at(e, 0) % (MOD as int) == 1,
        reduced(f),
        reduced(b),
        forall|m: int| 0 <= m < len - 1 ==> at(drv(e), m) % (MOD as int) == conv_at(drv(f), e, m),
        forall|m: int| 0 <= m < len - 1 ==> conv_at(deriv_of(b), e, m) == at(deriv_of(e), m),
        0 <= k < len,
    ensures
        at(b, k) == at(f, k),
{
    let p = MOD as int;
    if k >= 1 {
        let h = Seq::new((len - 1) as nat, |i: int| at(drv(b), i) - at(drv(f), i));
        assert forall|t: int| 0 <= t < len - 1 implies conv_at(h, e, t) == 0 by {
            assert forall|i: int| 0 <= i < t + 1 implies at(h, i) == 1 * at(drv(b), i) + (-1) * at(
                drv(f),
                i,
            ) by {
                assert(1 * at(drv(b), i) == at(drv(b), i));
                assert((-1) * at(drv(f), i) == -at(drv(f), i));
            }
            lemma_conv_partial_linear_fst(h, drv(b), drv(f), e, 1, -1, t, t + 1);
            assert(conv_sum(h, e, t) == 1 * conv_sum(drv(b), e, t) + (-1) * conv_sum(drv(f), e, t));
            assert(1 * conv_sum(drv(b), e, t) == conv_sum(drv(b), e, t));
            assert((-1) * conv_sum(drv(f), e, t) == -conv_sum(drv(f), e, t));
            assert(conv_sum(drv(b), e, t) % p == conv_sum(deriv_of(b), e, t) % p) by {
                assert forall|i: int| 0 <= i < t + 1 implies at(drv(b), i) % p == at(
                    deriv_of(b),
                    i,
                ) % p by {
                    lemma_deriv_of_drv(b, i);
                    lemma_mod_twice(at(drv(b), i), p);
                }
                lemma_conv_partial_congruent(drv(b), deriv_of(b), e, e, t, t + 1);
            }
            assert(conv_sum(deriv_of(b), e, t) % p == at(drv(e), t) % p) by {
                assert(conv_at(deriv_of(b), e, t) == at(deriv_of(e), t));
                lemma_mod_twice(conv_sum(deriv_of(b), e, t), p);
                lemma_deriv_of_drv(e, t);
                lemma_mod_twice(at(drv(e), t), p);
            }
            assert(at(drv(e), t) % p == conv_sum(drv(f), e, t) % p) by {
                assert(at(drv(e), t) % p == conv_at(drv(f), e, t));
                lemma_mod_twice(conv_sum(drv(f), e, t), p);
            }
            lemma_sub_mod_noop(conv_sum(drv(b), e, t), conv_sum(drv(f), e, t), p);
            lemma_small_mod(0nat, p as nat);
        }
        lemma_conv_cancel(h, e, len - 1, k - 1);
        assert(at(h, k - 1) == at(drv(b), k - 1) - at(drv(f), k - 1));
        lemma_drv_at(b, k - 1);
        lemma_drv_at(f, k - 1);
        let x = at(b, k);
        let y = at(f, k);
        assert(at(h, k - 1) == k * (x - y)) by (nonlinear_arith)
            requires
                at(h, k - 1) == k * x - k * y,
        ;
        vstd::arithmetic::mul::lemma_mul_is_commutative(k, x - y);
        crate::modint::lemma_coprime_cancel(x - y, k);
        assert(0 <= x < MOD && 0 <= y < MOD);
        if x > y {
            lemma_small_mod((x - y) as nat, p as nat);
            assert(false);
        } else if x < y {
            lemma_fundamental_div_mod_converse_mod(x - y, p, -1, x - y + p);
            assert(false);
        }
    }
}

/// Arithmetic glue for the exponential step: the residual parts cancel mod
/// MOD and only the regrouped triple product remains.
proof fn lemma_exp_step_arith(a1: int, dgm: int, fgm: int, lgm: int, a3: int, gdt: int)
    requires
        a3 % (MOD as int) == 0,
        gdt % (MOD as int) == (fgm - lgm) % (MOD as int),
        lgm % (MOD as int) == dgm % (MOD as int),
    ensures
        (a1 + (dgm - fgm) + a3 + gdt) % (MOD as int) == a1 % (MOD as int),
{
    let p = MOD as int;
    let s1 = a1 + (dgm - fgm);
    lemma_add_mod_noop(s1, a3, p);
    lemma_mod_twice(s1, p);
    assert((s1 + a3) % p == s1 % p);
    lemma_add_mod_noop(s1 + a3, gdt, p);
    lemma_add_mod_noop(s1, fgm - lgm, p);
    assert((s1 + a3 + gdt) % p == (s1 + (fgm - lgm)) % p);
    assert(s1 + (fgm - lgm) == a1 + dgm - lgm);
    lemma_sub_mod_noop(a1 + dgm, lgm, p);
    lemma_sub_mod_noop(a1 + dgm, dgm, p);
    assert((a1 + dgm - lgm) % p == (a1 + dgm - dgm) % p);
}

} // verus!
