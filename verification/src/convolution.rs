//! Convolution of coefficient vectors over the prime field: the product of
//! two polynomials, computed coefficient by coefficient against the
//! convolution-sum model.

use vstd::prelude::*;

use crate::modint::{ModInt, MOD};
use crate::poly::{at, conv_at, conv_partial, conv_seq, vals, vec_wf};
use vstd::arithmetic::div_mod::lemma_add_mod_noop;

verus! {

/// The product of the polynomials carried by `a` and `b`: coefficient `k` of
/// the result is the convolution sum of the two coefficient sequences at `k`,
/// reduced mod MOD. An empty operand stands for the zero polynomial, so the
/// result is then empty.
pub fn conv(a: &Vec<ModInt>, b: &Vec<ModInt>) -> (r: Vec<ModInt>)
    requires
        vec_wf(a@),
        vec_wf(b@),
        a.len() + b.len() <= usize::MAX,
    ensures
        vec_wf(r@),
        vals(r@) == conv_seq(vals(a@), vals(b@)),
{
    let mut r: Vec<ModInt> = Vec::new();
    if a.len() == 0 || b.len() == 0 {
        proof {
            assert(vals(r@) =~= conv_seq(vals(a@), vals(b@)));
        }
        return r;
    }
    let s = a.len() + b.len() - 1;
    let ghost av = vals(a@);
    let ghost bv = vals(b@);
    let mut k: usize = 0;
    while k < s
        invariant
            vec_wf(a@),
            vec_wf(b@),
            av == vals(a@),
            bv == vals(b@),
            a.len() >= 1,
            b.len() >= 1,
            a.len() + b.len() <= usize::MAX,
            s == a.len() + b.len() - 1,
            k <= s,
            r.len() == k,
            vec_wf(r@),
            forall|t: int| 0 <= t < k ==> vals(r@)[t] == conv_at(av, bv, t),
        decreases s - k,
    {
        let mut acc: u64 = 0;
        let mut i: usize = 0;
        proof {
            assert(conv_partial(av, bv, k as int, 0) == 0);
        }
        while i <= k
            invariant
                vec_wf(a@),
                vec_wf(b@),
                av == vals(a@),
                bv == vals(b@),
                i <= k + 1,
                a.len() + b.len() <= usize::MAX,
                k < a.len() + b.len() - 1,
                acc < MOD,
                acc == conv_partial(av, bv, k as int, i as int) % (MOD as int),
            decreases k + 1 - i,
        {
            let ai: u64 = if i < a.len() {
                a[i].val as u64
            } else {
                0
            };
            let bi: u64 = if k - i < b.len() {
                b[k - i].val as u64
            } else {
                0
            };
            proof {
                assert(ai == at(av, i as int));
                assert(bi == at(bv, k - i));
                assert(ai * bi <= (MOD - 1) * (MOD - 1)) by (nonlinear_arith)
                    requires
                        ai < MOD,
                        bi < MOD,
                ;
                lemma_add_mod_noop(
                    conv_partial(av, bv, k as int, i as int),
                    at(av, i as int) * at(bv, k - i),
                    MOD as int,
                );
            }
            acc = (acc + (ai * bi) % (MOD as u64)) % (MOD as u64);
            i = i + 1;
        }
        r.push(ModInt { val: acc as usize });
        k = k + 1;
    }
    proof {
        assert(vals(r@) =~= conv_seq(av, bv));
    }
    r
}

} // verus!
