use fuwari::fps::FPS;
use fuwari::modint::{ModInt, MOD};

fn mk(vals: &[usize]) -> FPS {
    FPS::new(vals.iter().map(|&v| ModInt::new(v)).collect())
}

fn coeffs(f: &FPS) -> Vec<usize> {
    f.coeff.iter().map(|m| m.val()).collect()
}

const INV2: usize = 499122177;
const INV3: usize = 332748118;
const INV6: usize = 166374059;

#[test]
fn derivative_scales_and_shifts() {
    let f = mk(&[3, 1, 4, 1]);
    assert_eq!(coeffs(&f.derivative()), vec![1, 8, 3]);
    assert_eq!(mk(&[7]).derivative().len(), 0);
    assert_eq!(mk(&[]).derivative().len(), 0);
}

#[test]
fn integral_divides_and_shifts() {
    let f = mk(&[2, 4, 6]);
    assert_eq!(coeffs(&f.integral()), vec![0, 2, 2, 2]);
    // 1 integrates to x, and x to x^2 / 2
    assert_eq!(coeffs(&mk(&[1]).integral()), vec![0, 1]);
    assert_eq!(coeffs(&mk(&[0, 1]).integral()), vec![0, 0, INV2]);
    // the zero series comes back unchanged
    assert_eq!(coeffs(&mk(&[0, 0]).integral()), vec![0, 0]);
    assert_eq!(mk(&[]).integral().len(), 0);
}

#[test]
fn integral_then_derivative_roundtrip() {
    let f = mk(&[5, 6, 7]);
    let back = f.integral().derivative();
    assert_eq!(coeffs(&back), vec![5, 6, 7]);
    let g = mk(&[1, MOD - 1, 123456789, 42]);
    assert_eq!(coeffs(&g.integral().derivative()), coeffs(&g));
}

#[test]
fn inverse_of_one_plus_x() {
    // (1 + x)^{-1} = 1 - x + x^2 - x^3 mod x^4
    let f = mk(&[1, 1]);
    let g = f.inv(4);
    assert_eq!(coeffs(&g), vec![1, MOD - 1, 1, MOD - 1]);
    let prod = f.mul(&g);
    assert_eq!(prod.get(0).val(), 1);
    for k in 1..4 {
        assert_eq!(prod.get(k).val(), 0);
    }
}

#[test]
fn inverse_times_series_is_one() {
    let f = mk(&[1, 2, 3, 4]);
    let g = f.inv(8);
    assert_eq!(coeffs(&g), vec![1, MOD - 2, 1, 0, 5, MOD - 14, 13, MOD - 4]);
    let prod = f.mul(&g);
    assert_eq!(prod.get(0).val(), 1);
    for k in 1..8 {
        assert_eq!(prod.get(k).val(), 0);
    }
    // a precision that is not a power of two still gives an exact prefix
    let h = mk(&[7, 1, 5]);
    let w = h.inv(5);
    let p2 = h.mul(&w);
    assert_eq!(p2.get(0).val(), 1);
    for k in 1..5 {
        assert_eq!(p2.get(k).val(), 0);
    }
}

#[test]
fn log_of_one_plus_x() {
    // log(1 + x) = x - x^2/2 + x^3/3 - ...
    let f = mk(&[1, 1]);
    let r = f.log(4);
    assert_eq!(coeffs(&r), vec![0, 1, MOD - INV2, INV3]);
}

#[test]
fn exp_of_x() {
    // exp(x) = 1 + x + x^2/2 + x^3/6 + ...
    let f = mk(&[0, 1]);
    let r = f.exp(4);
    assert_eq!(coeffs(&r), vec![1, 1, INV2, INV6]);
}

#[test]
fn exp_of_zero_series_is_one() {
    assert_eq!(coeffs(&mk(&[]).exp(1)), vec![1]);
    assert_eq!(coeffs(&mk(&[]).exp(7)), vec![1]);
    assert_eq!(coeffs(&mk(&[0, 0]).exp(5)), vec![1]);
}

#[test]
fn log_undoes_exp() {
    let f = mk(&[0, 1, 2, 3]);
    let e = f.exp(8);
    let back = e.log(8);
    for k in 0..8 {
        assert_eq!(back.get(k).val(), f.get(k).val());
    }
}

#[test]
fn log_derivative_relation() {
    // (log f)' * f == f' coefficient-wise below the precision
    let f = mk(&[1, 3, 0, 7]);
    let r = f.log(6);
    let lhs = r.derivative().mul(&f);
    let rhs = f.derivative();
    for k in 0..5 {
        assert_eq!(lhs.get(k).val(), rhs.get(k).val());
    }
}

#[test]
fn analytic_results_carry_no_trailing_zeros() {
    // the reciprocal of the constant 1 is exactly [1] at every precision
    let one = mk(&[1]);
    assert_eq!(coeffs(&one.inv(4)), vec![1]);
    // the logarithm of the constant 1 is exactly the zero series
    assert_eq!(one.log(5).len(), 0);
    // exp of the zero series is exactly [1], with no zero padding
    assert_eq!(coeffs(&mk(&[0, 0]).exp(6)), vec![1]);
}

#[test]
fn zero_precision_gives_empty_results() {
    let f = mk(&[1, 5]);
    assert_eq!(f.inv(0).len(), 0);
    assert_eq!(f.log(1).len(), 0);
    assert_eq!(mk(&[0, 3]).exp(0).len(), 0);
}

#[test]
fn shift_boundaries() {
    let mut f = mk(&[1, 2, 3]);
    f.shift_left(0);
    assert_eq!(coeffs(&f), vec![1, 2, 3]);
    // shifting up by more than the length is fine: zeros fill the gap
    let mut g = mk(&[1, 2]);
    g.shift_left(3);
    assert_eq!(coeffs(&g), vec![0, 0, 0, 1, 2]);
    // shifting down by the whole length leaves the zero series
    let mut h = mk(&[1, 2, 3]);
    h.shift_right(3);
    assert_eq!(h.len(), 0);
}

#[test]
fn exp_then_log_on_longer_series() {
    let f = mk(&[0, 5, 0, 2, 8, 1]);
    let e = f.exp(11);
    let back = e.log(11);
    for k in 0..11 {
        assert_eq!(back.get(k).val(), f.get(k).val());
    }
}
