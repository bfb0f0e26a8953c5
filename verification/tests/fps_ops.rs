use fuwari::fps::FPS;
use fuwari::modint::{ModInt, MOD};

fn mk(vals: &[usize]) -> FPS {
    FPS::new(vals.iter().map(|&v| ModInt::new(v)).collect())
}

fn coeffs(f: &FPS) -> Vec<usize> {
    f.coeff.iter().map(|m| m.val()).collect()
}

#[test]
fn new_and_len() {
    let f = mk(&[1, 2, 3]);
    assert_eq!(f.len(), 3);
    assert_eq!(coeffs(&f), vec![1, 2, 3]);
    assert_eq!(mk(&[]).len(), 0);
}

#[test]
fn is_empty_means_identically_zero() {
    assert!(mk(&[]).is_empty());
    assert!(mk(&[0, 0, 0]).is_empty());
    assert!(!mk(&[0, 1]).is_empty());
}

#[test]
fn get_is_zero_beyond_length() {
    let f = mk(&[5, 6]);
    assert_eq!(f.get(0).val(), 5);
    assert_eq!(f.get(1).val(), 6);
    assert_eq!(f.get(2).val(), 0);
    assert_eq!(f.get(100).val(), 0);
}

#[test]
fn set_grows_with_zeros() {
    let mut f = mk(&[1]);
    f.set(3, ModInt::new(9));
    assert_eq!(coeffs(&f), vec![1, 0, 0, 9]);
    f.set(0, ModInt::new(4));
    assert_eq!(coeffs(&f), vec![4, 0, 0, 9]);
}

#[test]
fn truncate_drops_high_terms_and_trailing_zeros() {
    let mut f = mk(&[1, 2, 0, 3, 0, 0]);
    f.truncate(4);
    assert_eq!(coeffs(&f), vec![1, 2, 0, 3]);
    let mut g = mk(&[1, 2, 0, 3]);
    g.truncate(3);
    assert_eq!(coeffs(&g), vec![1, 2]);
    let mut h = mk(&[0, 0]);
    h.truncate(2);
    assert_eq!(h.len(), 0);
}

#[test]
fn shift_left_multiplies_by_x() {
    let mut f = mk(&[1, 2, 3, 4]);
    f.shift_left(1);
    assert_eq!(coeffs(&f), vec![0, 1, 2, 3, 4]);
    let mut g = mk(&[5]);
    g.shift_left(2);
    assert_eq!(coeffs(&g), vec![0, 0, 5]);
    // the zero series stays the zero series
    let mut z = mk(&[]);
    z.shift_left(2);
    assert_eq!(z.len(), 0);
}

#[test]
fn shift_right_divides_by_x() {
    let mut f = mk(&[1, 2, 3, 4]);
    f.shift_right(1);
    assert_eq!(coeffs(&f), vec![2, 3, 4]);
    let mut g = mk(&[0, 0, 7]);
    g.shift_right(2);
    assert_eq!(coeffs(&g), vec![7]);
    // trailing zeros uncovered by the shift are trimmed
    let mut h = mk(&[5, 6, 0]);
    h.shift_right(1);
    assert_eq!(coeffs(&h), vec![6]);
}

#[test]
fn shift_left_then_right_round_trip() {
    let mut f = mk(&[3, 0, 9]);
    f.shift_left(2);
    f.shift_right(2);
    assert_eq!(coeffs(&f), vec![3, 0, 9]);
}

#[test]
fn add_uses_union_of_ranges() {
    let f = mk(&[1, 2]);
    let g = mk(&[10, 20, 30]);
    assert_eq!(coeffs(&f.add(&g)), vec![11, 22, 30]);
    let h = mk(&[MOD - 1]);
    assert_eq!(coeffs(&h.add(&h)), vec![MOD - 2]);
}

#[test]
fn sub_wraps_into_range() {
    let f = mk(&[1, 2]);
    let g = mk(&[10, 1, 5]);
    assert_eq!(coeffs(&f.sub(&g)), vec![MOD - 9, 1, MOD - 5]);
}

#[test]
fn neg_is_zero_minus_self() {
    let f = mk(&[1, 0, 5]);
    assert_eq!(coeffs(&f.neg()), vec![MOD - 1, 0, MOD - 5]);
}

#[test]
fn mul_delegates_to_convolution() {
    let f = mk(&[1, 2, 3]);
    let g = mk(&[4, 5]);
    assert_eq!(coeffs(&f.mul(&g)), vec![4, 13, 22, 15]);
    let e = mk(&[]);
    assert_eq!(f.mul(&e).len(), 0);
}

#[test]
fn series_assign_ops_match_plain_ops() {
    let mut f = mk(&[1, 2]);
    f.add_assign(&mk(&[3, 4, 5]));
    assert_eq!(coeffs(&f), vec![4, 6, 5]);
    f.sub_assign(&mk(&[4, 0]));
    assert_eq!(coeffs(&f), vec![0, 6, 5]);
    f.mul_assign(&mk(&[0, 1]));
    assert_eq!(coeffs(&f), vec![0, 0, 6, 5]);
}
