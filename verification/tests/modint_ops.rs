use fuwari::modint::{ModInt, MOD};

#[test]
fn new_reduces() {
    assert_eq!(ModInt::new(0).val(), 0);
    assert_eq!(ModInt::new(MOD).val(), 0);
    assert_eq!(ModInt::new(MOD + 7).val(), 7);
    assert_eq!(ModInt::new(MOD - 1).val(), MOD - 1);
}

#[test]
fn add_wraps_once() {
    let a = ModInt::new(MOD - 1);
    let b = ModInt::new(5);
    assert_eq!(a.add(b).val(), 4);
    assert_eq!(ModInt::new(2).add(ModInt::new(3)).val(), 5);
}

#[test]
fn sub_stays_in_range() {
    assert_eq!(ModInt::new(3).sub(ModInt::new(5)).val(), MOD - 2);
    assert_eq!(ModInt::new(10).sub(ModInt::new(4)).val(), 6);
}

#[test]
fn mul_reduces_full_product() {
    let a = ModInt::new(MOD - 1);
    assert_eq!(a.mul(a).val(), 1);
    assert_eq!(ModInt::new(12345).mul(ModInt::new(67890)).val(), 12345 * 67890 % MOD);
}

#[test]
fn pow_matches_repeated_multiplication() {
    assert_eq!(ModInt::new(3).pow(0).val(), 1);
    assert_eq!(ModInt::new(3).pow(5).val(), 243);
    assert_eq!(ModInt::new(3).pow(20).val(), 492051342);
    assert_eq!(ModInt::new(2).pow(10).val(), 1024);
}

#[test]
fn inverse_times_self_is_one() {
    for &a in &[1usize, 2, 3, 123456, MOD - 1, 499122177] {
        let x = ModInt::new(a);
        let w = x.inv();
        assert_eq!(x.mul(w).val(), 1);
    }
    assert_eq!(ModInt::new(123456).inv().val(), 622018722);
    assert_eq!(ModInt::new(1).inv().val(), 1);
}

#[test]
fn neg_is_additive_inverse() {
    for &a in &[0usize, 1, 7, MOD - 1] {
        let x = ModInt::new(a);
        let n = x.neg();
        assert_eq!(x.add(n).val(), 0);
        assert_eq!(n.val(), ModInt::new(0).sub(x).val());
    }
}

#[test]
fn div_undoes_mul() {
    let a = ModInt::new(10);
    let b = ModInt::new(4);
    let q = a.div(b);
    assert_eq!(q.mul(b).val(), 10);
    assert_eq!(ModInt::new(1).div(ModInt::new(2)).val(), 499122177);
}

#[test]
fn assign_ops_match_plain_ops() {
    let mut x = ModInt::new(100);
    x.add_assign(ModInt::new(23));
    assert_eq!(x.val(), 123);
    x.sub_assign(ModInt::new(3));
    assert_eq!(x.val(), 120);
    x.mul_assign(ModInt::new(2));
    assert_eq!(x.val(), 240);
    x.div_assign(ModInt::new(240));
    assert_eq!(x.val(), 1);
}
