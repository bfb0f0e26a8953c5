use fuwari::convolution::conv;
use fuwari::modint::{ModInt, MOD};

fn mk(vals: &[usize]) -> Vec<ModInt> {
    vals.iter().map(|&v| ModInt::new(v)).collect()
}

fn naive(a: &[usize], b: &[usize]) -> Vec<usize> {
    if a.is_empty() || b.is_empty() {
        return Vec::new();
    }
    let mut r = vec![0u64; a.len() + b.len() - 1];
    for (i, &x) in a.iter().enumerate() {
        for (j, &y) in b.iter().enumerate() {
            r[i + j] = (r[i + j] + (x as u64 % MOD as u64) * (y as u64 % MOD as u64)) % MOD as u64;
        }
    }
    r.iter().map(|&v| v as usize).collect()
}

#[test]
fn conv_concrete_scenario() {
    // (1 + 2x + 3x^2) * (4 + 5x) = 4 + 13x + 22x^2 + 15x^3
    let a = mk(&[1, 2, 3]);
    let b = mk(&[4, 5]);
    let r = conv(&a, &b);
    let vals: Vec<usize> = r.iter().map(|m| m.val()).collect();
    assert_eq!(vals, vec![4, 13, 22, 15]);
}

#[test]
fn conv_empty_operand_gives_empty() {
    let a = mk(&[1, 2, 3]);
    let e: Vec<ModInt> = Vec::new();
    assert_eq!(conv(&a, &e).len(), 0);
    assert_eq!(conv(&e, &a).len(), 0);
    assert_eq!(conv(&e, &e).len(), 0);
}

#[test]
fn conv_by_one_is_identity() {
    let a = mk(&[9, 0, 5, 7, 0, 3]);
    let one = mk(&[1]);
    let r = conv(&a, &one);
    let vals: Vec<usize> = r.iter().map(|m| m.val()).collect();
    assert_eq!(vals, vec![9, 0, 5, 7, 0, 3]);
}

#[test]
fn conv_matches_schoolbook_on_pseudorandom_input() {
    // a small linear-congruential stream gives reproducible coefficients
    let mut state: u64 = 12345;
    let mut next = || {
        state = state.wrapping_mul(6364136223846793005).wrapping_add(1442695040888963407);
        (state >> 33) as usize % MOD
    };
    let a: Vec<usize> = (0..137).map(|_| next()).collect();
    let b: Vec<usize> = (0..89).map(|_| next()).collect();
    let r = conv(&mk(&a), &mk(&b));
    let vals: Vec<usize> = r.iter().map(|m| m.val()).collect();
    assert_eq!(vals, naive(&a, &b));
}

#[test]
fn conv_handles_wraparound_coefficients() {
    let a = mk(&[MOD - 1, MOD - 1]);
    let b = mk(&[MOD - 1]);
    let r = conv(&a, &b);
    let vals: Vec<usize> = r.iter().map(|m| m.val()).collect();
    assert_eq!(vals, vec![1, 1]);
}
