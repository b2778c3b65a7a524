use spam_filter::bignat::BigNat;

fn limbs(n: &BigNat) -> Vec<u64> {
    let mut limbs = n.as_limbs().clone();
    while limbs.last() == Some(&0) {
        limbs.pop();
    }
    limbs
}

#[test]
fn from_u128_splits_into_two_limbs() {
    assert_eq!(limbs(&BigNat::from_u128(0)), Vec::<u64>::new());
    assert_eq!(limbs(&BigNat::from_u128(7)), vec![7]);
    assert_eq!(limbs(&BigNat::from_u128(u128::MAX)), vec![u64::MAX, u64::MAX]);
    assert_eq!(limbs(&BigNat::from_u128(1 << 64)), vec![0, 1]);
}

#[test]
fn add_carries_into_the_next_limb() {
    let a = BigNat::from_u128(u128::MAX);
    let one = BigNat::from_u128(1);
    assert_eq!(limbs(&a.add(&one)), vec![0, 0, 1]);
    assert_eq!(limbs(&one.add(&a)), vec![0, 0, 1]);
    let b = BigNat::from_u128(u64::MAX as u128);
    assert_eq!(limbs(&b.add(&b)), vec![u64::MAX - 1, 1]);
}

#[test]
fn mul_multiplies() {
    let a = BigNat::from_u128(u128::MAX);
    // (2^128 - 1)^2 = 2^256 - 2^129 + 1
    assert_eq!(limbs(&a.mul(&a)), vec![1, 0, u64::MAX - 1, u64::MAX]);
    let six = BigNat::from_u128(6);
    let seven = BigNat::from_u128(7);
    assert_eq!(limbs(&six.mul(&seven)), vec![42]);
    assert_eq!(limbs(&a.mul(&BigNat::from_u128(0))), Vec::<u64>::new());
    assert_eq!(limbs(&BigNat::from_u128(0).mul(&a)), Vec::<u64>::new());
}

#[test]
fn exceeds_is_strict_and_ignores_high_zero_limbs() {
    let small = BigNat::from_u128(5);
    let big = BigNat::from_u128(1 << 64);
    assert!(big.exceeds(&small));
    assert!(!small.exceeds(&big));
    assert!(!small.exceeds(&small));
    let padded = BigNat::from_u128(5).mul(&BigNat::from_u128(1));
    assert!(!padded.exceeds(&small));
    assert!(!small.exceeds(&padded));
    let six = BigNat::from_u128(6);
    assert!(six.exceeds(&padded));
    let huge = big.mul(&big).mul(&big);
    let huge_plus = huge.add(&BigNat::from_u128(1));
    assert!(huge_plus.exceeds(&huge));
    assert!(!huge.exceeds(&huge_plus));
}
