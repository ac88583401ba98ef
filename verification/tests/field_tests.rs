//! Tests of field elements: values are taken modulo the field modulus.

use sum_check_simulation::field::Fe;

/// The limbs of the modulus of the scalar field of BLS12-381, plus `k`.
fn modulus_plus(k: u64) -> [u64; 4] {
    [0xffffffff00000001 + k, 0x53bda402fffe5bfe, 0x3339d80809a1d805, 0x73eda753299d7d48]
}

#[test]
fn limbs_are_reduced_modulo_the_modulus() {
    assert_eq!(Fe::from_limbs(modulus_plus(0)).to_canonical_limbs(), [0, 0, 0, 0]);
    assert_eq!(Fe::from_limbs(modulus_plus(1)).to_canonical_limbs(), [1, 0, 0, 0]);
    assert_eq!(Fe::from_limbs(modulus_plus(5)), Fe::from_u64(5));
    assert!(Fe::from_limbs(modulus_plus(0)).is_zero());
    assert_eq!(Fe::from_u64(u64::MAX).to_canonical_limbs(), [u64::MAX, 0, 0, 0]);
}

#[test]
fn equality_is_by_value() {
    assert!(Fe::from_u64(3).equals(&Fe::from_limbs(modulus_plus(3))));
    assert!(!Fe::from_u64(3).equals(&Fe::from_u64(4)));
    assert!(Fe::from_u64(3) != Fe::from_u64(4));
    assert!(!Fe::one().is_zero());
    assert!(Fe::zero().is_zero());
}

#[test]
fn arithmetic_wraps_around_the_modulus() {
    let minus_one = Fe::from_limbs(modulus_plus(0)).minus(&Fe::one());
    assert_eq!(minus_one.plus(&Fe::one()), Fe::zero());
    assert_eq!(minus_one.times(&minus_one), Fe::one());
    assert_eq!(Fe::from_u64(6).times(&Fe::from_u64(7)), Fe::from_u64(42));
    assert_eq!(Fe::from_u64(6).minus(&Fe::from_u64(7)), minus_one);
    assert_eq!(
        Fe::from_u64(u64::MAX).plus(&Fe::one()).to_canonical_limbs(),
        [0, 1, 0, 0]
    );
}
