//! The number-theoretic transform and the two ring multiplications.

use p3_baby_bear::BabyBear;
use p3_field::PrimeField32;
use rand::rngs::SmallRng;
use rand::{RngExt, SeedableRng};
use regev_plonky3::field::F;
use regev_plonky3::ntt::{
    full_poly_mul, is_power_of_two, log2_exact, negacyclic_mul_naive, ntt,
};

fn random_element(rng: &mut SmallRng) -> F {
    let x: BabyBear = rng.random();
    F::from_u32(x.as_canonical_u32())
}

fn elements(values: &[u32]) -> Vec<F> {
    values.iter().map(|v| F::from_u32(*v)).collect()
}

#[test]
fn ntt_roundtrip() {
    let mut rng = SmallRng::seed_from_u64(0);
    let original: Vec<F> = (0..256).map(|_| random_element(&mut rng)).collect();
    let mut values = original.clone();
    ntt(&mut values, false);
    ntt(&mut values, true);
    assert_eq!(values, original);
}

#[test]
fn full_mul_matches_naive_negacyclic() {
    let mut rng = SmallRng::seed_from_u64(1);
    let n = 64;
    let a: Vec<F> = (0..n).map(|_| random_element(&mut rng)).collect();
    let b: Vec<F> = (0..n).map(|_| random_element(&mut rng)).collect();
    let full = full_poly_mul(&a, &b);
    let expected = negacyclic_mul_naive(&a, &b);
    let reduced: Vec<F> = (0..n).map(|i| full[i].sub(full[n + i])).collect();
    assert_eq!(reduced, expected);
    assert_eq!(full[2 * n - 1], F::zero());
}

#[test]
fn transform_of_size_one_is_the_identity() {
    let mut values = elements(&[17]);
    ntt(&mut values, false);
    assert_eq!(values, elements(&[17]));
    ntt(&mut values, true);
    assert_eq!(values, elements(&[17]));
}

#[test]
fn transform_of_size_two_is_sum_and_difference() {
    let mut values = elements(&[5, 3]);
    ntt(&mut values, false);
    assert_eq!(values, elements(&[8, 2]));
}

#[test]
fn transform_of_size_four_evaluates_at_powers_of_the_root() {
    let coefficients = elements(&[1, 2, 3, 4]);
    let root = F::two_adic_generator(2);
    let mut expected = Vec::new();
    for k in 0..4 {
        let mut point = F::one();
        for _ in 0..k {
            point = point.mul(root);
        }
        let mut value = F::zero();
        for c in coefficients.iter().rev() {
            value = value.mul(point).add(*c);
        }
        expected.push(value);
    }
    let mut values = coefficients;
    ntt(&mut values, false);
    assert_eq!(values, expected);
}

#[test]
fn full_product_of_small_polynomials() {
    // (1 + 2x)(3 + 4x) = 3 + 10x + 8x^2.
    assert_eq!(
        full_poly_mul(&elements(&[1, 2]), &elements(&[3, 4])),
        elements(&[3, 10, 8, 0])
    );
}

#[test]
fn negacyclic_product_wraps_with_a_sign() {
    // (1 + 2x)(3 + 4x) = 3 + 10x + 8x^2 and x^2 = -1.
    let q = F::order();
    assert_eq!(
        negacyclic_mul_naive(&elements(&[1, 2]), &elements(&[3, 4])),
        elements(&[q - 5, 10])
    );
}

#[test]
fn powers_of_two_are_recognised() {
    assert!(is_power_of_two(1));
    assert!(is_power_of_two(1024));
    assert!(!is_power_of_two(0));
    assert!(!is_power_of_two(96));
    assert_eq!(log2_exact(1), 0);
    assert_eq!(log2_exact(2048), 11);
}
