//! What holds of the library as a whole, on concrete values.

use rand::rngs::SmallRng;
use rand::{RngExt, SeedableRng};
use regev_plonky3::ext::Challenge;
use regev_plonky3::field::F;
use regev_plonky3::gadget::{Kind, Lookup};
use regev_plonky3::ntt::{full_poly_mul, negacyclic_mul_naive, ntt};
use regev_plonky3::params::RegevParams;
use regev_plonky3::prove::{encryption_air, eval_at, range_air, transfer_air};
use regev_plonky3::range::RangeSpec;
use regev_plonky3::regev::{
    add_ciphertexts, decode_value, decrypt, decrypt_value, encode_value_message, encrypt, keygen,
    Ciphertext,
};

const PARAMS: RegevParams = RegevParams { n: 256, eta: 2, plain_bits: 8 };

#[test]
fn stacked_additions_up_to_the_digit_budget() {
    let mut rng = SmallRng::seed_from_u64(41);
    let (pk, sk) = keygen(&mut rng, &PARAMS);
    let m = encode_value_message(1, PARAMS.n);
    let (mut acc, _): (Ciphertext, _) = encrypt(&mut rng, &PARAMS, &pk, &m);
    for _ in 1..255 {
        let (ct, _) = encrypt(&mut rng, &PARAMS, &pk, &m);
        acc = add_ciphertexts(&acc, &ct);
    }
    assert_eq!(decrypt(&PARAMS, &sk, &acc)[0], 255);
    assert_eq!(decrypt_value(&PARAMS, &sk, &acc), 255);
    // One more wraps the digit.
    let (ct, _) = encrypt(&mut rng, &PARAMS, &pk, &m);
    assert_eq!(decrypt(&PARAMS, &sk, &add_ciphertexts(&acc, &ct))[0], 0);
}

#[test]
fn published_parameter_sets_decrypt() {
    for params in [RegevParams::n1024(), RegevParams::n2048()] {
        let mut rng = SmallRng::seed_from_u64(42);
        let (pk, sk) = keygen(&mut rng, &params);
        let m: Vec<u8> = (0..params.n).map(|_| rng.random_range(0..=1)).collect();
        let (ct, _) = encrypt(&mut rng, &params, &pk, &m);
        assert_eq!(decrypt(&params, &sk, &ct), m);
    }
}

#[test]
fn encoding_roundtrips() {
    for value in [0u64, 1, 12345, u64::MAX] {
        assert_eq!(decode_value(&encode_value_message(value, 64)), value as u128);
    }
    assert_eq!(decode_value(&encode_value_message(31, 5)), 31);
}

#[test]
fn a_polynomial_has_no_more_roots_than_its_degree() {
    // X^2 - 1 vanishes at 1 and -1 and nowhere else.
    let q = F::order();
    let p = [F::from_u32(q - 1), F::zero(), F::one()];
    let one = Challenge::one();
    let minus_one = Challenge::zero().sub(one);
    assert_eq!(eval_at(&p, one), Challenge::zero());
    assert_eq!(eval_at(&p, minus_one), Challenge::zero());
    for k in 2..50u32 {
        assert_ne!(eval_at(&p, Challenge::from_coefficients([k, 0, 0, 0])), Challenge::zero());
        assert_ne!(eval_at(&p, Challenge::from_coefficients([0, k, 0, 1])), Challenge::zero());
    }
}

#[test]
fn products_of_nonzero_elements_are_nonzero() {
    let xs = [
        Challenge::from_coefficients([0, 1, 0, 0]),
        Challenge::from_coefficients([0, 0, 1, 0]),
        Challenge::from_coefficients([7, 0, 1, 0]),
        Challenge::from_coefficients([1, 2, 3, 4]),
    ];
    for x in xs {
        for y in xs {
            assert_ne!(x.mul(y), Challenge::zero());
        }
    }
}

#[test]
fn transform_and_products_agree_on_known_values() {
    let a: Vec<F> = [1u32, 2, 3, 4].iter().map(|x| F::from_u32(*x)).collect();
    let b: Vec<F> = [5u32, 6, 7, 8].iter().map(|x| F::from_u32(*x)).collect();
    let mut t = a.clone();
    ntt(&mut t, false);
    assert_ne!(t, a);
    ntt(&mut t, true);
    assert_eq!(t, a);
    // The other order undoes itself too.
    ntt(&mut t, true);
    assert_ne!(t, a);
    ntt(&mut t, false);
    assert_eq!(t, a);
    let full = full_poly_mul(&a, &b);
    let expected: Vec<F> =
        [5u32, 16, 34, 60, 61, 52, 32, 0].iter().map(|x| F::from_u32(*x)).collect();
    assert_eq!(full, expected);
    let reduced: Vec<F> = (0..4).map(|i| full[i].sub(full[4 + i])).collect();
    assert_eq!(negacyclic_mul_naive(&a, &b), reduced);
}

fn published(lookups: &[Lookup]) -> Vec<usize> {
    lookups
        .iter()
        .filter(|l| matches!(l.kind, Kind::Global(_)))
        .map(|l| l.columns[0])
        .collect()
}

#[test]
fn only_statement_polynomials_are_published() {
    let spec = RangeSpec { value_bits: 20, bound: 1_000_000 };
    assert_eq!(published(&encryption_air(&PARAMS).get_lookups()), vec![0, 1, 2, 3]);
    assert_eq!(published(&range_air(&PARAMS, spec).get_lookups()), vec![0, 1, 2, 3]);
    assert_eq!(
        published(&transfer_air(&PARAMS).get_lookups()),
        vec![0, 1, 2, 3, 10, 11, 18, 19]
    );
}

#[test]
fn sizes_of_the_constraint_systems() {
    let spec = RangeSpec { value_bits: 20, bound: 1_000_000 };
    let enc = encryption_air(&PARAMS);
    assert_eq!((enc.width(), enc.get_lookups().len(), enc.num_public_values()), (12, 10, 4 * 256));
    assert_eq!(enc.max_constraint_degree(), Some(3));
    assert!(enc.main_next_row_columns().is_empty());
    let range = range_air(&PARAMS, spec);
    assert_eq!((range.width(), range.get_lookups().len()), (17, 10));
    let transfer = transfer_air(&PARAMS);
    assert_eq!(
        (transfer.width(), transfer.get_lookups().len(), transfer.num_public_values()),
        (33, 26, 8 * 256)
    );
    assert_eq!(transfer.max_constraint_degree(), Some(3));
}
