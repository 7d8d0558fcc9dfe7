//! Key generation, encryption, decryption and the additive homomorphism.

use rand::rngs::SmallRng;
use rand::{RngExt, SeedableRng};
use regev_plonky3::field::F;
use regev_plonky3::ntt::full_poly_mul;
use regev_plonky3::params::RegevParams;
use regev_plonky3::regev::{
    add_ciphertexts, cbd2_halves, centered_to_field, decode_value, decrypt, decrypt_value,
    encode_value_message, encrypt, encrypt_with, field_to_centered, keygen, keygen_from,
    split_negacyclic, Ciphertext, PublicKey, SecretKey,
};

fn small_to_field(small: &[i8]) -> Vec<F> {
    small.iter().map(|x| centered_to_field(*x as i64)).collect()
}

fn elements(values: &[u32]) -> Vec<F> {
    values.iter().map(|v| F::from_u32(*v)).collect()
}

#[test]
fn encrypt_decrypt_roundtrip() {
    let params = RegevParams { n: 256, eta: 2, plain_bits: 8 };
    let mut rng = SmallRng::seed_from_u64(7);
    let (pk, sk) = keygen(&mut rng, &params);
    for _ in 0..10 {
        let m: Vec<u8> = (0..params.n).map(|_| rng.random_range(0..=1)).collect();
        let (ct, _) = encrypt(&mut rng, &params, &pk, &m);
        assert_eq!(decrypt(&params, &sk, &ct), m);
    }
}

#[test]
fn witness_satisfies_ring_identities() {
    let params = RegevParams { n: 128, eta: 2, plain_bits: 8 };
    let mut rng = SmallRng::seed_from_u64(8);
    let (pk, _) = keygen(&mut rng, &params);
    let m: Vec<u8> = (0..params.n).map(|_| rng.random_range(0..=1)).collect();
    let (ct, w) = encrypt(&mut rng, &params, &pk, &m);

    // Check a*r + e1 = c1 + (x^n + 1)*k1 as polynomials of degree < 2n.
    let n = params.n;
    let r_f = small_to_field(&w.r);
    let prod = full_poly_mul(&pk.a, &r_f);
    let mut lhs = prod.clone();
    for (l, (u, v)) in lhs.iter_mut().zip(w.e1u.iter().zip(&w.e1v)) {
        *l = l.add(centered_to_field(*u as i64 - *v as i64));
    }
    let mut rhs = vec![F::zero(); 2 * n];
    for (i, (c, k)) in ct.c1.iter().zip(&w.k1).enumerate() {
        rhs[i] = rhs[i].add(c.add(*k));
        rhs[n + i] = rhs[n + i].add(*k);
    }
    assert_eq!(lhs, rhs);
}

#[test]
fn witness_satisfies_the_second_ring_identity() {
    let params = RegevParams { n: 128, eta: 2, plain_bits: 8 };
    let mut rng = SmallRng::seed_from_u64(9);
    let (pk, _) = keygen(&mut rng, &params);
    let m: Vec<u8> = (0..params.n).map(|_| rng.random_range(0..=1)).collect();
    let (ct, w) = encrypt(&mut rng, &params, &pk, &m);

    let n = params.n;
    let delta = F::from_u32(params.delta());
    let mut lhs = full_poly_mul(&pk.b, &small_to_field(&w.r));
    for i in 0..n {
        let noise = centered_to_field(w.e2u[i] as i64 - w.e2v[i] as i64);
        lhs[i] = lhs[i].add(noise).add(delta.mul(F::from_u8(w.m[i])));
    }
    let mut rhs = vec![F::zero(); 2 * n];
    for i in 0..n {
        rhs[i] = ct.c2[i].add(w.k2[i]);
        rhs[n + i] = w.k2[i];
    }
    assert_eq!(lhs, rhs);
}

#[test]
fn parameter_sets_have_the_published_numbers() {
    let small = RegevParams::n1024();
    assert_eq!((small.n, small.eta, small.plain_bits), (1024, 2, 8));
    assert_eq!(small.log_n(), 10);
    let large = RegevParams::n2048();
    assert_eq!((large.n, large.eta, large.plain_bits), (2048, 2, 8));
    assert_eq!(large.log_n(), 11);
    assert_eq!(RegevParams::q(), 2013265921);
    assert_eq!(small.t(), 256);
    assert_eq!(small.delta(), 2013265921 / 256);
    assert!(small.is_valid());
    assert!(!RegevParams { n: 100, eta: 2, plain_bits: 8 }.is_valid());
}

#[test]
fn centered_lift_and_back() {
    let q = F::order();
    assert_eq!(centered_to_field(-1), F::from_u32(q - 1));
    assert_eq!(centered_to_field(5), F::from_u32(5));
    assert_eq!(field_to_centered(F::from_u32(q - 1)), -1);
    assert_eq!(field_to_centered(F::from_u32((q - 1) / 2)), ((q - 1) / 2) as i64);
    assert_eq!(field_to_centered(F::from_u32((q + 1) / 2)), -(((q - 1) / 2) as i64));
}

#[test]
fn binomial_halves_count_bits() {
    assert_eq!(cbd2_halves(0b0000), (0, 0));
    assert_eq!(cbd2_halves(0b0111), (2, 1));
    assert_eq!(cbd2_halves(0b1100), (0, 2));
    assert_eq!(cbd2_halves(0b1111_0001), (1, 0));
}

#[test]
fn negacyclic_split_takes_remainder_and_quotient() {
    let q = F::order();
    let (lo, hi) = split_negacyclic(&elements(&[3, 10, 8, 0]), 2);
    assert_eq!(lo, elements(&[q - 5, 10]));
    assert_eq!(hi, elements(&[8, 0]));
}

#[test]
fn key_of_given_randomness() {
    // a = 1 + 2x, s = 1 - x: a*s = 1 + x - 2x^2 = 3 + x (mod x^2 + 1).
    let (pk, sk) = keygen_from(elements(&[1, 2]), vec![1, -1], &[2, 0], &[0, 1]);
    assert_eq!(pk.a, elements(&[1, 2]));
    assert_eq!(pk.b, elements(&[5, 0]));
    assert_eq!(sk.s, vec![1, -1]);
}

#[test]
fn encryption_of_given_randomness() {
    let params = RegevParams { n: 2, eta: 2, plain_bits: 8 };
    let pk = PublicKey { a: elements(&[1, 2]), b: elements(&[5, 0]) };
    let (ct, w) = encrypt_with(
        &params,
        &pk,
        &[1, 0],
        vec![0, 1],
        vec![1, 0],
        vec![0, 0],
        vec![0, 0],
        vec![0, 2],
    );
    // a*r = x + 2x^2 = -2 + x, with quotient 2; b*r = 5x.
    let q = F::order();
    assert_eq!(ct.c1, elements(&[q - 1, 1]));
    assert_eq!(w.k1, elements(&[2, 0]));
    assert_eq!(ct.c2, elements(&[params.delta(), 3]));
    assert_eq!(w.k2, elements(&[0, 0]));
    assert_eq!(w.m, vec![1, 0]);
}

#[test]
fn decryption_rounds_to_the_nearest_digit() {
    let params = RegevParams { n: 2, eta: 2, plain_bits: 8 };
    let delta = params.delta();
    let sk = SecretKey { s: vec![0, 0] };
    let ct = Ciphertext { c1: elements(&[0, 0]), c2: elements(&[3 * delta + 100, 7 * delta - 100]) };
    assert_eq!(decrypt(&params, &sk, &ct), vec![3, 7]);
}

#[test]
fn values_are_weighted_digits() {
    assert_eq!(encode_value_message(6, 4), vec![0, 1, 1, 0]);
    assert_eq!(decode_value(&[0, 1, 1, 0]), 6);
    assert_eq!(decode_value(&[2, 1, 0, 3]), 28);
}

#[test]
fn sums_of_digits_do_not_wrap() {
    let params = RegevParams { n: 64, eta: 2, plain_bits: 8 };
    let mut rng = SmallRng::seed_from_u64(21);
    let (pk, sk) = keygen(&mut rng, &params);
    let m = encode_value_message(1, params.n);
    let (x, _) = encrypt(&mut rng, &params, &pk, &m);
    let (y, _) = encrypt(&mut rng, &params, &pk, &m);
    let sum = add_ciphertexts(&x, &y);
    assert_eq!(decrypt(&params, &sk, &sum)[0], 2);
    assert_eq!(decrypt_value(&params, &sk, &sum), 2);
}
