//! Field arithmetic, configuration numbers and thread-pool sizing.

use regev_plonky3::config::{default_fri, test_fri, zk_fri, FriParametersSpec};
use regev_plonky3::ext::Challenge;
use regev_plonky3::field::F;
use regev_plonky3::pool::{default_threads, pool_threads};

#[test]
fn production_parameters() {
    assert_eq!(
        default_fri(),
        FriParametersSpec {
            log_blowup: 1,
            log_final_poly_len: 0,
            max_log_arity: 4,
            num_queries: 84,
            commit_proof_of_work_bits: 8,
            query_proof_of_work_bits: 16,
        }
    );
    assert_eq!(test_fri().num_queries, 8);
    let (d, z) = (default_fri(), zk_fri());
    assert_eq!(
        d.log_blowup * d.num_queries + d.query_proof_of_work_bits,
        z.log_blowup * z.num_queries + z.query_proof_of_work_bits
    );
}

#[test]
fn thread_counts() {
    assert_eq!(default_threads(None), 4);
    assert_eq!(default_threads(Some(1)), 1);
    assert_eq!(default_threads(Some(14)), 6);
    assert_eq!(pool_threads(true, Some(3), Some(8)), None);
    assert_eq!(pool_threads(false, Some(12), Some(8)), Some(12));
    assert_eq!(pool_threads(false, Some(0), Some(3)), Some(3));
    assert_eq!(pool_threads(false, None, None), Some(4));
}

#[test]
fn field_arithmetic_is_modular() {
    let q = F::order();
    assert_eq!(q, 2013265921);
    assert_eq!(F::from_u32(q).as_canonical_u32(), 0);
    assert_eq!(F::from_u32(u32::MAX).as_canonical_u32(), u32::MAX - 2 * q);
    let x = F::from_u32(q - 2);
    assert_eq!(x.add(F::from_u32(5)).as_canonical_u32(), 3);
    assert_eq!(F::from_u32(2).sub(F::from_u32(5)).as_canonical_u32(), q - 3);
    assert_eq!(x.mul(x).as_canonical_u32(), 4);
    assert_eq!(x.neg().as_canonical_u32(), 2);
    assert_eq!(F::zero().neg(), F::zero());
    assert_eq!(F::from_u32(7).mul(F::from_u32(7).inverse()), F::one());
}

#[test]
fn two_adic_generators_have_exact_order() {
    for bits in 0..=27 {
        let g = F::two_adic_generator(bits);
        let mut x = g;
        for _ in 0..bits {
            assert_ne!(x, F::one());
            x = x.mul(x);
        }
        assert_eq!(x, F::one());
    }
}

#[test]
fn extension_is_modulo_x4_minus_11() {
    let x = Challenge::from_coefficients([0, 1, 0, 0]);
    let x4 = x.mul(x).mul(x).mul(x);
    assert_eq!(x4, Challenge::from_base(F::from_u32(11)));
    let y = Challenge::from_coefficients([1, 2, 3, 4]);
    assert_eq!(y.sub(y), Challenge::zero());
    assert_eq!(y.mul(Challenge::one()), y);
    assert_eq!(
        y.add(x),
        Challenge::from_coefficients([1, 3, 3, 4])
    );
    assert_eq!(y.mul(x), Challenge::from_coefficients([44, 1, 2, 3]));
}
