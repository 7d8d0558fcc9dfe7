//! FRI parameters of the proof configurations.
//!
//! BabyBear is both the ciphertext modulus and the proof field, and (unlike
//! Mersenne31) is NTT-friendly, so the *encryptor* also gets fast negacyclic
//! multiplication natively.

use vstd::prelude::*;

verus! {

/// Number of random codewords that the hiding configuration adds to a batch.
pub const NUM_RANDOM_CODEWORDS: usize = 4;

/// The numbers that determine a FRI instance.
#[derive(Clone, Copy, Debug, PartialEq, Eq, Structural)]
pub struct FriParametersSpec {
    pub log_blowup: usize,
    pub log_final_poly_len: usize,
    pub max_log_arity: usize,
    pub num_queries: usize,
    pub commit_proof_of_work_bits: usize,
    pub query_proof_of_work_bits: usize,
}

impl FriParametersSpec {
    /// Conjectured security in bits: every query contributes the logarithm of
    /// the blowup, and grinding is added on top.
    pub open spec fn conjectured_bits(self) -> int {
        self.log_blowup * self.num_queries + self.query_proof_of_work_bits
    }
}

/// Production-leaning parameters: blowup 2, 84 queries, 16-bit grinding
/// (100-bit conjectured security with the quartic extension).
pub fn default_fri() -> (r: FriParametersSpec)
    ensures
        r == (FriParametersSpec {
            log_blowup: 1,
            log_final_poly_len: 0,
            max_log_arity: 4,
            num_queries: 84,
            commit_proof_of_work_bits: 8,
            query_proof_of_work_bits: 16,
        }),
        r.conjectured_bits() == 100,
{
    FriParametersSpec {
        log_blowup: 1,
        log_final_poly_len: 0,
        max_log_arity: 4,
        num_queries: 84,
        commit_proof_of_work_bits: 8,
        query_proof_of_work_bits: 16,
    }
}

/// Cheap parameters for tests: few queries, tiny grinding. NOT secure.
pub fn test_fri() -> (r: FriParametersSpec)
    ensures
        r == (FriParametersSpec {
            log_blowup: 1,
            log_final_poly_len: 0,
            max_log_arity: 1,
            num_queries: 8,
            commit_proof_of_work_bits: 1,
            query_proof_of_work_bits: 1,
        }),
{
    FriParametersSpec {
        log_blowup: 1,
        log_final_poly_len: 0,
        max_log_arity: 1,
        num_queries: 8,
        commit_proof_of_work_bits: 1,
        query_proof_of_work_bits: 1,
    }
}

/// Parameters of the zero-knowledge configuration: twice the blowup exponent
/// and half the queries, so the security level is that of [`default_fri`].
pub fn zk_fri() -> (r: FriParametersSpec)
    ensures
        r == (FriParametersSpec {
            log_blowup: 2,
            log_final_poly_len: 0,
            max_log_arity: 1,
            num_queries: 42,
            commit_proof_of_work_bits: 8,
            query_proof_of_work_bits: 16,
        }),
        r.conjectured_bits() == 100,
{
    FriParametersSpec {
        log_blowup: 2,
        log_final_poly_len: 0,
        max_log_arity: 1,
        num_queries: 42,
        commit_proof_of_work_bits: 8,
        query_proof_of_work_bits: 16,
    }
}

} // verus!
