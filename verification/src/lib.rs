//! # regev-plonky3
//!
//! Plonky3-friendly Regev (Ring-LWE) encryption with value-level additive
//! homomorphism, and the constraint systems of its STARK proofs: correct
//! encryption, plaintext range, and conservation of transfers
//! (`before = after + delta` over encrypted values).
//!
//! 1. **Native modulus.** The ciphertext modulus `q` *is* the proof-field prime
//!    (BabyBear, `q = 2^31 - 2^27 + 1`). Every ring operation is a native field
//!    operation; no limb decomposition, no reduction gadgets.
//!
//! 2. **Linear-size multiplication proof.** The products `a*r`, `b*r` in
//!    `Z_q[x]/(x^n + 1)` are never computed in-circuit. A random point `z` is
//!    sampled after the witness is committed, every polynomial is evaluated at
//!    `z` with an O(n) Horner column ([`gadget::EvalGadget`]), and the
//!    identities
//!    `c1(z) = a(z)*r(z) + e1(z) - (z^n + 1)*k1(z)` and
//!    `c2(z) = b(z)*r(z) + e2(z) + D*m(z) - (z^n + 1)*k2(z)`
//!    are enforced at that single point.
//!
//! 3. **Cheap smallness checks.** Ternary `r` and CBD(2) noise are enforced by
//!    degree-3 vanishing constraints.
//!
//! Only evaluations of *public* polynomials are published. The witness
//! evaluations stay in the committed auxiliary trace and enter the ring
//! identities as in-circuit constraints.
//!
//! ## Layout
//!
//! - The scheme: [`field`], [`ntt`], [`params`], [`regev`].
//! - The proofs: [`symbolic`] (constraints and their meaning), [`gadget`],
//!   [`air`], [`range`], [`transfer`], [`transcript`], [`prove`].
//! - What holds of them: [`correctness`] (decryption and homomorphism),
//!   [`soundness`] and [`transfer_soundness`] (what a satisfied trace means),
//!   [`binding`] (what an accepted statement means), and [`laws`] and
//!   [`trace_laws`] (what callers can rely on, call by call).
//! - Mathematics: [`sums`], [`dft`], [`poly`], [`ext`], [`prime`], [`roots`].
//! - Surroundings: [`config`], [`pool`], [`portability`].

pub mod air;
pub mod binding;
pub mod config;
pub mod correctness;
pub mod dft;
pub mod ext;
pub mod field;
pub mod gadget;
pub mod laws;
pub mod ntt;
pub mod params;
pub mod poly;
pub mod pool;
pub mod portability;
pub mod prime;
pub mod prove;
pub mod range;
pub mod regev;
pub mod roots;
pub mod soundness;
pub mod sums;
pub mod symbolic;
pub mod trace_laws;
pub mod transcript;
pub mod transfer;
pub mod transfer_soundness;

pub use ext::Challenge;
pub use field::F;
pub use params::RegevParams;
pub use prove::{
    verify_encryptions, verify_encryptions_with_range, verify_transfers, RegevProof,
    RegevVerifyError,
};
pub use range::RangeSpec;
pub use regev::{
    add_ciphertexts, decrypt, decrypt_value, encode_value_message, encrypt, keygen, Ciphertext,
    EncryptionWitness, PublicKey, SecretKey,
};
pub use transfer::{Transfer, TransferWitness};
