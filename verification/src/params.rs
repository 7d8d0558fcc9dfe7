//! Parameter sets for the Regev (Ring-LWE) scheme.
//!
//! The ciphertext modulus `q` is fixed to the proof-system field prime
//! (BabyBear: `q = 2^31 - 2^27 + 1 = 2013265921`), so that every `mod q`
//! operation in the scheme is a native field operation in the STARK.
//!
//! # Security
//!
//! Ring-LWE hardness is governed by the ring dimension `n`, the modulus `q`,
//! and the noise width. With `q` near `2^31` and centered-binomial noise
//! `CBD(2)`, `n = 1024` lands at roughly `2^100` classical core-SVP security,
//! below the 128-bit target; `n = 2048` gives a comfortable margin. Run a
//! lattice estimator on the final parameter choice before deploying.

use crate::dft;
use crate::field;
use crate::field::F;
use crate::ntt;
use vstd::arithmetic::power2::*;
use vstd::prelude::*;

verus! {

/// Parameters for the Regev encryption scheme over `Z_q[x]/(x^n + 1)`,
/// with `q` equal to the BabyBear prime.
#[derive(Clone, Copy, Debug, PartialEq, Eq, Structural)]
pub struct RegevParams {
    /// Ring dimension; must be a power of two (it is also the STARK trace
    /// height, so it must satisfy any minimum imposed by the FRI config).
    pub n: usize,
    /// Centered binomial noise parameter; the implementation is specialised
    /// to 2 (noise in `[-2, 2]`, decomposed as `u - v` with
    /// `u, v` in `{0, 1, 2}` so smallness is a degree-3 constraint).
    pub eta: usize,
    /// Bits of the plaintext modulus `t = 2^plain_bits`.
    pub plain_bits: usize,
}

impl RegevParams {
    /// The plaintext modulus `t`.
    pub open spec fn modulus(self) -> int {
        pow2(self.plain_bits as nat) as int
    }

    /// The message scaling factor `floor(q / t)`.
    pub open spec fn scale(self) -> int {
        field::q() / self.modulus()
    }

    /// The parameters the scheme works with: a power-of-two dimension whose
    /// products fit a transform, the one supported noise width, and digits
    /// that fit a byte.
    pub open spec fn valid(self) -> bool {
        &&& ntt::is_ring_size(self.n as int)
        &&& self.eta == 2
        &&& 1 <= self.plain_bits <= 8
    }

    /// `n = 1024`. Re-estimate security before use; roughly `2^100` classical
    /// with ternary secrets and CBD(2) noise.
    pub fn n1024() -> (r: RegevParams)
        ensures
            r == (RegevParams { n: 1024, eta: 2, plain_bits: 8 }),
            r.valid(),
    {
        proof {
            lemma2_to64();
            dft::lemma_log2_pow2(10);
        }
        RegevParams { n: 1024, eta: 2, plain_bits: 8 }
    }

    /// `n = 2048`, comfortable 128-bit-plus margin at `q` near `2^31`.
    pub fn n2048() -> (r: RegevParams)
        ensures
            r == (RegevParams { n: 2048, eta: 2, plain_bits: 8 }),
            r.valid(),
    {
        proof {
            lemma2_to64();
            dft::lemma_log2_pow2(11);
        }
        RegevParams { n: 2048, eta: 2, plain_bits: 8 }
    }

    /// The ciphertext modulus `q` (the BabyBear prime).
    pub fn q() -> (r: u32)
        ensures
            r == field::q(),
    {
        F::order()
    }

    /// The plaintext modulus `t = 2^plain_bits`.
    pub fn t(&self) -> (r: u32)
        requires
            self.plain_bits < 32,
        ensures
            r == self.modulus(),
    {
        let mut r: u32 = 1;
        let mut i: usize = 0;
        proof {
            lemma2_to64();
        }
        while i < self.plain_bits
            invariant
                i <= self.plain_bits < 32,
                r == pow2(i as nat),
            decreases self.plain_bits - i,
        {
            proof {
                dft::lemma_pow2_step(i as nat);
                dft::lemma_pow2_monotone(i as nat + 1, 31);
                lemma2_to64();
            }
            r = r * 2;
            i = i + 1;
        }
        r
    }

    /// Message scaling factor `floor(q / t)`.
    pub fn delta(&self) -> (r: u32)
        requires
            self.plain_bits < 32,
        ensures
            r == self.scale(),
    {
        proof {
            lemma_pow2_pos(self.plain_bits as nat);
        }
        RegevParams::q() / self.t()
    }

    /// log2 of the ring dimension.
    pub fn log_n(&self) -> (r: usize)
        requires
            dft::is_pow2(self.n as int),
        ensures
            r == dft::log2(self.n as int),
            pow2(r as nat) == self.n,
    {
        ntt::log2_exact(self.n)
    }

    /// Whether the parameters are ones the scheme works with.
    pub fn is_valid(&self) -> (r: bool)
        ensures
            r == self.valid(),
    {
        ntt::is_power_of_two(self.n) && self.n <= 0x400_0000 && self.eta == 2 && self.plain_bits
            >= 1 && self.plain_bits <= 8
    }
}

} // verus!
