//! Batched Regev encryption and transfer proofs: what goes into the STARK
//! prover, and what the verifier decides around the STARK verifier.
//!
//! One STARK instance per ciphertext (or transfer), all batched into a single
//! proof.
//!
//! # Statement
//!
//! For each ciphertext `(c1, c2)` under public key `(a, b)`:
//!
//! > "I know `r` ternary, `e1, e2` with coefficients in `[-2, 2]`, and a
//! > binary `m`, such that `c1 = a*r + e1` and `c2 = b*r + e2 + D*m` in
//! > `Z_q[x]/(x^n + 1)`."
//!
//! # Verification structure
//!
//! 1. The STARK verifier checks all in-circuit constraints (smallness, Horner
//!    evaluation columns, the two ring identities at the random point `z`) and
//!    returns `z`.
//! 2. The functions here recompute `a(z), b(z), c1(z), c2(z)` from the claimed
//!    statement and compare them to the evaluations published in the proof.
//!    This binds the committed trace columns to the actual ciphertext: by
//!    Schwartz-Zippel, agreement at the post-commitment challenge `z`
//!    implies equality as polynomials but for a soundness error below
//!    `2n / |EF|`.

use crate::air;
use crate::air::{generate_trace, public_values, RegevEncAir};
use crate::dft;
use crate::ext::{Challenge, Ext};
use crate::field;
use crate::field::F;
use crate::gadget::{Lookup, LookupData};
use crate::params::RegevParams;
use crate::poly;
use crate::range;
use crate::range::{generate_range_trace, RangeSpec, RegevRangeAir};
use crate::regev::{Ciphertext, CiphertextModel, EncryptionWitness, KeyModel, PublicKey};
use crate::symbolic::Matrix;
use crate::transfer;
use crate::transfer::{
    generate_transfer_trace, transfer_public_values, RegevTransferAir, Transfer, TransferWitness,
};
use vstd::prelude::*;

verus! {

/// What the outer verifier reads of a batched proof.
#[derive(Clone, Debug)]
pub struct RegevProof {
    /// log2 of the trace height of each instance.
    pub degree_bits: Vec<usize>,
    /// The published evaluations of each instance.
    pub global_lookup_data: Vec<Vec<LookupData>>,
}

/// Why a proof was rejected.
#[derive(Clone, Debug, PartialEq, Eq)]
pub enum RegevVerifyError {
    /// Number of ciphertexts and proof instances disagree, or trace sizes
    /// don't match the ring dimension.
    Shape(&'static str),
    /// The inner STARK failed (constraints, openings, FRI, ...).
    Stark(String),
    /// A published evaluation does not match the claimed statement:
    /// the proof was made for a different public key or ciphertext.
    StatementMismatch { instance: usize, poly: &'static str },
}

/// One instance handed to the STARK prover.
#[derive(Debug)]
pub struct Instance {
    pub trace: Matrix,
    pub public_values: Vec<F>,
    pub lookups: Vec<Lookup>,
}

/// The decimal digits of a number.
pub open spec fn decimal(x: nat) -> Seq<char>
    decreases x,
{
    let d = seq![(('0' as int) + (x % 10)) as char];
    if x < 10 {
        d
    } else {
        decimal(x / 10) + d
    }
}

/// `usize::to_string`: the decimal digits, without leading zeros.
#[verifier::external_body]
fn to_decimal(x: usize) -> (r: String)
    ensures
        r@ == decimal(x as nat),
{
    x.to_string()
}

impl RegevVerifyError {
    /// The message that describes the error.
    pub open spec fn text(self) -> Seq<char> {
        match self {
            RegevVerifyError::Shape(s) => "malformed proof: "@ + s@,
            RegevVerifyError::Stark(e) => "STARK verification failed: "@ + e@,
            RegevVerifyError::StatementMismatch { instance, poly } => "instance "@ + decimal(
                instance as nat,
            ) + ": published evaluation of `"@ + poly@ + "` does not match statement"@,
        }
    }

    /// The message that describes the error.
    pub fn message(&self) -> (r: String)
        ensures
            r@ == self.text(),
    {
        match self {
            RegevVerifyError::Shape(s) => {
                let mut r: String = "malformed proof: ".to_owned();
                r.append(s);
                r
            },
            RegevVerifyError::Stark(e) => {
                let mut r: String = "STARK verification failed: ".to_owned();
                r.append(e.as_str());
                r
            },
            RegevVerifyError::StatementMismatch { instance, poly } => {
                let mut r: String = "instance ".to_owned();
                let n = to_decimal(*instance);
                r.append(n.as_str());
                r.append(": published evaluation of `");
                r.append(poly);
                r.append("` does not match statement");
                r
            },
        }
    }
}

/// Horner evaluation of a base-field coefficient vector at an extension
/// field point: `P(z)`, the sum of `p_i * z^i`.
pub fn eval_at(coeffs: &[F], z: Challenge) -> (r: Challenge)
    ensures
        r@ == poly::eval(field::vals(coeffs@), z@).reduced(),
{
    let ghost c = field::vals(coeffs@);
    let mut acc = Challenge::zero();
    let mut i: usize = coeffs.len();
    assert(Ext::of(0).reduced() == Ext::of(0));
    while i > 0
        invariant
            i <= coeffs@.len(),
            c == field::vals(coeffs@),
            acc@ == poly::horner(c, i as int, z@).reduced(),
        decreases i,
    {
        i = i - 1;
        let ghost acc0 = acc@;
        acc = acc.mul(z).add(Challenge::from_base(coeffs[i]));
        proof {
            coeffs@[i as int].lemma_view_range();
            crate::gadget::lemma_horner_reduced(c, i as int, z@, acc0, c[i as int], acc@);
        }
    }
    proof {
        poly::lemma_horner_eval(c, z@);
    }
    acc
}

// ---------------------------------------------------------------------------
// Statement binding.
// ---------------------------------------------------------------------------
/// The value of a claimed polynomial at the challenge.
pub open spec fn value_at(p: Seq<int>, z: Ext) -> Ext {
    poly::eval(p, z).reduced()
}

/// The verdict on one encryption instance: the first thing that is wrong.
pub open spec fn encryption_verdict(
    n: int,
    pk: KeyModel,
    ct: CiphertextModel,
    data: Seq<LookupData>,
    z: Ext,
    instance: usize,
) -> Result<(), RegevVerifyError> {
    if data.len() != 4 {
        Err(RegevVerifyError::Shape("expected 4 published evaluations"))
    } else if !ct.sized(n) {
        Err(RegevVerifyError::Shape("ciphertext length != n"))
    } else if data[0].expected_cumulated@ != value_at(pk.a, z) {
        Err(RegevVerifyError::StatementMismatch { instance, poly: "a" })
    } else if data[1].expected_cumulated@ != value_at(pk.b, z) {
        Err(RegevVerifyError::StatementMismatch { instance, poly: "b" })
    } else if data[2].expected_cumulated@ != value_at(ct.c1, z) {
        Err(RegevVerifyError::StatementMismatch { instance, poly: "c1" })
    } else if data[3].expected_cumulated@ != value_at(ct.c2, z) {
        Err(RegevVerifyError::StatementMismatch { instance, poly: "c2" })
    } else {
        Ok(())
    }
}

/// The verdict on the instances from `i` on: that of the first bad one.
pub open spec fn encryption_binding(
    n: int,
    pk: KeyModel,
    cts: Seq<Ciphertext>,
    proof: RegevProof,
    challenges: Seq<Vec<Challenge>>,
    i: int,
) -> Result<(), RegevVerifyError>
    decreases cts.len() - i,
{
    if i >= cts.len() {
        Ok(())
    } else {
        let v = encryption_verdict(
            n,
            pk,
            cts[i]@,
            proof.global_lookup_data@[i]@,
            challenges[i]@[0]@,
            i as usize,
        );
        if v is Err {
            v
        } else {
            encryption_binding(n, pk, cts, proof, challenges, i + 1)
        }
    }
}

/// Every trace has the height of the ring dimension.
pub open spec fn heights_match(proof: RegevProof, count: int, bits: int) -> bool {
    &&& proof.degree_bits@.len() == count
    &&& forall|i: int| 0 <= i < count ==> #[trigger] proof.degree_bits@[i] == bits
}

/// The verdict on the shape of a batch.
pub open spec fn shape_verdict(
    params: RegevParams,
    pk: KeyModel,
    count: int,
    proof: RegevProof,
    is_zk: int,
) -> Result<(), RegevVerifyError> {
    if count == 0 {
        Err(RegevVerifyError::Shape("empty batch"))
    } else if !pk.sized(params.n as int) {
        Err(RegevVerifyError::Shape("public key length != n"))
    } else if !heights_match(proof, count, dft::log2(params.n as int) + is_zk) {
        Err(RegevVerifyError::Shape("trace height != ring dimension"))
    } else {
        Ok(())
    }
}

/// Checks the shape of a batch before the STARK is verified.
///
/// The Horner argument identifies "the polynomial" with "the trace
/// column", so the trace height must equal the ring dimension.
pub fn check_shape(
    params: &RegevParams,
    pk: &PublicKey,
    count: usize,
    proof: &RegevProof,
    is_zk: usize,
) -> (r: Result<(), RegevVerifyError>)
    requires
        count > 0 && pk@.sized(params.n as int) ==> dft::is_pow2(params.n as int),
        is_zk <= 1,
    ensures
        r == shape_verdict(*params, pk@, count as int, *proof, is_zk as int),
{
    if count == 0 {
        return Err(RegevVerifyError::Shape("empty batch"));
    }
    if pk.a.len() != params.n || pk.b.len() != params.n {
        return Err(RegevVerifyError::Shape("public key length != n"));
    }
    proof {
        vstd::arithmetic::power2::lemma_pow2_pos(dft::log2(params.n as int));
        lemma_log2_small(params.n as int);
    }
    let expected: usize = params.log_n() + is_zk;
    if proof.degree_bits.len() != count {
        return Err(RegevVerifyError::Shape("trace height != ring dimension"));
    }
    let mut i: usize = 0;
    while i < count
        invariant
            i <= count,
            proof.degree_bits@.len() == count,
            count != 0,
            pk@.sized(params.n as int),
            expected == dft::log2(params.n as int) + is_zk,
            forall|j: int| 0 <= j < i ==> #[trigger] proof.degree_bits@[j] == expected,
        decreases count - i,
    {
        if proof.degree_bits[i] != expected {
            assert(!heights_match(*proof, count as int, expected as int));
            return Err(RegevVerifyError::Shape("trace height != ring dimension"));
        }
        i = i + 1;
    }
    Ok(())
}

proof fn lemma_log2_small(n: int)
    requires
        1 <= n,
    ensures
        dft::log2(n) < n,
    decreases n,
{
    if n > 1 {
        lemma_log2_small(n / 2);
    }
}

/// Whether a published evaluation is the value of a claimed polynomial.
fn matches_claim(data: &LookupData, claim: &[F], z: Challenge) -> (r: bool)
    ensures
        r == (data.expected_cumulated@ == value_at(field::vals(claim@), z@)),
{
    data.expected_cumulated == eval_at(claim, z)
}

/// The verdict on one encryption instance.
pub fn bind_encryption(
    params: &RegevParams,
    pk: &PublicKey,
    ct: &Ciphertext,
    data: &[LookupData],
    z: Challenge,
    instance: usize,
) -> (r: Result<(), RegevVerifyError>)
    ensures
        r == encryption_verdict(params.n as int, pk@, ct@, data@, z@, instance),
{
    if data.len() != 4 {
        return Err(RegevVerifyError::Shape("expected 4 published evaluations"));
    }
    if ct.c1.len() != params.n || ct.c2.len() != params.n {
        return Err(RegevVerifyError::Shape("ciphertext length != n"));
    }
    if !matches_claim(&data[0], &pk.a, z) {
        return Err(RegevVerifyError::StatementMismatch { instance, poly: "a" });
    }
    if !matches_claim(&data[1], &pk.b, z) {
        return Err(RegevVerifyError::StatementMismatch { instance, poly: "b" });
    }
    if !matches_claim(&data[2], &ct.c1, z) {
        return Err(RegevVerifyError::StatementMismatch { instance, poly: "c1" });
    }
    if !matches_claim(&data[3], &ct.c2, z) {
        return Err(RegevVerifyError::StatementMismatch { instance, poly: "c2" });
    }
    Ok(())
}

/// What the STARK verifier reported: the evaluation challenges of every
/// instance, or why it failed.
pub type StarkOutcome = Result<Vec<Vec<Challenge>>, String>;

/// A successful outcome has a challenge and published data for every instance.
pub open spec fn outcome_covers(outcome: StarkOutcome, proof: RegevProof, count: int) -> bool {
    outcome matches Ok(ch) ==> {
        &&& ch@.len() >= count
        &&& proof.global_lookup_data@.len() >= count
        &&& forall|i: int| 0 <= i < count ==> (#[trigger] ch@[i])@.len() >= 1
    }
}

/// The verdict on a batch of encryptions.
pub open spec fn encryptions_verdict(
    params: RegevParams,
    pk: KeyModel,
    cts: Seq<Ciphertext>,
    proof: RegevProof,
    is_zk: int,
    outcome: StarkOutcome,
) -> Result<(), RegevVerifyError> {
    let shape = shape_verdict(params, pk, cts.len() as int, proof, is_zk);
    if shape is Err {
        shape
    } else {
        match outcome {
            Err(e) => Err(RegevVerifyError::Stark(e)),
            Ok(ch) => encryption_binding(params.n as int, pk, cts, proof, ch@, 0),
        }
    }
}

/// Verify a batched encryption proof against `pk` and the ciphertexts, given
/// what the STARK verifier reported on it.
pub fn verify_encryptions(
    params: &RegevParams,
    pk: &PublicKey,
    ciphertexts: &[Ciphertext],
    proof: &RegevProof,
    is_zk: usize,
    outcome: StarkOutcome,
) -> (r: Result<(), RegevVerifyError>)
    requires
        ciphertexts@.len() > 0 && pk@.sized(params.n as int) ==> dft::is_pow2(params.n as int),
        is_zk <= 1,
        outcome_covers(outcome, *proof, ciphertexts@.len() as int),
    ensures
        r == encryptions_verdict(
            *params,
            pk@,
            ciphertexts@,
            *proof,
            is_zk as int,
            outcome,
        ),
{
    let shape = check_shape(params, pk, ciphertexts.len(), proof, is_zk);
    if shape.is_err() {
        return shape;
    }
    match outcome {
        Err(e) => Err(RegevVerifyError::Stark(e)),
        Ok(challenges) => {
            let count: usize = ciphertexts.len();
            let ghost want = encryptions_verdict(
                *params,
                pk@,
                ciphertexts@,
                *proof,
                is_zk as int,
                outcome,
            );
            let mut i: usize = 0;
            while i < count
                invariant
                    i <= count,
                    count == ciphertexts@.len(),
                    challenges@.len() >= count,
                    proof.global_lookup_data@.len() >= count,
                    forall|i: int| 0 <= i < count ==> (#[trigger] challenges@[i])@.len() >= 1,
                    want == encryptions_verdict(
                        *params,
                        pk@,
                        ciphertexts@,
                        *proof,
                        is_zk as int,
                        outcome,
                    ),
                    want == encryption_binding(
                        params.n as int,
                        pk@,
                        ciphertexts@,
                        *proof,
                        challenges@,
                        i as int,
                    ),
                decreases count - i,
            {
                assert(challenges@[i as int]@.len() >= 1);
                let z = challenges[i][0];
                let v = bind_encryption(
                    params,
                    pk,
                    &ciphertexts[i],
                    &proof.global_lookup_data[i],
                    z,
                    i,
                );
                if v.is_err() {
                    return v;
                }
                i = i + 1;
            }
            Ok(())
        },
    }
}

/// Verify a batched encryption proof with a range proof attached, given what
/// the STARK verifier reported on it for the range that the verifier wants to
/// enforce. The range itself is enforced by the STARK's constraints.
pub fn verify_encryptions_with_range(
    params: &RegevParams,
    pk: &PublicKey,
    ciphertexts: &[Ciphertext],
    proof: &RegevProof,
    spec: RangeSpec,
    is_zk: usize,
    outcome: StarkOutcome,
) -> (r: Result<(), RegevVerifyError>)
    requires
        ciphertexts@.len() > 0 && pk@.sized(params.n as int) ==> dft::is_pow2(params.n as int),
        spec.valid(params.n as int),
        is_zk <= 1,
        outcome_covers(outcome, *proof, ciphertexts@.len() as int),
    ensures
        r == encryptions_verdict(
            *params,
            pk@,
            ciphertexts@,
            *proof,
            is_zk as int,
            outcome,
        ),
{
    verify_encryptions(params, pk, ciphertexts, proof, is_zk, outcome)
}

// ---------------------------------------------------------------------------
// Transfers.
// ---------------------------------------------------------------------------
/// The verdict on one transfer instance: the first thing that is wrong.
pub open spec fn transfer_verdict(
    n: int,
    pk: KeyModel,
    t: Transfer,
    data: Seq<LookupData>,
    z: Ext,
    instance: usize,
) -> Result<(), RegevVerifyError> {
    if data.len() != 8 {
        Err(RegevVerifyError::Shape("expected 8 published evaluations"))
    } else if !t.before@.sized(n) || !t.delta@.sized(n) || !t.after@.sized(n) {
        Err(RegevVerifyError::Shape("ciphertext length != n"))
    } else if data[0].expected_cumulated@ != value_at(pk.a, z) {
        Err(RegevVerifyError::StatementMismatch { instance, poly: "a" })
    } else if data[1].expected_cumulated@ != value_at(pk.b, z) {
        Err(RegevVerifyError::StatementMismatch { instance, poly: "b" })
    } else if data[2].expected_cumulated@ != value_at(t.before@.c1, z) {
        Err(RegevVerifyError::StatementMismatch { instance, poly: "c1(before)" })
    } else if data[3].expected_cumulated@ != value_at(t.before@.c2, z) {
        Err(RegevVerifyError::StatementMismatch { instance, poly: "c2(before)" })
    } else if data[4].expected_cumulated@ != value_at(t.delta@.c1, z) {
        Err(RegevVerifyError::StatementMismatch { instance, poly: "c1(delta)" })
    } else if data[5].expected_cumulated@ != value_at(t.delta@.c2, z) {
        Err(RegevVerifyError::StatementMismatch { instance, poly: "c2(delta)" })
    } else if data[6].expected_cumulated@ != value_at(t.after@.c1, z) {
        Err(RegevVerifyError::StatementMismatch { instance, poly: "c1(after)" })
    } else if data[7].expected_cumulated@ != value_at(t.after@.c2, z) {
        Err(RegevVerifyError::StatementMismatch { instance, poly: "c2(after)" })
    } else {
        Ok(())
    }
}

/// The verdict on the instances from `i` on: that of the first bad one.
pub open spec fn transfer_binding(
    n: int,
    pk: KeyModel,
    ts: Seq<Transfer>,
    proof: RegevProof,
    challenges: Seq<Vec<Challenge>>,
    i: int,
) -> Result<(), RegevVerifyError>
    decreases ts.len() - i,
{
    if i >= ts.len() {
        Ok(())
    } else {
        let v = transfer_verdict(
            n,
            pk,
            ts[i],
            proof.global_lookup_data@[i]@,
            challenges[i]@[0]@,
            i as usize,
        );
        if v is Err {
            v
        } else {
            transfer_binding(n, pk, ts, proof, challenges, i + 1)
        }
    }
}

/// The verdict on a batch of transfers.
pub open spec fn transfers_verdict(
    params: RegevParams,
    pk: KeyModel,
    ts: Seq<Transfer>,
    proof: RegevProof,
    is_zk: int,
    outcome: StarkOutcome,
) -> Result<(), RegevVerifyError> {
    let shape = shape_verdict(params, pk, ts.len() as int, proof, is_zk);
    if shape is Err {
        shape
    } else {
        match outcome {
            Err(e) => Err(RegevVerifyError::Stark(e)),
            Ok(ch) => transfer_binding(params.n as int, pk, ts, proof, ch@, 0),
        }
    }
}

/// The verdict on one transfer instance.
pub fn bind_transfer(
    params: &RegevParams,
    pk: &PublicKey,
    t: &Transfer,
    data: &[LookupData],
    z: Challenge,
    instance: usize,
) -> (r: Result<(), RegevVerifyError>)
    ensures
        r == transfer_verdict(params.n as int, pk@, *t, data@, z@, instance),
{
    let n: usize = params.n;
    if data.len() != 8 {
        return Err(RegevVerifyError::Shape("expected 8 published evaluations"));
    }
    if t.before.c1.len() != n || t.before.c2.len() != n || t.delta.c1.len() != n
        || t.delta.c2.len() != n || t.after.c1.len() != n || t.after.c2.len() != n {
        return Err(RegevVerifyError::Shape("ciphertext length != n"));
    }
    if !matches_claim(&data[0], &pk.a, z) {
        return Err(RegevVerifyError::StatementMismatch { instance, poly: "a" });
    }
    if !matches_claim(&data[1], &pk.b, z) {
        return Err(RegevVerifyError::StatementMismatch { instance, poly: "b" });
    }
    if !matches_claim(&data[2], &t.before.c1, z) {
        return Err(RegevVerifyError::StatementMismatch { instance, poly: "c1(before)" });
    }
    if !matches_claim(&data[3], &t.before.c2, z) {
        return Err(RegevVerifyError::StatementMismatch { instance, poly: "c2(before)" });
    }
    if !matches_claim(&data[4], &t.delta.c1, z) {
        return Err(RegevVerifyError::StatementMismatch { instance, poly: "c1(delta)" });
    }
    if !matches_claim(&data[5], &t.delta.c2, z) {
        return Err(RegevVerifyError::StatementMismatch { instance, poly: "c2(delta)" });
    }
    if !matches_claim(&data[6], &t.after.c1, z) {
        return Err(RegevVerifyError::StatementMismatch { instance, poly: "c1(after)" });
    }
    if !matches_claim(&data[7], &t.after.c2, z) {
        return Err(RegevVerifyError::StatementMismatch { instance, poly: "c2(after)" });
    }
    Ok(())
}

/// Verify a batch of transfer proofs against `pk` and the claimed ciphertext
/// triples, given what the STARK verifier reported on it.
pub fn verify_transfers(
    params: &RegevParams,
    pk: &PublicKey,
    transfers: &[Transfer],
    proof: &RegevProof,
    is_zk: usize,
    outcome: StarkOutcome,
) -> (r: Result<(), RegevVerifyError>)
    requires
        transfers@.len() > 0 && pk@.sized(params.n as int) ==> dft::is_pow2(params.n as int),
        is_zk <= 1,
        outcome_covers(outcome, *proof, transfers@.len() as int),
    ensures
        r == transfers_verdict(*params, pk@, transfers@, *proof, is_zk as int, outcome),
{
    let shape = check_shape(params, pk, transfers.len(), proof, is_zk);
    if shape.is_err() {
        return shape;
    }
    match outcome {
        Err(e) => Err(RegevVerifyError::Stark(e)),
        Ok(challenges) => {
            let count: usize = transfers.len();
            let ghost want = transfers_verdict(
                *params,
                pk@,
                transfers@,
                *proof,
                is_zk as int,
                outcome,
            );
            let mut i: usize = 0;
            while i < count
                invariant
                    i <= count,
                    count == transfers@.len(),
                    challenges@.len() >= count,
                    proof.global_lookup_data@.len() >= count,
                    forall|i: int| 0 <= i < count ==> (#[trigger] challenges@[i])@.len() >= 1,
                    want == transfers_verdict(
                        *params,
                        pk@,
                        transfers@,
                        *proof,
                        is_zk as int,
                        outcome,
                    ),
                    want == transfer_binding(
                        params.n as int,
                        pk@,
                        transfers@,
                        *proof,
                        challenges@,
                        i as int,
                    ),
                decreases count - i,
            {
                assert(challenges@[i as int]@.len() >= 1);
                let z = challenges[i][0];
                let v = bind_transfer(
                    params,
                    pk,
                    &transfers[i],
                    &proof.global_lookup_data[i],
                    z,
                    i,
                );
                if v.is_err() {
                    return v;
                }
                i = i + 1;
            }
            Ok(())
        },
    }
}

// ---------------------------------------------------------------------------
// Instances.
// ---------------------------------------------------------------------------
/// The encryption constraint system for a parameter set.
pub fn encryption_air(params: &RegevParams) -> (r: RegevEncAir)
    requires
        dft::is_pow2(params.n as int),
        params.plain_bits < 32,
    ensures
        r.n == params.n,
        r.delta@ == params.scale() % field::q(),
{
    RegevEncAir::new(params.n, F::from_u32(params.delta()))
}

/// The range-proof constraint system for a parameter set.
pub fn range_air(params: &RegevParams, spec: RangeSpec) -> (r: RegevRangeAir)
    requires
        dft::is_pow2(params.n as int),
        params.plain_bits < 32,
        spec.valid(params.n as int),
    ensures
        r.enc.n == params.n,
        r.enc.delta@ == params.scale() % field::q(),
        r.spec == spec,
{
    RegevRangeAir::new(params.n, F::from_u32(params.delta()), spec)
}

/// The transfer constraint system for a parameter set.
pub fn transfer_air(params: &RegevParams) -> (r: RegevTransferAir)
    requires
        dft::is_pow2(params.n as int),
        params.plain_bits < 32,
    ensures
        r.n == params.n,
        r.delta_scale@ == params.scale() % field::q(),
{
    RegevTransferAir::new(params.n, F::from_u32(params.delta()))
}

/// A range trace can be built: the polynomials reach `n` coefficients, and the
/// value is in range.
pub open spec fn provable_in_range(
    pk: PublicKey,
    ct: Ciphertext,
    w: EncryptionWitness,
    spec: RangeSpec,
    n: int,
) -> bool {
    air::covers(pk@, ct@, w@, n) && range::in_range(spec, w@.m, n)
}

/// A transfer trace can be built: the polynomials reach `n` coefficients, and
/// the witnesses are consistent.
pub open spec fn provable_transfer(
    pk: PublicKey,
    t: Transfer,
    w: TransferWitness,
    n: int,
) -> bool {
    transfer::transfer_covers(pk@, t, w, n) && transfer::consistent(w, n)
}

/// What is handed to the prover for one encryption: its trace, its statement
/// and its evaluation arguments.
pub open spec fn is_encryption_instance(
    x: Instance,
    n: int,
    pk: PublicKey,
    ct: Ciphertext,
    w: EncryptionWitness,
) -> bool {
    &&& x.trace.wf()
    &&& x.trace.width == 12
    &&& x.trace.rows() == n
    &&& forall|row: int, col: int|
        #![trigger x.trace.cell(row, col)]
        0 <= row < n && 0 <= col < 12 ==> x.trace.cell(row, col) == air::trace_entry(
            pk@,
            ct@,
            w@,
            row,
            col,
        ) % field::q()
    &&& x.public_values@ == pk.a@ + pk.b@ + ct.c1@ + ct.c2@
    &&& air::is_enc_lookups(x.lookups@)
}

/// What is handed to the prover for one encryption with a range proof.
pub open spec fn is_range_instance(
    x: Instance,
    n: int,
    pk: PublicKey,
    ct: Ciphertext,
    w: EncryptionWitness,
    spec: RangeSpec,
) -> bool {
    &&& x.trace.wf()
    &&& x.trace.width == 17
    &&& x.trace.rows() == n
    &&& forall|row: int, col: int|
        #![trigger x.trace.cell(row, col)]
        0 <= row < n && 0 <= col < 17 ==> x.trace.cell(row, col) == if col < 12 {
            air::trace_entry(pk@, ct@, w@, row, col) % field::q()
        } else {
            range::range_entry(spec, w@.m, row, col) % field::q()
        }
    &&& x.public_values@ == pk.a@ + pk.b@ + ct.c1@ + ct.c2@
    &&& air::is_enc_lookups(x.lookups@)
}

/// What is handed to the prover for one transfer.
pub open spec fn is_transfer_instance(
    x: Instance,
    n: int,
    pk: PublicKey,
    t: Transfer,
    w: TransferWitness,
) -> bool {
    &&& x.trace.wf()
    &&& x.trace.width == 33
    &&& x.trace.rows() == n
    &&& forall|row: int, col: int|
        #![trigger x.trace.cell(row, col)]
        0 <= row < n && 0 <= col < 33 ==> x.trace.cell(row, col) == transfer::transfer_entry(
            pk@,
            t,
            w,
            row,
            col,
        ) % field::q()
    &&& x.public_values@ == pk.a@ + pk.b@ + t.before.c1@ + t.before.c2@ + t.delta.c1@ + t.delta.c2@
        + t.after.c1@ + t.after.c2@
    &&& transfer::is_transfer_lookups(x.lookups@)
}

/// The instances of a batch of encryptions, one per `(ciphertext, witness)`
/// pair.
#[verifier::spinoff_prover]
pub fn encryption_instances(
    params: &RegevParams,
    pk: &PublicKey,
    ciphertexts: &[Ciphertext],
    witnesses: &[EncryptionWitness],
) -> (r: Vec<Instance>)
    requires
        dft::is_pow2(params.n as int),
        params.plain_bits < 32,
        ciphertexts@.len() > 0,
        ciphertexts@.len() == witnesses@.len(),
        pk.a@.len() == params.n,
        forall|i: int|
            0 <= i < ciphertexts@.len() ==> air::covers(
                pk@,
                (#[trigger] ciphertexts@[i])@,
                witnesses@[i]@,
                params.n as int,
            ),
    ensures
        r@.len() == ciphertexts@.len(),
        forall|i: int|
            0 <= i < r@.len() ==> is_encryption_instance(
                #[trigger] r@[i],
                params.n as int,
                *pk,
                ciphertexts@[i],
                witnesses@[i],
            ),
{
    let system = encryption_air(params);
    let mut r: Vec<Instance> = Vec::new();
    let mut i: usize = 0;
    while i < ciphertexts.len()
        invariant
            i <= ciphertexts@.len(),
            ciphertexts@.len() == witnesses@.len(),
            pk.a@.len() == params.n,
            forall|i: int|
                0 <= i < ciphertexts@.len() ==> air::covers(
                    pk@,
                    (#[trigger] ciphertexts@[i])@,
                    witnesses@[i]@,
                    params.n as int,
                ),
            r@.len() == i,
            forall|i: int|
                0 <= i < r@.len() ==> is_encryption_instance(
                    #[trigger] r@[i],
                    params.n as int,
                    *pk,
                    ciphertexts@[i],
                    witnesses@[i],
                ),
        decreases ciphertexts@.len() - i,
    {
        assert(air::covers(
            pk@,
            ciphertexts@[i as int]@,
            witnesses@[i as int]@,
            params.n as int,
        ));
        r.push(
            Instance {
                trace: generate_trace(pk, &ciphertexts[i], &witnesses[i]),
                public_values: public_values(pk, &ciphertexts[i]),
                lookups: system.get_lookups(),
            },
        );
        i = i + 1;
    }
    r
}

/// The instances of a batch of encryptions with a range proof.
#[verifier::spinoff_prover]
pub fn range_instances(
    params: &RegevParams,
    pk: &PublicKey,
    ciphertexts: &[Ciphertext],
    witnesses: &[EncryptionWitness],
    spec: RangeSpec,
) -> (r: Vec<Instance>)
    requires
        dft::is_pow2(params.n as int),
        params.plain_bits < 32,
        ciphertexts@.len() > 0,
        ciphertexts@.len() == witnesses@.len(),
        pk.a@.len() == params.n,
        forall|i: int|
            0 <= i < ciphertexts@.len() ==> provable_in_range(
                *pk,
                #[trigger] ciphertexts@[i],
                witnesses@[i],
                spec,
                params.n as int,
            ),
    ensures
        r@.len() == ciphertexts@.len(),
        forall|i: int|
            0 <= i < r@.len() ==> is_range_instance(
                #[trigger] r@[i],
                params.n as int,
                *pk,
                ciphertexts@[i],
                witnesses@[i],
                spec,
            ),
{
    assert(provable_in_range(*pk, ciphertexts@[0], witnesses@[0], spec, params.n as int));
    let system = range_air(params, spec);
    let mut r: Vec<Instance> = Vec::new();
    let mut i: usize = 0;
    while i < ciphertexts.len()
        invariant
            i <= ciphertexts@.len(),
            ciphertexts@.len() == witnesses@.len(),
            pk.a@.len() == params.n,
            forall|i: int|
                0 <= i < ciphertexts@.len() ==> provable_in_range(
                    *pk,
                    #[trigger] ciphertexts@[i],
                    witnesses@[i],
                    spec,
                    params.n as int,
                ),
            r@.len() == i,
            forall|i: int|
                0 <= i < r@.len() ==> is_range_instance(
                    #[trigger] r@[i],
                    params.n as int,
                    *pk,
                    ciphertexts@[i],
                    witnesses@[i],
                    spec,
                ),
        decreases ciphertexts@.len() - i,
    {
        assert(provable_in_range(
            *pk,
            ciphertexts@[i as int],
            witnesses@[i as int],
            spec,
            params.n as int,
        ));
        r.push(
            Instance {
                trace: generate_range_trace(pk, &ciphertexts[i], &witnesses[i], spec),
                public_values: public_values(pk, &ciphertexts[i]),
                lookups: system.get_lookups(),
            },
        );
        i = i + 1;
    }
    r
}

/// The instances of a batch of transfers.
#[verifier::spinoff_prover]
pub fn transfer_instances(
    params: &RegevParams,
    pk: &PublicKey,
    transfers: &[Transfer],
    witnesses: &[TransferWitness],
) -> (r: Vec<Instance>)
    requires
        dft::is_pow2(params.n as int),
        params.plain_bits < 32,
        transfers@.len() > 0,
        transfers@.len() == witnesses@.len(),
        pk.a@.len() == params.n,
        forall|i: int|
            0 <= i < transfers@.len() ==> provable_transfer(
                *pk,
                #[trigger] transfers@[i],
                witnesses@[i],
                params.n as int,
            ),
    ensures
        r@.len() == transfers@.len(),
        forall|i: int|
            0 <= i < r@.len() ==> is_transfer_instance(
                #[trigger] r@[i],
                params.n as int,
                *pk,
                transfers@[i],
                witnesses@[i],
            ),
{
    let system = transfer_air(params);
    let mut r: Vec<Instance> = Vec::new();
    let mut i: usize = 0;
    while i < transfers.len()
        invariant
            i <= transfers@.len(),
            transfers@.len() == witnesses@.len(),
            pk.a@.len() == params.n,
            forall|i: int|
                0 <= i < transfers@.len() ==> provable_transfer(
                    *pk,
                    #[trigger] transfers@[i],
                    witnesses@[i],
                    params.n as int,
                ),
            r@.len() == i,
            forall|i: int|
                0 <= i < r@.len() ==> is_transfer_instance(
                    #[trigger] r@[i],
                    params.n as int,
                    *pk,
                    transfers@[i],
                    witnesses@[i],
                ),
        decreases transfers@.len() - i,
    {
        assert(provable_transfer(
            *pk,
            transfers@[i as int],
            witnesses@[i as int],
            params.n as int,
        ));
        r.push(
            Instance {
                trace: generate_transfer_trace(pk, &witnesses[i], &transfers[i]),
                public_values: transfer_public_values(pk, &transfers[i]),
                lookups: system.get_lookups(),
            },
        );
        i = i + 1;
    }
    r
}

} // verus!
