//! Value-level functionality:
//!
//! 1. Additive homomorphism: `decrypt_value(Enc(A) + Enc(B)) = A + B`
//!    (digit decoding with `D = q/t`, so per-coefficient sums don't wrap).
//! 2. The transfer constraints: `before = after + delta`.
//! 3. Range proofs on the transferred amount.

use rand::rngs::SmallRng;
use rand::SeedableRng;
use regev_plonky3::air::public_values;
use regev_plonky3::ext::Challenge;
use regev_plonky3::field::F;
use regev_plonky3::gadget::{sample_eval_challenges, EvalGadget, Kind, Lookup, LookupData};
use regev_plonky3::params::RegevParams;
use regev_plonky3::prove::{
    encryption_air, encryption_instances, range_air, range_instances, transfer_air,
    transfer_instances, verify_encryptions, verify_encryptions_with_range, verify_transfers,
    Instance, RegevProof, RegevVerifyError, StarkOutcome,
};
use regev_plonky3::range::{message_value, RangeSpec};
use regev_plonky3::regev::{
    add_ciphertexts, decrypt_value, encode_value_message, encrypt, keygen, Ciphertext,
    EncryptionWitness, PublicKey,
};
use regev_plonky3::symbolic::{Constraint, ExtMatrix, Matrix, Trace};
use regev_plonky3::transcript::Transcript;
use regev_plonky3::transfer::{
    aux_base, ct_base, is_consistent, transfer_public_values, Transfer, TransferWitness,
};

const TEST_PARAMS: RegevParams = RegevParams { n: 256, eta: 2, plain_bits: 8 };

/// What a prover commits to: its main tables, and the published evaluations.
struct Session {
    traces: Vec<Matrix>,
    proof: RegevProof,
}

/// The evaluation challenges, drawn after all public values were observed.
fn challenges(public_values: &[Vec<F>], lookups: &[Vec<Lookup>]) -> Vec<Vec<Challenge>> {
    let mut transcript = Transcript::new();
    for values in public_values {
        for v in values {
            transcript.observe(*v);
        }
    }
    sample_eval_challenges(&mut transcript, lookups)
}

fn empty_data(lookups: &[Lookup]) -> Vec<LookupData> {
    let mut data = Vec::new();
    for l in lookups {
        if let Kind::Global(name) = &l.kind {
            data.push(LookupData {
                name: name.clone(),
                aux_idx: l.columns[0],
                expected_cumulated: Challenge::zero(),
            });
        }
    }
    data
}

fn auxiliary(
    trace: &Matrix,
    public_values: &[F],
    lookups: &[Lookup],
    zs: &[Challenge],
) -> (ExtMatrix, Vec<LookupData>) {
    let mut data = empty_data(lookups);
    let aux = EvalGadget::new().generate_permutation(trace, public_values, lookups, &mut data, zs);
    (aux, data)
}

/// Commit to the instances and publish their evaluations.
fn commit(instances: Vec<Instance>, log_height: usize) -> Session {
    let mut traces = Vec::new();
    let mut publics = Vec::new();
    let mut lookups = Vec::new();
    for i in instances {
        traces.push(i.trace);
        publics.push(i.public_values);
        lookups.push(i.lookups);
    }
    let zs = challenges(&publics, &lookups);
    let mut published = Vec::new();
    for i in 0..traces.len() {
        let (_, data) = auxiliary(&traces[i], &publics[i], &lookups[i], &zs[i]);
        published.push(data);
    }
    let degree_bits = vec![log_height; traces.len()];
    Session { traces, proof: RegevProof { degree_bits, global_lookup_data: published } }
}

/// Check every constraint of every instance against the committed tables and
/// the published values, at the challenges that the statement gives.
fn check(
    session: &Session,
    statement: &[Vec<F>],
    lookups: &[Vec<Lookup>],
    constraints: &[Constraint],
) -> StarkOutcome {
    let zs = challenges(statement, lookups);
    for i in 0..session.traces.len() {
        let (aux, _) = auxiliary(&session.traces[i], &statement[i], &lookups[i], &zs[i]);
        let published: Vec<Challenge> = session.proof.global_lookup_data[i]
            .iter()
            .map(|d| d.expected_cumulated)
            .collect();
        let trace = Trace {
            main: &session.traces[i],
            aux: &aux,
            public_values: &statement[i],
            randomness: &zs[i],
            published: &published,
        };
        if !trace.check_constraints(constraints)
            || !trace.check_constraints(&EvalGadget::new().eval_lookups(&lookups[i]))
        {
            return Err("constraints not satisfied".to_string());
        }
    }
    Ok(zs)
}

fn prove_encryptions(
    pk: &PublicKey,
    cts: &[Ciphertext],
    wits: &[EncryptionWitness],
) -> Session {
    let instances = encryption_instances(&TEST_PARAMS, pk, cts, wits);
    commit(instances, TEST_PARAMS.log_n())
}

fn check_encryptions(
    session: &Session,
    pk: &PublicKey,
    cts: &[Ciphertext],
) -> Result<(), RegevVerifyError> {
    let air = encryption_air(&TEST_PARAMS);
    let statement: Vec<Vec<F>> = cts.iter().map(|ct| public_values(pk, ct)).collect();
    let lookups: Vec<Vec<Lookup>> = cts.iter().map(|_| air.get_lookups()).collect();
    let reported = check(session, &statement, &lookups, &air.eval());
    verify_encryptions(&TEST_PARAMS, pk, cts, &session.proof, 0, reported)
}

fn prove_transfers(
    pk: &PublicKey,
    ts: &[Transfer],
    ws: &[TransferWitness],
    is_zk: usize,
) -> Session {
    for w in ws {
        assert!(is_consistent(w, TEST_PARAMS.n), "transfer witness inconsistent");
    }
    let instances = transfer_instances(&TEST_PARAMS, pk, ts, ws);
    commit(instances, TEST_PARAMS.log_n() + is_zk)
}

fn transfer_outcome(session: &Session, pk: &PublicKey, ts: &[Transfer]) -> StarkOutcome {
    let air = transfer_air(&TEST_PARAMS);
    let statement: Vec<Vec<F>> = ts.iter().map(|t| transfer_public_values(pk, t)).collect();
    let lookups: Vec<Vec<Lookup>> = ts.iter().map(|_| air.get_lookups()).collect();
    check(session, &statement, &lookups, &air.eval())
}

fn check_transfers(
    session: &Session,
    pk: &PublicKey,
    ts: &[Transfer],
    is_zk: usize,
) -> Result<(), RegevVerifyError> {
    let reported = transfer_outcome(session, pk, ts);
    verify_transfers(&TEST_PARAMS, pk, ts, &session.proof, is_zk, reported)
}

fn prove_range(
    pk: &PublicKey,
    cts: &[Ciphertext],
    wits: &[EncryptionWitness],
    spec: RangeSpec,
) -> Session {
    let instances = range_instances(&TEST_PARAMS, pk, cts, wits, spec);
    commit(instances, TEST_PARAMS.log_n())
}

fn range_outcome(
    session: &Session,
    pk: &PublicKey,
    cts: &[Ciphertext],
    spec: RangeSpec,
) -> StarkOutcome {
    let air = range_air(&TEST_PARAMS, spec);
    let statement: Vec<Vec<F>> = cts.iter().map(|ct| public_values(pk, ct)).collect();
    let lookups: Vec<Vec<Lookup>> = cts.iter().map(|_| air.get_lookups()).collect();
    check(session, &statement, &lookups, &air.eval())
}

// ---------------------------------------------------------------------------
// Additive homomorphism (value level)
// ---------------------------------------------------------------------------

#[test]
fn homomorphic_add_5_plus_3_is_8() {
    let mut rng = SmallRng::seed_from_u64(1);
    let (pk, sk) = keygen(&mut rng, &TEST_PARAMS);

    let (ct_a, _) = encrypt(&mut rng, &TEST_PARAMS, &pk, &encode_value_message(5, TEST_PARAMS.n));
    let (ct_b, _) = encrypt(&mut rng, &TEST_PARAMS, &pk, &encode_value_message(3, TEST_PARAMS.n));

    let ct_sum = add_ciphertexts(&ct_a, &ct_b);
    assert_eq!(decrypt_value(&TEST_PARAMS, &sk, &ct_sum), 8);
}

#[test]
fn homomorphic_add_random_values() {
    let mut rng = SmallRng::seed_from_u64(2);
    let (pk, sk) = keygen(&mut rng, &TEST_PARAMS);

    for (a, b) in [(0u64, 0u64), (1, 1), (123_456, 654_321), (u32::MAX as u64, 1)] {
        let (ca, _) = encrypt(&mut rng, &TEST_PARAMS, &pk, &encode_value_message(a, TEST_PARAMS.n));
        let (cb, _) = encrypt(&mut rng, &TEST_PARAMS, &pk, &encode_value_message(b, TEST_PARAMS.n));
        let sum = add_ciphertexts(&ca, &cb);
        assert_eq!(
            decrypt_value(&TEST_PARAMS, &sk, &sum),
            (a + b) as u128,
            "Enc({a}) + Enc({b})"
        );
    }
}

#[test]
fn homomorphic_add_many_ciphertexts() {
    // Stack 100 additions; digits stay below t = 256 and noise far below D/2.
    let mut rng = SmallRng::seed_from_u64(3);
    let (pk, sk) = keygen(&mut rng, &TEST_PARAMS);

    let mut acc: Option<Ciphertext> = None;
    let mut expected: u128 = 0;
    for v in 0..100u64 {
        let (ct, _) = encrypt(&mut rng, &TEST_PARAMS, &pk, &encode_value_message(v, TEST_PARAMS.n));
        expected += v as u128;
        acc = Some(match acc {
            Some(a) => add_ciphertexts(&a, &ct),
            None => ct,
        });
    }
    assert_eq!(decrypt_value(&TEST_PARAMS, &sk, &acc.unwrap()), expected);
}

#[test]
fn homomorphic_sum_of_proven_ciphertexts() {
    // The composition that matters in practice: prove both inputs are
    // well-formed, then add them publicly. By linearity the sum is a valid
    // encryption of A + B with doubled (still tiny) noise.
    let mut rng = SmallRng::seed_from_u64(4);
    let (pk, sk) = keygen(&mut rng, &TEST_PARAMS);

    let (ca, wa) = encrypt(&mut rng, &TEST_PARAMS, &pk, &encode_value_message(700, TEST_PARAMS.n));
    let (cb, wb) = encrypt(&mut rng, &TEST_PARAMS, &pk, &encode_value_message(42, TEST_PARAMS.n));

    let cts = vec![ca.clone(), cb.clone()];
    let session = prove_encryptions(&pk, &cts, &[wa, wb]);
    check_encryptions(&session, &pk, &cts).unwrap();

    let sum = add_ciphertexts(&ca, &cb);
    assert_eq!(decrypt_value(&TEST_PARAMS, &sk, &sum), 742);
}

// ---------------------------------------------------------------------------
// Transfer proofs: before = after + delta
// ---------------------------------------------------------------------------

fn make_transfer(
    rng: &mut SmallRng,
    pk: &PublicKey,
    before_v: u64,
    delta_v: u64,
) -> (Transfer, TransferWitness) {
    let after_v = before_v - delta_v;
    let n = TEST_PARAMS.n;
    let (before, w_before) = encrypt(rng, &TEST_PARAMS, pk, &encode_value_message(before_v, n));
    let (delta, w_delta) = encrypt(rng, &TEST_PARAMS, pk, &encode_value_message(delta_v, n));
    let (after, w_after) = encrypt(rng, &TEST_PARAMS, pk, &encode_value_message(after_v, n));
    (
        Transfer { before, delta, after },
        TransferWitness { before: w_before, delta: w_delta, after: w_after },
    )
}

#[test]
fn transfer_proves_conservation() {
    let mut rng = SmallRng::seed_from_u64(10);
    let (pk, sk) = keygen(&mut rng, &TEST_PARAMS);
    let (t, w) = make_transfer(&mut rng, &pk, 100, 42);

    // Sanity: the three ciphertexts decrypt to consistent values.
    assert_eq!(decrypt_value(&TEST_PARAMS, &sk, &t.before), 100);
    assert_eq!(decrypt_value(&TEST_PARAMS, &sk, &t.delta), 42);
    assert_eq!(decrypt_value(&TEST_PARAMS, &sk, &t.after), 58);

    let session = prove_transfers(&pk, &[t.clone()], &[w], 0);
    check_transfers(&session, &pk, &[t], 0).expect("transfer verifies");
}

#[test]
fn transfer_with_carry_chain() {
    // 256 = 255 + 1 exercises a long carry ripple (0b11111111 + 1).
    let mut rng = SmallRng::seed_from_u64(11);
    let (pk, _) = keygen(&mut rng, &TEST_PARAMS);
    let (t, w) = make_transfer(&mut rng, &pk, 256, 1);

    let session = prove_transfers(&pk, &[t.clone()], &[w], 0);
    check_transfers(&session, &pk, &[t], 0).expect("carry chain verifies");
}

#[test]
fn transfer_batch() {
    let mut rng = SmallRng::seed_from_u64(12);
    let (pk, _) = keygen(&mut rng, &TEST_PARAMS);
    let cases = [(1_000_000u64, 1u64), (5, 5), (u32::MAX as u64, 12345)];
    let (ts, ws): (Vec<_>, Vec<_>) = cases
        .iter()
        .map(|&(b, d)| make_transfer(&mut rng, &pk, b, d))
        .unzip();

    let session = prove_transfers(&pk, &ts, &ws, 0);
    check_transfers(&session, &pk, &ts, 0).expect("batch verifies");
}

#[test]
#[should_panic(expected = "transfer witness inconsistent")]
fn transfer_prover_rejects_non_conserving_witness() {
    // before = 100, delta = 42, but after = 60 (should be 58): the prover
    // cannot build a valid carry chain.
    let mut rng = SmallRng::seed_from_u64(13);
    let (pk, _) = keygen(&mut rng, &TEST_PARAMS);
    let n = TEST_PARAMS.n;
    let (before, w_before) = encrypt(&mut rng, &TEST_PARAMS, &pk, &encode_value_message(100, n));
    let (delta, w_delta) = encrypt(&mut rng, &TEST_PARAMS, &pk, &encode_value_message(42, n));
    let (after, w_after) = encrypt(&mut rng, &TEST_PARAMS, &pk, &encode_value_message(60, n));

    let t = Transfer { before, delta, after };
    let w = TransferWitness { before: w_before, delta: w_delta, after: w_after };
    let _ = prove_transfers(&pk, &[t], &[w], 0);
}

#[test]
fn transfer_rejects_swapped_statement() {
    // A proof for (before, delta, after) must not verify with delta and
    // after swapped (i.e. claiming the transferred amount was 58, not 42).
    let mut rng = SmallRng::seed_from_u64(14);
    let (pk, _) = keygen(&mut rng, &TEST_PARAMS);
    let (t, w) = make_transfer(&mut rng, &pk, 100, 42);

    let session = prove_transfers(&pk, &[t.clone()], &[w], 0);

    let swapped = Transfer {
        before: t.before.clone(),
        delta: t.after.clone(),
        after: t.delta.clone(),
    };
    assert!(check_transfers(&session, &pk, &[swapped], 0).is_err());
}

#[test]
fn transfer_rejects_unrelated_ciphertext() {
    // Replace `after` in the statement with an encryption of the wrong value.
    let mut rng = SmallRng::seed_from_u64(15);
    let (pk, _) = keygen(&mut rng, &TEST_PARAMS);
    let (t, w) = make_transfer(&mut rng, &pk, 100, 42);
    let (wrong_after, _) =
        encrypt(&mut rng, &TEST_PARAMS, &pk, &encode_value_message(59, TEST_PARAMS.n));

    let session = prove_transfers(&pk, &[t.clone()], &[w], 0);

    let forged = Transfer {
        before: t.before.clone(),
        delta: t.delta.clone(),
        after: wrong_after,
    };
    assert!(check_transfers(&session, &pk, &[forged], 0).is_err());
}

#[test]
fn transfer_zero_knowledge_config() {
    let mut rng = SmallRng::seed_from_u64(16);
    let (pk, _) = keygen(&mut rng, &TEST_PARAMS);
    let (t, w) = make_transfer(&mut rng, &pk, 1_000, 999);

    let session = prove_transfers(&pk, &[t.clone()], &[w], 1);
    check_transfers(&session, &pk, &[t], 1).expect("zk transfer verifies");
}

#[test]
fn transfer_composes_with_delta_range_proof() {
    // Composition pattern: the transfer proof shows conservation; a separate
    // range-proof instance on the *same* delta ciphertext caps the amount.
    // Both proofs bind to the identical statement ciphertext, so a verifier
    // accepting both knows: before = after + delta AND delta < 2^16.
    let mut rng = SmallRng::seed_from_u64(18);
    let (pk, _) = keygen(&mut rng, &TEST_PARAMS);
    let (t, w) = make_transfer(&mut rng, &pk, 100_000, 42_000);

    let session = prove_transfers(&pk, &[t.clone()], &[w.clone()], 0);
    check_transfers(&session, &pk, &[t.clone()], 0).unwrap();

    let spec = RangeSpec { value_bits: 16, bound: 1 << 16 };
    let cts = [t.delta];
    let range_session = prove_range(&pk, &cts, &[w.delta], spec);
    let reported = range_outcome(&range_session, &pk, &cts, spec);
    verify_encryptions_with_range(&TEST_PARAMS, &pk, &cts, &range_session.proof, spec, 0, reported)
        .unwrap();
}

// ---------------------------------------------------------------------------
// Edges
// ---------------------------------------------------------------------------

#[test]
fn the_whole_balance_can_be_transferred() {
    let mut rng = SmallRng::seed_from_u64(31);
    let (pk, _) = keygen(&mut rng, &TEST_PARAMS);
    let (t, w) = make_transfer(&mut rng, &pk, 77, 77);
    let session = prove_transfers(&pk, &[t.clone()], &[w], 0);
    check_transfers(&session, &pk, &[t], 0).unwrap();
}

#[test]
fn column_bases_of_the_three_roles() {
    assert_eq!((ct_base(0), ct_base(1), ct_base(2)), (2, 12, 22));
    assert_eq!((aux_base(0), aux_base(1), aux_base(2)), (2, 10, 18));
}

#[test]
fn transfer_mismatches_name_the_role() {
    let mut rng = SmallRng::seed_from_u64(32);
    let (pk, _) = keygen(&mut rng, &TEST_PARAMS);
    let (t, w) = make_transfer(&mut rng, &pk, 9, 4);
    let honest = prove_transfers(&pk, &[t.clone()], &[w], 0);
    let zs = transfer_outcome(&honest, &pk, &[t.clone()]).unwrap();
    let names = [
        "a", "b", "c1(before)", "c2(before)", "c1(delta)", "c2(delta)", "c1(after)", "c2(after)",
    ];
    for k in 0..8 {
        let mut data = honest.proof.global_lookup_data.clone();
        data[0][k].expected_cumulated = data[0][k].expected_cumulated.add(Challenge::one());
        let proof = RegevProof {
            degree_bits: honest.proof.degree_bits.clone(),
            global_lookup_data: data,
        };
        assert_eq!(
            verify_transfers(&TEST_PARAMS, &pk, &[t.clone()], &proof, 0, Ok(zs.clone())),
            Err(RegevVerifyError::StatementMismatch { instance: 0, poly: names[k] })
        );
    }
}

#[test]
fn transfer_shapes_are_checked() {
    let mut rng = SmallRng::seed_from_u64(33);
    let (pk, _) = keygen(&mut rng, &TEST_PARAMS);
    let (t, w) = make_transfer(&mut rng, &pk, 9, 4);
    let session = prove_transfers(&pk, &[t.clone()], &[w], 0);
    let zs = transfer_outcome(&session, &pk, &[t.clone()]).unwrap();

    let mut short = t.clone();
    short.after.c2.pop();
    assert_eq!(
        verify_transfers(&TEST_PARAMS, &pk, &[short], &session.proof, 0, Ok(zs.clone())),
        Err(RegevVerifyError::Shape("ciphertext length != n"))
    );

    let mut data = session.proof.global_lookup_data.clone();
    data[0].pop();
    let proof = RegevProof {
        degree_bits: session.proof.degree_bits.clone(),
        global_lookup_data: data,
    };
    assert_eq!(
        verify_transfers(&TEST_PARAMS, &pk, &[t], &proof, 0, Ok(zs)),
        Err(RegevVerifyError::Shape("expected 8 published evaluations"))
    );
}

#[test]
fn a_value_at_the_bound_is_out_of_range() {
    // The columns of an honest range proof for a value below the bound do not
    // satisfy the constraints of a tighter bound.
    let mut rng = SmallRng::seed_from_u64(34);
    let (pk, _) = keygen(&mut rng, &TEST_PARAMS);
    let (ct, w) = encrypt(&mut rng, &TEST_PARAMS, &pk, &encode_value_message(1000, TEST_PARAMS.n));
    assert_eq!(message_value(&w.m, 16), 1000);
    let loose = RangeSpec { value_bits: 16, bound: 1001 };
    let tight = RangeSpec { value_bits: 16, bound: 1000 };
    let cts = [ct];
    let session = prove_range(&pk, &cts, &[w], loose);
    assert!(range_outcome(&session, &pk, &cts, loose).is_ok());
    assert!(range_outcome(&session, &pk, &cts, tight).is_err());
}

#[test]
fn range_specifications_are_validated() {
    assert!(RangeSpec { value_bits: 16, bound: 1 << 16 }.is_valid(256));
    assert!(!RangeSpec { value_bits: 16, bound: (1 << 16) + 1 }.is_valid(256));
    assert!(!RangeSpec { value_bits: 0, bound: 1 }.is_valid(256));
    assert!(!RangeSpec { value_bits: 30, bound: 5 }.is_valid(256));
}

#[test]
fn a_range_proof_serves_one_range_only() {
    let mut rng = SmallRng::seed_from_u64(35);
    let (pk, _) = keygen(&mut rng, &TEST_PARAMS);
    let (ct, w) = encrypt(&mut rng, &TEST_PARAMS, &pk, &encode_value_message(1000, TEST_PARAMS.n));
    let spec = RangeSpec { value_bits: 16, bound: 5000 };
    let cts = [ct];
    let session = prove_range(&pk, &cts, &[w], spec);
    assert!(range_outcome(&session, &pk, &cts, spec).is_ok());
    // The value lies in every one of these ranges, and still the proof does not
    // serve them.
    for other in [
        RangeSpec { value_bits: 16, bound: 5001 },
        RangeSpec { value_bits: 16, bound: 4999 },
        RangeSpec { value_bits: 15, bound: 5000 },
        RangeSpec { value_bits: 17, bound: 5000 },
    ] {
        assert!(range_outcome(&session, &pk, &cts, other).is_err());
    }
}

#[test]
fn the_widest_range_rules_out_wraparound() {
    assert_eq!(RangeSpec::MAX_VALUE_BITS, 29);
    assert!(1u64 << (RangeSpec::MAX_VALUE_BITS + 1) <= F::order() as u64);
    assert!(1u64 << (RangeSpec::MAX_VALUE_BITS + 2) > F::order() as u64);
    assert!(RangeSpec { value_bits: RangeSpec::MAX_VALUE_BITS, bound: 1 << 29 }.is_valid(256));
}
