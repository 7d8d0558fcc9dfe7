//! From encryption to a checked proof: honest instances are accepted, and
//! tampered statements and published values are rejected.

use rand::rngs::SmallRng;
use rand::{RngExt, SeedableRng};
use regev_plonky3::air::{generate_trace, public_values, RegevEncAir};
use regev_plonky3::config::zk_fri;
use regev_plonky3::ext::Challenge;
use regev_plonky3::field::F;
use regev_plonky3::gadget::{sample_eval_challenges, EvalGadget, Kind, Lookup, LookupData};
use regev_plonky3::params::RegevParams;
use regev_plonky3::prove::{
    encryption_air, encryption_instances, verify_encryptions, Instance, RegevProof,
    RegevVerifyError, StarkOutcome,
};
use regev_plonky3::regev::{
    decrypt, encrypt, keygen, Ciphertext, EncryptionWitness, PublicKey, SecretKey,
};
use regev_plonky3::symbolic::{Constraint, ExtMatrix, Matrix, Trace};
use regev_plonky3::transcript::Transcript;

const TEST_PARAMS: RegevParams = RegevParams { n: 256, eta: 2, plain_bits: 8 };

fn setup(
    seed: u64,
    batch: usize,
) -> (PublicKey, SecretKey, Vec<Vec<u8>>, Vec<Ciphertext>, Vec<EncryptionWitness>) {
    let mut rng = SmallRng::seed_from_u64(seed);
    let (pk, sk) = keygen(&mut rng, &TEST_PARAMS);
    let mut msgs = Vec::new();
    let mut cts = Vec::new();
    let mut wits = Vec::new();
    for _ in 0..batch {
        let m: Vec<u8> = (0..TEST_PARAMS.n).map(|_| rng.random_range(0..=1)).collect();
        let (ct, w) = encrypt(&mut rng, &TEST_PARAMS, &pk, &m);
        msgs.push(m);
        cts.push(ct);
        wits.push(w);
    }
    (pk, sk, msgs, cts, wits)
}

/// What a prover commits to: its main tables, and the published evaluations.
struct Session {
    traces: Vec<Matrix>,
    proof: RegevProof,
}

/// The evaluation challenges, drawn after all public values were observed.
fn challenges(public_values: &[Vec<F>], lookups: &[Vec<Lookup>]) -> Vec<Vec<Challenge>> {
    let mut transcript = Transcript::new();
    for values in public_values {
        for v in values {
            transcript.observe(*v);
        }
    }
    sample_eval_challenges(&mut transcript, lookups)
}

fn empty_data(lookups: &[Lookup]) -> Vec<LookupData> {
    let mut data = Vec::new();
    for l in lookups {
        if let Kind::Global(name) = &l.kind {
            data.push(LookupData {
                name: name.clone(),
                aux_idx: l.columns[0],
                expected_cumulated: Challenge::zero(),
            });
        }
    }
    data
}

fn auxiliary(
    trace: &Matrix,
    public_values: &[F],
    lookups: &[Lookup],
    zs: &[Challenge],
) -> (ExtMatrix, Vec<LookupData>) {
    let mut data = empty_data(lookups);
    let aux = EvalGadget::new().generate_permutation(trace, public_values, lookups, &mut data, zs);
    (aux, data)
}

/// Commit to the instances and publish their evaluations.
fn commit(instances: Vec<Instance>, log_height: usize) -> Session {
    let mut traces = Vec::new();
    let mut publics = Vec::new();
    let mut lookups = Vec::new();
    for i in instances {
        traces.push(i.trace);
        publics.push(i.public_values);
        lookups.push(i.lookups);
    }
    let zs = challenges(&publics, &lookups);
    let mut published = Vec::new();
    for i in 0..traces.len() {
        let (_, data) = auxiliary(&traces[i], &publics[i], &lookups[i], &zs[i]);
        published.push(data);
    }
    let degree_bits = vec![log_height; traces.len()];
    Session { traces, proof: RegevProof { degree_bits, global_lookup_data: published } }
}

/// Check every constraint of every instance against the committed tables and
/// the published values, at the challenges that the statement gives.
fn check(
    session: &Session,
    statement: &[Vec<F>],
    lookups: &[Vec<Lookup>],
    constraints: &[Constraint],
) -> StarkOutcome {
    let zs = challenges(statement, lookups);
    for i in 0..session.traces.len() {
        let (aux, _) = auxiliary(&session.traces[i], &statement[i], &lookups[i], &zs[i]);
        let published: Vec<Challenge> = session.proof.global_lookup_data[i]
            .iter()
            .map(|d| d.expected_cumulated)
            .collect();
        let trace = Trace {
            main: &session.traces[i],
            aux: &aux,
            public_values: &statement[i],
            randomness: &zs[i],
            published: &published,
        };
        if !trace.check_constraints(constraints)
            || !trace.check_constraints(&EvalGadget::new().eval_lookups(&lookups[i]))
        {
            return Err("constraints not satisfied".to_string());
        }
    }
    Ok(zs)
}

fn prove(pk: &PublicKey, cts: &[Ciphertext], wits: &[EncryptionWitness], is_zk: usize) -> Session {
    let instances = encryption_instances(&TEST_PARAMS, pk, cts, wits);
    commit(instances, TEST_PARAMS.log_n() + is_zk)
}

fn outcome(session: &Session, pk: &PublicKey, cts: &[Ciphertext]) -> StarkOutcome {
    let air = encryption_air(&TEST_PARAMS);
    let statement: Vec<Vec<F>> = cts.iter().map(|ct| public_values(pk, ct)).collect();
    let lookups: Vec<Vec<Lookup>> = cts.iter().map(|_| air.get_lookups()).collect();
    check(session, &statement, &lookups, &air.eval())
}

fn verify(
    session: &Session,
    pk: &PublicKey,
    cts: &[Ciphertext],
    is_zk: usize,
) -> Result<(), RegevVerifyError> {
    let reported = outcome(session, pk, cts);
    verify_encryptions(&TEST_PARAMS, pk, cts, &session.proof, is_zk, reported)
}

#[test]
fn prove_verify_single() {
    let (pk, sk, msgs, cts, wits) = setup(1, 1);
    assert_eq!(decrypt(&TEST_PARAMS, &sk, &cts[0]), msgs[0]);

    let session = prove(&pk, &cts, &wits, 0);
    verify(&session, &pk, &cts, 0).expect("honest proof verifies");
}

#[test]
fn prove_verify_batch() {
    let (pk, _, _, cts, wits) = setup(2, 4);
    let session = prove(&pk, &cts, &wits, 0);
    verify(&session, &pk, &cts, 0).expect("batch proof verifies");
}

#[test]
fn rejects_wrong_ciphertext() {
    let (pk, _, _, cts, wits) = setup(3, 1);
    let session = prove(&pk, &cts, &wits, 0);

    // Same proof, different claimed ciphertext. The ciphertext is part of
    // the public values, so the transcript already diverges.
    let mut other = cts.clone();
    other[0].c2[7] = other[0].c2[7].add(F::one());
    assert!(verify(&session, &pk, &other, 0).is_err());
}

/// The critical soundness path for the evaluation binding: a malicious
/// prover commits trace columns for a *different* (validly formed)
/// ciphertext while presenting the real one as the statement. The
/// constraints are fully self-consistent in that case: only the comparison of
/// the published evaluations `c1(z), c2(z)` against the claimed statement
/// catches it.
#[test]
fn rejects_malicious_prover_with_forged_columns() {
    let (pk, _, _, cts, _) = setup(7, 1);
    let mut rng = SmallRng::seed_from_u64(77);

    // A forged-but-valid encryption of a different message.
    let m2: Vec<u8> = (0..TEST_PARAMS.n).map(|_| rng.random_range(0..=1)).collect();
    let (forged_ct, forged_wit) = encrypt(&mut rng, &TEST_PARAMS, &pk, &m2);

    let air = RegevEncAir::new(TEST_PARAMS.n, F::from_u32(TEST_PARAMS.delta()));
    // Trace for the forged ciphertext, public values for the real one.
    let instance = Instance {
        trace: generate_trace(&pk, &forged_ct, &forged_wit),
        public_values: public_values(&pk, &cts[0]),
        lookups: air.get_lookups(),
    };
    let session = commit(vec![instance], TEST_PARAMS.log_n());
    assert!(outcome(&session, &pk, &cts).is_ok());

    let err = verify(&session, &pk, &cts, 0).unwrap_err();
    match err {
        RegevVerifyError::StatementMismatch { poly, .. } => {
            assert!(poly == "c1" || poly == "c2");
        }
        e => panic!("expected StatementMismatch, got {}", e.message()),
    }
}

#[test]
fn rejects_wrong_public_key() {
    let (pk, _, _, cts, wits) = setup(4, 1);
    let session = prove(&pk, &cts, &wits, 0);

    let mut other_pk = pk.clone();
    other_pk.b[0] = other_pk.b[0].add(F::one());
    assert!(verify(&session, &other_pk, &cts, 0).is_err());
}

#[test]
fn rejects_tampered_published_evaluation() {
    let (pk, _, _, cts, wits) = setup(5, 1);
    let mut session = prove(&pk, &cts, &wits, 0);

    // Tamper with the published evaluation of c1: the first-row constraint
    // depends on it.
    let entry = &mut session.proof.global_lookup_data[0][2];
    entry.expected_cumulated = entry.expected_cumulated.add(Challenge::one());
    assert!(outcome(&session, &pk, &cts).is_err());
    assert!(verify(&session, &pk, &cts, 0).is_err());
}

#[test]
fn rejects_swapped_instances() {
    // A batch proof for (ct0, ct1) must not verify as (ct1, ct0).
    let (pk, _, _, cts, wits) = setup(6, 2);
    let session = prove(&pk, &cts, &wits, 0);

    let swapped = vec![cts[1].clone(), cts[0].clone()];
    assert!(verify(&session, &pk, &swapped, 0).is_err());
}

#[test]
fn prove_verify_zero_knowledge_config() {
    let (pk, _, _, cts, wits) = setup(8, 2);
    // Hiding commitments double the committed height.
    assert_eq!(zk_fri().log_blowup, 2);
    let session = prove(&pk, &cts, &wits, 1);
    verify(&session, &pk, &cts, 1).expect("zk proof verifies");
    assert_eq!(
        verify(&session, &pk, &cts, 0),
        Err(RegevVerifyError::Shape("trace height != ring dimension"))
    );
}

#[test]
fn challenge_is_shared_by_all_arguments() {
    let (pk, _, _, cts, wits) = setup(9, 2);
    let instances = encryption_instances(&TEST_PARAMS, &pk, &cts, &wits);
    let mut lookups = Vec::new();
    for i in instances {
        lookups.push(i.lookups);
    }
    let mut transcript = Transcript::new();
    transcript.observe(F::from_u32(5));
    let zs = sample_eval_challenges(&mut transcript, &lookups);
    let mut again = Transcript::new();
    again.observe(F::from_u32(5));
    let z = again.sample_algebra_element();
    assert_eq!(zs.len(), 2);
    for row in &zs {
        assert_eq!(row.len(), 10);
        for x in row {
            assert_eq!(*x, z);
        }
    }
    assert_eq!(transcript.sample(), again.sample());
}

#[test]
fn no_challenge_is_drawn_without_arguments() {
    let mut transcript = Transcript::new();
    let zs = sample_eval_challenges(&mut transcript, &[Vec::new(), Vec::new()]);
    assert_eq!(zs, vec![Vec::new(), Vec::new()]);
    let mut fresh = Transcript::new();
    assert_eq!(transcript.sample(), fresh.sample());
}

#[test]
fn empty_batches_are_malformed() {
    let (pk, _, _, _, _) = setup(10, 1);
    let proof = RegevProof { degree_bits: vec![], global_lookup_data: vec![] };
    let err = verify_encryptions(&TEST_PARAMS, &pk, &[], &proof, 0, Ok(vec![])).unwrap_err();
    assert_eq!(err, RegevVerifyError::Shape("empty batch"));
    assert_eq!(err.message(), "malformed proof: empty batch");
}

#[test]
fn short_keys_are_malformed() {
    let (mut pk, _, _, cts, wits) = setup(11, 1);
    let session = prove(&pk, &cts, &wits, 0);
    pk.b.pop();
    assert_eq!(
        verify_encryptions(&TEST_PARAMS, &pk, &cts, &session.proof, 0, Ok(vec![vec![Challenge::one()]])),
        Err(RegevVerifyError::Shape("public key length != n"))
    );
}

#[test]
fn missing_evaluations_are_malformed() {
    let (pk, _, _, cts, wits) = setup(12, 1);
    let mut session = prove(&pk, &cts, &wits, 0);
    let zs = outcome(&session, &pk, &cts).unwrap();
    session.proof.global_lookup_data[0].pop();
    assert_eq!(
        verify_encryptions(&TEST_PARAMS, &pk, &cts, &session.proof, 0, Ok(zs)),
        Err(RegevVerifyError::Shape("expected 4 published evaluations"))
    );
}

#[test]
fn short_ciphertexts_are_malformed() {
    let (pk, _, _, mut cts, wits) = setup(13, 1);
    let session = prove(&pk, &cts, &wits, 0);
    let zs = outcome(&session, &pk, &cts).unwrap();
    cts[0].c1.pop();
    assert_eq!(
        verify_encryptions(&TEST_PARAMS, &pk, &cts, &session.proof, 0, Ok(zs)),
        Err(RegevVerifyError::Shape("ciphertext length != n"))
    );
}

#[test]
fn stark_failures_are_reported() {
    let (pk, _, _, cts, wits) = setup(14, 1);
    let session = prove(&pk, &cts, &wits, 0);
    let err = verify_encryptions(
        &TEST_PARAMS,
        &pk,
        &cts,
        &session.proof,
        0,
        Err("InvalidPowWitness".to_string()),
    )
    .unwrap_err();
    assert_eq!(err, RegevVerifyError::Stark("InvalidPowWitness".to_string()));
    assert_eq!(err.message(), "STARK verification failed: InvalidPowWitness");
}

#[test]
fn mismatches_name_the_instance_and_polynomial() {
    let (pk, _, _, cts, wits) = setup(15, 2);
    let mut session = prove(&pk, &cts, &wits, 0);
    let zs = outcome(&session, &pk, &cts).unwrap();
    session.proof.global_lookup_data[1][3].expected_cumulated = Challenge::zero();
    let err = verify_encryptions(&TEST_PARAMS, &pk, &cts, &session.proof, 0, Ok(zs)).unwrap_err();
    assert_eq!(err, RegevVerifyError::StatementMismatch { instance: 1, poly: "c2" });
    assert_eq!(
        err.message(),
        "instance 1: published evaluation of `c2` does not match statement"
    );
}

#[test]
fn batch_and_key_are_judged_before_the_dimension() {
    let (pk, _, _, cts, _) = setup(16, 1);
    let odd = RegevParams { n: 255, eta: 2, plain_bits: 8 };
    let proof = RegevProof { degree_bits: vec![], global_lookup_data: vec![] };
    assert_eq!(
        verify_encryptions(&odd, &pk, &[], &proof, 0, Ok(vec![])),
        Err(RegevVerifyError::Shape("empty batch"))
    );
    assert_eq!(
        verify_encryptions(&odd, &pk, &cts, &proof, 0, Err("not run".to_string())),
        Err(RegevVerifyError::Shape("public key length != n"))
    );
}
