//! What the operations promise to their callers, in terms of their arguments
//! and results.
//!
//! A law here speaks of calls: `call_ensures(f, args, r)` holds of every call
//! of `f` on `args` that returned `r`, and `call_requires(f, args)` says that
//! the call is allowed.

use crate::binding;
use crate::correctness;
use crate::dft;
use crate::ext::{Challenge, Ext};
use crate::field;
use crate::field::F;
use crate::gadget::LookupData;
use crate::ntt;
use crate::params::RegevParams;
use crate::poly;
use crate::prove;
use crate::prove::{RegevProof, RegevVerifyError, StarkOutcome};
use crate::range::RangeSpec;
use crate::regev;
use crate::regev::{Ciphertext, EncryptionWitness, KeyModel, PublicKey, SecretKey};
use crate::sums;
use crate::transfer::Transfer;
use rand::rngs::SmallRng;
use vstd::arithmetic::power::*;
use vstd::arithmetic::power2::*;
use vstd::prelude::*;

verus! {

// ---------------------------------------------------------------------------
// Verifying.
// ---------------------------------------------------------------------------
/// The published evaluation is the value of the claimed polynomial at `z`.
pub open spec fn evaluates(data: LookupData, claim: Seq<F>, z: Challenge) -> bool {
    data.expected_cumulated@ == poly::eval(field::vals(claim), z@).reduced()
}

/// The shape that a batch over a ring of dimension `2^k` must have: it is not
/// empty, the key has as many coefficients as the ring, and so has every trace.
pub open spec fn well_shaped(
    params: RegevParams,
    pk: PublicKey,
    count: int,
    proof: RegevProof,
    is_zk: int,
    k: nat,
) -> bool {
    &&& count > 0
    &&& pk.a@.len() == params.n
    &&& pk.b@.len() == params.n
    &&& proof.degree_bits@.len() == count
    &&& forall|i: int| 0 <= i < count ==> #[trigger] proof.degree_bits@[i] == k + is_zk
}

/// The shape check passes exactly for batches of the right shape, however large
/// they are, and says what is wrong with the others.
pub proof fn law_shape_check(
    params: RegevParams,
    pk: PublicKey,
    count: usize,
    proof: RegevProof,
    is_zk: usize,
    k: nat,
    r: Result<(), RegevVerifyError>,
)
    requires
        count > 0 && pk.a@.len() == params.n && pk.b@.len() == params.n ==> params.n == pow2(k),
        call_ensures(prove::check_shape, (&params, &pk, count, &proof, is_zk), r),
    ensures
        r is Ok <==> well_shaped(params, pk, count as int, proof, is_zk as int, k),
        count == 0 ==> r == Err::<(), _>(RegevVerifyError::Shape("empty batch")),
        count > 0 && (pk.a@.len() != params.n || pk.b@.len() != params.n) ==> r == Err::<(), _>(
            RegevVerifyError::Shape("public key length != n"),
        ),
        count > 0 && pk.a@.len() == params.n && pk.b@.len() == params.n && r is Err ==> r == Err::<
            (),
            _,
        >(RegevVerifyError::Shape("trace height != ring dimension")),
{
    dft::lemma_log2_pow2(k);
}

/// The shape of any batch may be checked, whatever the ring dimension where the
/// batch is empty or the key is of another length.
pub proof fn law_shape_check_is_allowed(
    params: RegevParams,
    pk: PublicKey,
    count: usize,
    proof: RegevProof,
    is_zk: usize,
    k: nat,
)
    requires
        is_zk <= 1,
        params.n == pow2(k) || count == 0 || pk.a@.len() != params.n || pk.b@.len() != params.n,
    ensures
        call_requires(prove::check_shape, (&params, &pk, count, &proof, is_zk)),
{
    dft::lemma_log2_pow2(k);
}

/// The 4 published values of one encryption are those of its polynomials.
pub open spec fn encryption_bound(
    params: RegevParams,
    pk: PublicKey,
    ct: Ciphertext,
    data: Seq<LookupData>,
    z: Challenge,
) -> bool {
    &&& data.len() == 4
    &&& ct.c1@.len() == params.n
    &&& ct.c2@.len() == params.n
    &&& evaluates(data[0], pk.a@, z)
    &&& evaluates(data[1], pk.b@, z)
    &&& evaluates(data[2], ct.c1@, z)
    &&& evaluates(data[3], ct.c2@, z)
}

/// The 8 published values of one transfer are those of its polynomials.
pub open spec fn transfer_bound(
    params: RegevParams,
    pk: PublicKey,
    t: Transfer,
    data: Seq<LookupData>,
    z: Challenge,
) -> bool {
    &&& data.len() == 8
    &&& t.before.c1@.len() == params.n
    &&& t.before.c2@.len() == params.n
    &&& t.delta.c1@.len() == params.n
    &&& t.delta.c2@.len() == params.n
    &&& t.after.c1@.len() == params.n
    &&& t.after.c2@.len() == params.n
    &&& evaluates(data[0], pk.a@, z)
    &&& evaluates(data[1], pk.b@, z)
    &&& evaluates(data[2], t.before.c1@, z)
    &&& evaluates(data[3], t.before.c2@, z)
    &&& evaluates(data[4], t.delta.c1@, z)
    &&& evaluates(data[5], t.delta.c2@, z)
    &&& evaluates(data[6], t.after.c1@, z)
    &&& evaluates(data[7], t.after.c2@, z)
}

/// The polynomials that an encryption claims, in the order in which they are
/// checked, with their names.
pub open spec fn encryption_claims(pk: PublicKey, ct: Ciphertext) -> Seq<(&'static str, Seq<F>)> {
    seq![
        ("a", pk.a@),
        ("b", pk.b@),
        ("c1", ct.c1@),
        ("c2", ct.c2@),
    ]
}

/// The polynomials that a transfer claims, in the order in which they are
/// checked, with their names.
pub open spec fn transfer_claims(pk: PublicKey, t: Transfer) -> Seq<(&'static str, Seq<F>)> {
    seq![
        ("a", pk.a@),
        ("b", pk.b@),
        ("c1(before)", t.before.c1@),
        ("c2(before)", t.before.c2@),
        ("c1(delta)", t.delta.c1@),
        ("c2(delta)", t.delta.c2@),
        ("c1(after)", t.after.c1@),
        ("c2(after)", t.after.c2@),
    ]
}

/// One encryption is bound exactly if its published values are those of its
/// polynomials at the challenge. Its place in the batch does not matter; it is
/// only named in the report, which is on the first polynomial that differs.
pub proof fn law_bind_encryption(
    params: RegevParams,
    pk: PublicKey,
    ct: Ciphertext,
    data: &[LookupData],
    z: Challenge,
    instance: usize,
    r: Result<(), RegevVerifyError>,
)
    requires
        call_ensures(prove::bind_encryption, (&params, &pk, &ct, data, z, instance), r),
    ensures
        r is Ok <==> encryption_bound(params, pk, ct, data@, z),
        data@.len() != 4 ==> r == Err::<(), _>(
            RegevVerifyError::Shape("expected 4 published evaluations"),
        ),
        data@.len() == 4 && !({
            &&& ct.c1@.len() == params.n
            &&& ct.c2@.len() == params.n
        }) ==> r == Err::<(), _>(RegevVerifyError::Shape("ciphertext length != n")),
        forall|j: int|
            #![trigger data@[j]]
            {
                &&& 0 <= j < 4
                &&& data@.len() == 4
                &&& ct.c1@.len() == params.n
                &&& ct.c2@.len() == params.n
                &&& forall|k: int|
                    0 <= k < j ==> evaluates(#[trigger] data@[k], encryption_claims(pk, ct)[k].1, z)
                &&& !evaluates(data@[j], encryption_claims(pk, ct)[j].1, z)
            } ==> r == Err::<(), _>(
                RegevVerifyError::StatementMismatch {
                    instance,
                    poly: encryption_claims(pk, ct)[j].0,
                },
            ),
        call_requires(prove::bind_encryption, (&params, &pk, &ct, data, z, instance)),
{
    let claims = encryption_claims(pk, ct);
    assert forall|j: int|
        #![trigger data@[j]]
        {
            &&& 0 <= j < 4
            &&& data@.len() == 4
            &&& ct.c1@.len() == params.n
            &&& ct.c2@.len() == params.n
            &&& forall|k: int| 0 <= k < j ==> evaluates(#[trigger] data@[k], claims[k].1, z)
            &&& !evaluates(data@[j], claims[j].1, z)
        } implies r == Err::<(), _>(
        RegevVerifyError::StatementMismatch { instance, poly: claims[j].0 },
    ) by {
        assert(j == 0 || j == 1 || j == 2 || j == 3);
    }
}

/// One transfer is bound exactly if its published values are those of its
/// polynomials at the challenge. Its place in the batch does not matter; it is
/// only named in the report, which is on the first polynomial that differs.
pub proof fn law_bind_transfer(
    params: RegevParams,
    pk: PublicKey,
    t: Transfer,
    data: &[LookupData],
    z: Challenge,
    instance: usize,
    r: Result<(), RegevVerifyError>,
)
    requires
        call_ensures(prove::bind_transfer, (&params, &pk, &t, data, z, instance), r),
    ensures
        r is Ok <==> transfer_bound(params, pk, t, data@, z),
        data@.len() != 8 ==> r == Err::<(), _>(
            RegevVerifyError::Shape("expected 8 published evaluations"),
        ),
        data@.len() == 8 && !({
            &&& t.before.c1@.len() == params.n
            &&& t.before.c2@.len() == params.n
            &&& t.delta.c1@.len() == params.n
            &&& t.delta.c2@.len() == params.n
            &&& t.after.c1@.len() == params.n
            &&& t.after.c2@.len() == params.n
        }) ==> r == Err::<(), _>(RegevVerifyError::Shape("ciphertext length != n")),
        forall|j: int|
            #![trigger data@[j]]
            {
                &&& 0 <= j < 8
                &&& data@.len() == 8
                &&& t.before.c1@.len() == params.n
                &&& t.before.c2@.len() == params.n
                &&& t.delta.c1@.len() == params.n
                &&& t.delta.c2@.len() == params.n
                &&& t.after.c1@.len() == params.n
                &&& t.after.c2@.len() == params.n
                &&& forall|k: int|
                    0 <= k < j ==> evaluates(#[trigger] data@[k], transfer_claims(pk, t)[k].1, z)
                &&& !evaluates(data@[j], transfer_claims(pk, t)[j].1, z)
            } ==> r == Err::<(), _>(
                RegevVerifyError::StatementMismatch {
                    instance,
                    poly: transfer_claims(pk, t)[j].0,
                },
            ),
        call_requires(prove::bind_transfer, (&params, &pk, &t, data, z, instance)),
{
    let claims = transfer_claims(pk, t);
    assert forall|j: int|
        #![trigger data@[j]]
        {
            &&& 0 <= j < 8
            &&& data@.len() == 8
            &&& t.before.c1@.len() == params.n
            &&& t.before.c2@.len() == params.n
            &&& t.delta.c1@.len() == params.n
            &&& t.delta.c2@.len() == params.n
            &&& t.after.c1@.len() == params.n
            &&& t.after.c2@.len() == params.n
            &&& forall|k: int| 0 <= k < j ==> evaluates(#[trigger] data@[k], claims[k].1, z)
            &&& !evaluates(data@[j], claims[j].1, z)
        } implies r == Err::<(), _>(
        RegevVerifyError::StatementMismatch { instance, poly: claims[j].0 },
    ) by {
        assert(j == 0 || j == 1 || j == 2 || j == 3 || j == 4 || j == 5 || j == 6 || j == 7);
    }
}

proof fn lemma_first_encryption(
    n: int,
    pk: KeyModel,
    cts: Seq<Ciphertext>,
    proof: RegevProof,
    zs: Seq<Vec<Challenge>>,
    from: int,
    i: int,
)
    requires
        0 <= from <= i < cts.len(),
        forall|j: int|
            from <= j < i ==> prove::encryption_verdict(
                n,
                pk,
                (#[trigger] cts[j])@,
                proof.global_lookup_data@[j]@,
                zs[j]@[0]@,
                j as usize,
            ) is Ok,
        prove::encryption_verdict(
            n,
            pk,
            cts[i]@,
            proof.global_lookup_data@[i]@,
            zs[i]@[0]@,
            i as usize,
        ) is Err,
    ensures
        prove::encryption_binding(n, pk, cts, proof, zs, from) == prove::encryption_verdict(
            n,
            pk,
            cts[i]@,
            proof.global_lookup_data@[i]@,
            zs[i]@[0]@,
            i as usize,
        ),
    decreases i - from,
{
    if from < i {
        assert(cts[from] == cts[from]);
        lemma_first_encryption(n, pk, cts, proof, zs, from + 1, i);
    }
}

proof fn lemma_first_transfer(
    n: int,
    pk: KeyModel,
    ts: Seq<Transfer>,
    proof: RegevProof,
    zs: Seq<Vec<Challenge>>,
    from: int,
    i: int,
)
    requires
        0 <= from <= i < ts.len(),
        forall|j: int|
            from <= j < i ==> prove::transfer_verdict(
                n,
                pk,
                (#[trigger] ts[j]),
                proof.global_lookup_data@[j]@,
                zs[j]@[0]@,
                j as usize,
            ) is Ok,
        prove::transfer_verdict(
            n,
            pk,
            ts[i],
            proof.global_lookup_data@[i]@,
            zs[i]@[0]@,
            i as usize,
        ) is Err,
    ensures
        prove::transfer_binding(n, pk, ts, proof, zs, from) == prove::transfer_verdict(
            n,
            pk,
            ts[i],
            proof.global_lookup_data@[i]@,
            zs[i]@[0]@,
            i as usize,
        ),
    decreases i - from,
{
    if from < i {
        assert(ts[from] == ts[from]);
        lemma_first_transfer(n, pk, ts, proof, zs, from + 1, i);
    }
}

/// A batch of encryptions is accepted exactly if its shape is right, the STARK
/// verifies, and in every instance all 4 published values are those of the
/// claimed polynomials at the challenge of that instance. Otherwise the report
/// is on the shape, then on the STARK, then on the first instance that is not
/// bound.
pub proof fn law_verify_encryptions(
    params: RegevParams,
    pk: PublicKey,
    cts: &[Ciphertext],
    proof: RegevProof,
    is_zk: usize,
    outcome: StarkOutcome,
    k: nat,
    r: Result<(), RegevVerifyError>,
)
    requires
        cts@.len() > 0 && pk.a@.len() == params.n && pk.b@.len() == params.n ==> params.n == pow2(
            k,
        ),
        call_ensures(
            prove::verify_encryptions,
            (&params, &pk, cts, &proof, is_zk, outcome),
            r,
        ),
    ensures
        r is Ok <==> {
            &&& well_shaped(params, pk, cts@.len() as int, proof, is_zk as int, k)
            &&& outcome is Ok
            &&& forall|i: int|
                0 <= i < cts@.len() ==> encryption_bound(
                    params,
                    pk,
                    #[trigger] cts@[i],
                    proof.global_lookup_data@[i]@,
                    outcome->Ok_0@[i]@[0],
                )
        },
        cts@.len() == 0 ==> r == Err::<(), _>(RegevVerifyError::Shape("empty batch")),
        cts@.len() > 0 && (pk.a@.len() != params.n || pk.b@.len() != params.n) ==> r == Err::<
            (),
            _,
        >(RegevVerifyError::Shape("public key length != n")),
        cts@.len() > 0 && pk.a@.len() == params.n && pk.b@.len() == params.n && !well_shaped(
            params,
            pk,
            cts@.len() as int,
            proof,
            is_zk as int,
            k,
        ) ==> r == Err::<(), _>(RegevVerifyError::Shape("trace height != ring dimension")),
        well_shaped(params, pk, cts@.len() as int, proof, is_zk as int, k) ==> (
        outcome matches Err(e) ==> r == Err::<(), _>(RegevVerifyError::Stark(e))),
        forall|i: usize, data: &[LookupData], v: Result<(), RegevVerifyError>|
            {
                &&& well_shaped(params, pk, cts@.len() as int, proof, is_zk as int, k)
                &&& outcome is Ok
                &&& i < cts@.len()
                &&& data@ == proof.global_lookup_data@[i as int]@
                &&& forall|j: int|
                    0 <= j < i ==> encryption_bound(
                        params,
                        pk,
                        #[trigger] cts@[j],
                        proof.global_lookup_data@[j]@,
                        outcome->Ok_0@[j]@[0],
                    )
                &&& #[trigger] call_ensures(
                    prove::bind_encryption,
                    (
                        &params,
                        &pk,
                        &cts@[i as int],
                        data,
                        outcome->Ok_0@[i as int]@[0],
                        i,
                    ),
                    v,
                )
                &&& v is Err
            } ==> r == v,
{
    dft::lemma_log2_pow2(k);
    binding::law_batch_accepts_iff_all_bound(params, pk@, cts@, proof, is_zk as int, outcome);
    if let Ok(zs) = outcome {
        assert forall|i: int| 0 <= i < cts@.len() implies prove::encryption_verdict(
            params.n as int,
            pk@,
            (#[trigger] cts@[i])@,
            proof.global_lookup_data@[i]@,
            zs@[i]@[0]@,
            i as usize,
        ) is Ok == encryption_bound(
            params,
            pk,
            cts@[i],
            proof.global_lookup_data@[i]@,
            zs@[i]@[0],
        ) by {
        }
        assert forall|i: usize, data: &[LookupData], v: Result<(), RegevVerifyError>|
            {
                &&& well_shaped(params, pk, cts@.len() as int, proof, is_zk as int, k)
                &&& i < cts@.len()
                &&& data@ == proof.global_lookup_data@[i as int]@
                &&& forall|j: int|
                    0 <= j < i ==> encryption_bound(
                        params,
                        pk,
                        #[trigger] cts@[j],
                        proof.global_lookup_data@[j]@,
                        zs@[j]@[0],
                    )
                &&& #[trigger] call_ensures(
                    prove::bind_encryption,
                    (&params, &pk, &cts@[i as int], data, zs@[i as int]@[0], i),
                    v,
                )
                &&& v is Err
            } implies r == v by {
            lemma_first_encryption(params.n as int, pk@, cts@, proof, zs@, 0, i as int);
        }
    }
}

/// A batch of encryptions is accepted exactly if its shape is right, the STARK
/// verifies, and in every instance all 4 published values are those of the
/// claimed polynomials at the challenge of that instance. Otherwise the report
/// is on the shape, then on the STARK, then on the first instance that is not
/// bound.
pub proof fn law_verify_encryptions_with_range(
    params: RegevParams,
    pk: PublicKey,
    cts: &[Ciphertext],
    proof: RegevProof,
    spec: RangeSpec,
    is_zk: usize,
    outcome: StarkOutcome,
    k: nat,
    r: Result<(), RegevVerifyError>,
)
    requires
        cts@.len() > 0 && pk.a@.len() == params.n && pk.b@.len() == params.n ==> params.n == pow2(
            k,
        ),
        call_ensures(
            prove::verify_encryptions_with_range,
            (&params, &pk, cts, &proof, spec, is_zk, outcome),
            r,
        ),
    ensures
        r is Ok <==> {
            &&& well_shaped(params, pk, cts@.len() as int, proof, is_zk as int, k)
            &&& outcome is Ok
            &&& forall|i: int|
                0 <= i < cts@.len() ==> encryption_bound(
                    params,
                    pk,
                    #[trigger] cts@[i],
                    proof.global_lookup_data@[i]@,
                    outcome->Ok_0@[i]@[0],
                )
        },
        cts@.len() == 0 ==> r == Err::<(), _>(RegevVerifyError::Shape("empty batch")),
        cts@.len() > 0 && (pk.a@.len() != params.n || pk.b@.len() != params.n) ==> r == Err::<
            (),
            _,
        >(RegevVerifyError::Shape("public key length != n")),
        cts@.len() > 0 && pk.a@.len() == params.n && pk.b@.len() == params.n && !well_shaped(
            params,
            pk,
            cts@.len() as int,
            proof,
            is_zk as int,
            k,
        ) ==> r == Err::<(), _>(RegevVerifyError::Shape("trace height != ring dimension")),
        well_shaped(params, pk, cts@.len() as int, proof, is_zk as int, k) ==> (
        outcome matches Err(e) ==> r == Err::<(), _>(RegevVerifyError::Stark(e))),
        forall|i: usize, data: &[LookupData], v: Result<(), RegevVerifyError>|
            {
                &&& well_shaped(params, pk, cts@.len() as int, proof, is_zk as int, k)
                &&& outcome is Ok
                &&& i < cts@.len()
                &&& data@ == proof.global_lookup_data@[i as int]@
                &&& forall|j: int|
                    0 <= j < i ==> encryption_bound(
                        params,
                        pk,
                        #[trigger] cts@[j],
                        proof.global_lookup_data@[j]@,
                        outcome->Ok_0@[j]@[0],
                    )
                &&& #[trigger] call_ensures(
                    prove::bind_encryption,
                    (
                        &params,
                        &pk,
                        &cts@[i as int],
                        data,
                        outcome->Ok_0@[i as int]@[0],
                        i,
                    ),
                    v,
                )
                &&& v is Err
            } ==> r == v,
{
    dft::lemma_log2_pow2(k);
    binding::law_batch_accepts_iff_all_bound(params, pk@, cts@, proof, is_zk as int, outcome);
    if let Ok(zs) = outcome {
        assert forall|i: int| 0 <= i < cts@.len() implies prove::encryption_verdict(
            params.n as int,
            pk@,
            (#[trigger] cts@[i])@,
            proof.global_lookup_data@[i]@,
            zs@[i]@[0]@,
            i as usize,
        ) is Ok == encryption_bound(
            params,
            pk,
            cts@[i],
            proof.global_lookup_data@[i]@,
            zs@[i]@[0],
        ) by {
        }
        assert forall|i: usize, data: &[LookupData], v: Result<(), RegevVerifyError>|
            {
                &&& well_shaped(params, pk, cts@.len() as int, proof, is_zk as int, k)
                &&& i < cts@.len()
                &&& data@ == proof.global_lookup_data@[i as int]@
                &&& forall|j: int|
                    0 <= j < i ==> encryption_bound(
                        params,
                        pk,
                        #[trigger] cts@[j],
                        proof.global_lookup_data@[j]@,
                        zs@[j]@[0],
                    )
                &&& #[trigger] call_ensures(
                    prove::bind_encryption,
                    (&params, &pk, &cts@[i as int], data, zs@[i as int]@[0], i),
                    v,
                )
                &&& v is Err
            } implies r == v by {
            lemma_first_encryption(params.n as int, pk@, cts@, proof, zs@, 0, i as int);
        }
    }
}

/// A batch of transfers is accepted exactly if its shape is right, the STARK
/// verifies, and in every instance all 8 published values are those of the
/// claimed polynomials at the challenge of that instance. Otherwise the report
/// is on the shape, then on the STARK, then on the first instance that is not
/// bound.
pub proof fn law_verify_transfers(
    params: RegevParams,
    pk: PublicKey,
    ts: &[Transfer],
    proof: RegevProof,
    is_zk: usize,
    outcome: StarkOutcome,
    k: nat,
    r: Result<(), RegevVerifyError>,
)
    requires
        ts@.len() > 0 && pk.a@.len() == params.n && pk.b@.len() == params.n ==> params.n == pow2(k),
        call_ensures(
            prove::verify_transfers,
            (&params, &pk, ts, &proof, is_zk, outcome),
            r,
        ),
    ensures
        r is Ok <==> {
            &&& well_shaped(params, pk, ts@.len() as int, proof, is_zk as int, k)
            &&& outcome is Ok
            &&& forall|i: int|
                0 <= i < ts@.len() ==> transfer_bound(
                    params,
                    pk,
                    #[trigger] ts@[i],
                    proof.global_lookup_data@[i]@,
                    outcome->Ok_0@[i]@[0],
                )
        },
        ts@.len() == 0 ==> r == Err::<(), _>(RegevVerifyError::Shape("empty batch")),
        ts@.len() > 0 && (pk.a@.len() != params.n || pk.b@.len() != params.n) ==> r == Err::<
            (),
            _,
        >(RegevVerifyError::Shape("public key length != n")),
        ts@.len() > 0 && pk.a@.len() == params.n && pk.b@.len() == params.n && !well_shaped(
            params,
            pk,
            ts@.len() as int,
            proof,
            is_zk as int,
            k,
        ) ==> r == Err::<(), _>(RegevVerifyError::Shape("trace height != ring dimension")),
        well_shaped(params, pk, ts@.len() as int, proof, is_zk as int, k) ==> (
        outcome matches Err(e) ==> r == Err::<(), _>(RegevVerifyError::Stark(e))),
        forall|i: usize, data: &[LookupData], v: Result<(), RegevVerifyError>|
            {
                &&& well_shaped(params, pk, ts@.len() as int, proof, is_zk as int, k)
                &&& outcome is Ok
                &&& i < ts@.len()
                &&& data@ == proof.global_lookup_data@[i as int]@
                &&& forall|j: int|
                    0 <= j < i ==> transfer_bound(
                        params,
                        pk,
                        #[trigger] ts@[j],
                        proof.global_lookup_data@[j]@,
                        outcome->Ok_0@[j]@[0],
                    )
                &&& #[trigger] call_ensures(
                    prove::bind_transfer,
                    (
                        &params,
                        &pk,
                        &ts@[i as int],
                        data,
                        outcome->Ok_0@[i as int]@[0],
                        i,
                    ),
                    v,
                )
                &&& v is Err
            } ==> r == v,
{
    dft::lemma_log2_pow2(k);
    binding::law_transfer_batch_accepts_iff_all_bound(
        params,
        pk@,
        ts@,
        proof,
        is_zk as int,
        outcome,
    );
    if let Ok(zs) = outcome {
        assert forall|i: int| 0 <= i < ts@.len() implies prove::transfer_verdict(
            params.n as int,
            pk@,
            (#[trigger] ts@[i]),
            proof.global_lookup_data@[i]@,
            zs@[i]@[0]@,
            i as usize,
        ) is Ok == transfer_bound(
            params,
            pk,
            ts@[i],
            proof.global_lookup_data@[i]@,
            zs@[i]@[0],
        ) by {
        }
        assert forall|i: usize, data: &[LookupData], v: Result<(), RegevVerifyError>|
            {
                &&& well_shaped(params, pk, ts@.len() as int, proof, is_zk as int, k)
                &&& i < ts@.len()
                &&& data@ == proof.global_lookup_data@[i as int]@
                &&& forall|j: int|
                    0 <= j < i ==> transfer_bound(
                        params,
                        pk,
                        #[trigger] ts@[j],
                        proof.global_lookup_data@[j]@,
                        zs@[j]@[0],
                    )
                &&& #[trigger] call_ensures(
                    prove::bind_transfer,
                    (&params, &pk, &ts@[i as int], data, zs@[i as int]@[0], i),
                    v,
                )
                &&& v is Err
            } implies r == v by {
            lemma_first_transfer(params.n as int, pk@, ts@, proof, zs@, 0, i as int);
        }
    }
}

/// What the STARK verifier reports on a batch can be judged for every number of
/// instances: nothing else is asked than that it covers them, and that the ring
/// dimension is a power of two where the batch is not rejected before.
pub proof fn law_verification_is_allowed(
    params: RegevParams,
    pk: PublicKey,
    cts: &[Ciphertext],
    ts: &[Transfer],
    proof: RegevProof,
    spec: RangeSpec,
    is_zk: usize,
    outcome: StarkOutcome,
    k: nat,
)
    requires
        is_zk <= 1,
        params.n == pow2(k) || cts@.len() == 0 || pk.a@.len() != params.n || pk.b@.len()
            != params.n,
        ts@.len() == cts@.len(),
        outcome matches Ok(zs) ==> {
            &&& zs@.len() >= cts@.len()
            &&& proof.global_lookup_data@.len() >= cts@.len()
            &&& forall|i: int| 0 <= i < cts@.len() ==> (#[trigger] zs@[i])@.len() >= 1
        },
        1 <= spec.value_bits <= 29,
        spec.value_bits <= params.n,
        1 <= spec.bound <= pow2(spec.value_bits as nat),
    ensures
        call_requires(prove::verify_encryptions, (&params, &pk, cts, &proof, is_zk, outcome)),
        call_requires(
            prove::verify_encryptions_with_range,
            (&params, &pk, cts, &proof, spec, is_zk, outcome),
        ),
        call_requires(prove::verify_transfers, (&params, &pk, ts, &proof, is_zk, outcome)),
{
    dft::lemma_log2_pow2(k);
}

// ---------------------------------------------------------------------------
// Ranges.
// ---------------------------------------------------------------------------
/// Every width from 1 to 29 bits that the ring can hold, and every bound from 1
/// to the number of values of that width, can be enforced; nothing else can.
pub proof fn law_range_is_valid(spec: RangeSpec, n: usize, r: bool)
    requires
        call_ensures(RangeSpec::is_valid, (&spec, n), r),
    ensures
        r <==> {
            &&& 1 <= spec.value_bits <= 29
            &&& spec.value_bits <= n
            &&& 1 <= spec.bound <= pow2(spec.value_bits as nat)
        },
        call_requires(RangeSpec::is_valid, (&spec, n)),
{
}

// ---------------------------------------------------------------------------
// Parameters.
// ---------------------------------------------------------------------------
/// The parameters that the scheme works with are those with a power of two up
/// to `2^26` as dimension, the one noise width, and digits of 1 to 8 bits.
pub proof fn law_parameters_are_valid(params: RegevParams, r: bool)
    requires
        call_ensures(RegevParams::is_valid, (&params,), r),
    ensures
        r <==> {
            &&& exists|k: nat| k <= 26 && params.n == #[trigger] pow2(k)
            &&& params.eta == 2
            &&& 1 <= params.plain_bits <= 8
        },
        call_requires(RegevParams::is_valid, (&params,)),
{
    lemma_ring_size(params.n as int);
}

/// A ring dimension is a power of two up to `2^26`.
proof fn lemma_ring_size(n: int)
    ensures
        ntt::is_ring_size(n) <==> exists|k: nat| k <= 26 && n == #[trigger] pow2(k),
{
    lemma2_to64();
    if exists|k: nat| k <= 26 && n == #[trigger] pow2(k) {
        let k = choose|k: nat| k <= 26 && n == #[trigger] pow2(k);
        dft::lemma_log2_pow2(k);
        dft::lemma_pow2_monotone(k, 26);
    }
    if ntt::is_ring_size(n) {
        let k = dft::log2(n);
        if k > 26 {
            dft::lemma_pow2_monotone(27, k);
        }
        assert(k <= 26 && n == pow2(k));
    }
}

/// The plaintext modulus is `2^plain_bits`, and the scale is how often it goes
/// into `q`.
pub proof fn law_moduli(params: RegevParams, t: u32, d: u32, q: u32)
    requires
        params.plain_bits < 32,
        call_ensures(RegevParams::t, (&params,), t),
        call_ensures(RegevParams::delta, (&params,), d),
        call_ensures(RegevParams::q, (), q),
    ensures
        q == 2013265921,
        t == pow2(params.plain_bits as nat),
        d * t <= q < (d + 1) * t,
        call_requires(RegevParams::t, (&params,)),
        call_requires(RegevParams::delta, (&params,)),
{
    lemma_pow2_pos(params.plain_bits as nat);
    vstd::arithmetic::div_mod::lemma_fundamental_div_mod(q as int, t as int);
    let m = q as int % t as int;
    assert(0 <= m < t);
    assert(d * t == t * (q as int / t as int)) by (nonlinear_arith)
        requires
            d == q as int / t as int,
    ;
    assert((d + 1) * t == d * t + t) by (nonlinear_arith);
}

/// `log_n` is the exponent of the ring dimension.
pub proof fn law_log_of_dimension(params: RegevParams, k: nat, l: usize)
    requires
        params.n == pow2(k),
        call_ensures(RegevParams::log_n, (&params,), l),
    ensures
        l == k,
        call_requires(RegevParams::log_n, (&params,)),
{
    dft::lemma_log2_pow2(k);
}

/// The two published parameter sets.
pub proof fn law_published_sets(x: RegevParams, y: RegevParams)
    requires
        call_ensures(RegevParams::n1024, (), x),
        call_ensures(RegevParams::n2048, (), y),
    ensures
        x.n == 1024,
        y.n == 2048,
        x.eta == 2 && y.eta == 2,
        x.plain_bits == 8 && y.plain_bits == 8,
{
}

/// Which numbers are powers of two, and the exponent of the largest power of
/// two in a number.
pub proof fn law_powers_of_two(n: usize, p: bool, l: usize)
    requires
        call_ensures(ntt::is_power_of_two, (n,), p),
        call_ensures(ntt::log2_exact, (n,), l),
    ensures
        p <==> exists|k: nat| n == #[trigger] pow2(k),
        n >= 1 ==> pow2(l as nat) <= n < pow2(l as nat + 1),
        call_requires(ntt::is_power_of_two, (n,)),
        call_requires(ntt::log2_exact, (n,)),
{
    if exists|k: nat| n == #[trigger] pow2(k) {
        let k = choose|k: nat| n == #[trigger] pow2(k);
        dft::lemma_log2_pow2(k);
    }
    if n >= 1 {
        lemma_log2_bounds(n as int);
    }
}

proof fn lemma_log2_bounds(n: int)
    requires
        n >= 1,
    ensures
        pow2(dft::log2(n)) <= n < pow2(dft::log2(n) + 1),
    decreases n,
{
    lemma2_to64();
    if n > 1 {
        lemma_log2_bounds(n / 2);
        dft::lemma_pow2_step(dft::log2(n / 2));
        dft::lemma_pow2_step(dft::log2(n));
    }
}

// ---------------------------------------------------------------------------
// Polynomial arithmetic.
// ---------------------------------------------------------------------------
/// The transform takes every power of two up to `2^27`, and products every
/// power of two up to `2^26`.
pub proof fn law_transforms_are_allowed(
    v: &mut [F],
    a: &[F],
    b: &[F],
    inverse: bool,
    k: nat,
    j: nat,
)
    requires
        k <= 27,
        v@.len() == pow2(k),
        j <= 26,
        a@.len() == pow2(j),
        b@.len() == pow2(j),
    ensures
        call_requires(ntt::ntt, (v, inverse)),
        call_requires(ntt::full_poly_mul, (a, b)),
        call_requires(ntt::negacyclic_mul_naive, (a, b)),
{
    lemma2_to64();
    dft::lemma_log2_pow2(k);
    dft::lemma_pow2_monotone(k, 27);
    lemma_ring_size(a@.len() as int);
}

/// The forward transform of size `2^k` gives the values of the polynomial at
/// the powers of the root of unity of that order, in their natural order.
pub proof fn law_ntt_evaluates(v: &mut [F], w: F, k: nat, i: int)
    requires
        k <= 27,
        v@.len() == pow2(k),
        call_ensures(ntt::ntt, (v, false), ()),
        call_ensures(F::two_adic_generator, (k as usize,), w),
        0 <= i < v@.len(),
    ensures
        final(v)@.len() == old(v)@.len(),
        Ext::of(final(v)@[i]@).cong(
            poly::eval(field::vals(old(v)@), Ext::of(pow(w@, i as nat))),
        ),
{
    dft::lemma_log2_pow2(k);
    let x = field::vals(v@);
    dft::lemma_dft_eval(x, w@, i);
    assert(field::vals(final(v)@)[i] == final(v)@[i]@);
    sums::lemma_cong_mod(dft::dft(x, w@, i));
}

/// The published roots of unity: that of order `2^k` has the square of order
/// `2^(k-1)`, and that of order 2 is `-1`.
pub proof fn law_roots_of_unity(v: F, w: F, k: usize)
    requires
        k < 27,
        call_ensures(F::two_adic_generator, (k,), v),
        call_ensures(F::two_adic_generator, ((k + 1) as usize,), w),
    ensures
        (w@ * w@) % field::q() == v@,
        k == 0 ==> v@ == 1,
        k == 1 ==> v@ == field::q() - 1,
        call_requires(F::two_adic_generator, (k,)),
{
    dft::lemma_root_square(k as nat + 1);
    field::lemma_two_adic_root_range(k as nat);
    vstd::arithmetic::div_mod::lemma_small_mod(v@ as nat, field::q() as nat);
}

/// The full product has the convolutions as coefficients, and the naive product
/// folds the upper half into the lower by the rule `x^n = -1`.
pub proof fn law_products(a: &[F], b: &[F], full: Vec<F>, folded: Vec<F>, j: nat, k: int)
    requires
        j <= 26,
        a@.len() == pow2(j),
        b@.len() == pow2(j),
        call_ensures(ntt::full_poly_mul, (a, b), full),
        call_ensures(ntt::negacyclic_mul_naive, (a, b), folded),
        0 <= k < a@.len(),
    ensures
        full@.len() == 2 * a@.len(),
        folded@.len() == a@.len(),
        full@[k]@ == poly::conv(field::vals(a@), field::vals(b@), k) % field::q(),
        full@[a@.len() + k]@ == poly::conv(field::vals(a@), field::vals(b@), a@.len() + k)
            % field::q(),
        folded@[k]@ == (full@[k]@ - full@[a@.len() + k]@) % field::q(),
        full@[2 * a@.len() - 1]@ == 0,
{
    let x = field::vals(a@);
    let y = field::vals(b@);
    lemma_ring_size(a@.len() as int);
    assert(field::vals(full@)[k] == full@[k]@);
    assert(field::vals(full@)[a@.len() + k] == full@[a@.len() + k]@);
    poly::lemma_nega_split(x, y, k);
    sums::lemma_mod_sub2(poly::conv(x, y, k), poly::conv(x, y, a@.len() + k));
}

/// The naive product folds the convolutions by the rule `x^n = -1`, at every
/// length.
pub proof fn law_naive_product(a: &[F], b: &[F], r: Vec<F>, k: int)
    requires
        a@.len() == b@.len(),
        call_ensures(ntt::negacyclic_mul_naive, (a, b), r),
        0 <= k < a@.len(),
    ensures
        call_requires(ntt::negacyclic_mul_naive, (a, b)),
        r@.len() == a@.len(),
        r@[k]@ == (poly::conv(field::vals(a@), field::vals(b@), k) - poly::conv(
            field::vals(a@),
            field::vals(b@),
            a@.len() + k,
        )) % field::q(),
{
    poly::lemma_nega_split(field::vals(a@), field::vals(b@), k);
}

/// The two transforms undo each other.
pub proof fn law_transforms_undo_each_other(v: &mut [F], w: &mut [F], first: bool, k: nat)
    requires
        k <= 27,
        v@.len() == pow2(k),
        call_ensures(ntt::ntt, (v, first), ()),
        w@ == final(v)@,
        call_ensures(ntt::ntt, (w, !first), ()),
    ensures
        field::vals(final(w)@) == field::vals(old(v)@),
{
    lemma2_to64();
    dft::lemma_log2_pow2(k);
    dft::lemma_pow2_monotone(k, 27);
    if first {
        ntt::law_ntt_inverse_roundtrip(v@, final(v)@);
    } else {
        ntt::law_ntt_roundtrip(v@, final(w)@);
    }
}

/// Splitting a product of `2n` coefficients: the upper half is the quotient by
/// `x^n + 1`, and the lower half minus the upper half is the remainder.
pub proof fn law_split(prod: &[F], n: usize, r: (Vec<F>, Vec<F>), i: int)
    requires
        prod@.len() == 2 * n,
        call_ensures(regev::split_negacyclic, (prod, n), r),
        0 <= i < n,
    ensures
        r.0@.len() == n,
        r.1@.len() == n,
        r.1@[i] == prod@[n + i],
        (r.0@[i]@ + r.1@[i]@) % field::q() == prod@[i]@,
        call_requires(regev::split_negacyclic, (prod, n)),
{
    let x = prod@[i];
    let y = prod@[n + i];
    x.lemma_view_range();
    sums::lemma_mod_add2(x@ - y@, y@);
    y.lemma_view_range();
    vstd::arithmetic::div_mod::lemma_small_mod(x@ as nat, field::q() as nat);
    vstd::arithmetic::div_mod::lemma_small_mod(y@ as nat, field::q() as nat);
}

// ---------------------------------------------------------------------------
// The scheme.
// ---------------------------------------------------------------------------
/// Signed and centered representatives: a field element is at most `q/2` away
/// from zero, and it comes back from its representative.
pub proof fn law_centered_representatives(x: F, c: i64, y: F)
    requires
        call_ensures(regev::field_to_centered, (x,), c),
        call_ensures(regev::centered_to_field, (c,), y),
    ensures
        -1006632960 <= c <= 1006632960,
        sums::cong(c as int, x@),
        y@ == x@,
        call_requires(regev::field_to_centered, (x,)),
        call_requires(regev::centered_to_field, (c,)),
{
    x.lemma_view_range();
    vstd::arithmetic::div_mod::lemma_small_mod(x@ as nat, field::q() as nat);
    y.lemma_view_range();
    sums::lemma_cong_eq(c as int, x@);
}

/// A signed number as a field element: its low 32 bits count, with its sign.
pub proof fn law_signed_to_field(x: i64, r: F)
    requires
        x > i64::MIN,
        call_ensures(regev::centered_to_field, (x,), r),
    ensures
        call_requires(regev::centered_to_field, (x,)),
        x >= 0 ==> r@ == (x as int % 4294967296) % field::q(),
        x < 0 ==> r@ == (-(-x % 4294967296)) % field::q(),
        -4294967296 < x < 4294967296 ==> r@ == x as int % field::q(),
{
}

/// The halves of a byte count ones: of its two lowest bits, and of the next two.
/// The upper four bits do not matter.
pub proof fn law_halves_count_ones(b: u8, r: (u8, u8), b0: int, b1: int, b2: int, b3: int, hi: int)
    requires
        call_ensures(regev::cbd2_halves, (b,), r),
        0 <= b0 <= 1,
        0 <= b1 <= 1,
        0 <= b2 <= 1,
        0 <= b3 <= 1,
        b == b0 + 2 * b1 + 4 * b2 + 8 * b3 + 16 * hi,
    ensures
        r.0 == b0 + b1,
        r.1 == b2 + b3,
        call_requires(regev::cbd2_halves, (b,)),
{
}

/// A key pair made from its parts: the parts are kept, and `b = a*s + e` in the
/// ring, with the noise `e` as the difference of its halves.
pub proof fn law_key_from_parts(
    a: Vec<F>,
    s: Vec<i8>,
    eu: &[u8],
    ev: &[u8],
    r: (PublicKey, SecretKey),
    j: nat,
    k: int,
)
    requires
        j <= 26,
        a@.len() == pow2(j),
        s@.len() == a@.len(),
        eu@.len() == a@.len(),
        ev@.len() == a@.len(),
        call_ensures(regev::keygen_from, (a, s, eu, ev), r),
        0 <= k < a@.len(),
    ensures
        r.0.a@ == a@,
        r.1.s@ == s@,
        r.0.b@.len() == a@.len(),
        r.0.b@[k]@ == (poly::conv(field::vals(a@), regev::signed(s@), k) - poly::conv(
            field::vals(a@),
            regev::signed(s@),
            a@.len() + k,
        ) + eu@[k] - ev@[k]) % field::q(),
        call_requires(regev::keygen_from, (a, s, eu, ev)),
{
    lemma_ring_size(a@.len() as int);
    poly::lemma_nega_split(field::vals(a@), regev::signed(s@), k);
    let x = poly::nega(field::vals(a@), regev::signed(s@), k);
    let e = eu@[k] - ev@[k];
    assert(x + e == x + eu@[k] - ev@[k]);
}

/// Encryption with given randomness: the randomness and the message are kept in
/// the witness, `c1 = a*r + e1` and `c2 = b*r + e2 + D*m` in the ring, and the
/// quotients are the upper halves of the products.
pub proof fn law_encryption_from_parts(
    params: RegevParams,
    pk: PublicKey,
    m: &[u8],
    r: Vec<i8>,
    e1u: Vec<u8>,
    e1v: Vec<u8>,
    e2u: Vec<u8>,
    e2v: Vec<u8>,
    d: u32,
    out: (Ciphertext, EncryptionWitness),
    j: nat,
    k: int,
)
    requires
        j <= 26,
        params.n == pow2(j),
        params.plain_bits < 32,
        pk.a@.len() == params.n,
        pk.b@.len() == params.n,
        m@.len() == params.n,
        r@.len() == params.n,
        e1u@.len() == params.n,
        e1v@.len() == params.n,
        e2u@.len() == params.n,
        e2v@.len() == params.n,
        call_ensures(RegevParams::delta, (&params,), d),
        call_ensures(regev::encrypt_with, (&params, &pk, m, r, e1u, e1v, e2u, e2v), out),
        0 <= k < params.n,
    ensures
        out.0.c1@.len() == params.n,
        out.0.c2@.len() == params.n,
        out.0.c1@[k]@ == (poly::conv(field::vals(pk.a@), regev::signed(r@), k) - poly::conv(
            field::vals(pk.a@),
            regev::signed(r@),
            params.n + k,
        ) + e1u@[k] - e1v@[k]) % field::q(),
        out.0.c2@[k]@ == (poly::conv(field::vals(pk.b@), regev::signed(r@), k) - poly::conv(
            field::vals(pk.b@),
            regev::signed(r@),
            params.n + k,
        ) + e2u@[k] - e2v@[k] + d * m@[k]) % field::q(),
        out.1.r@ == r@,
        out.1.e1u@ == e1u@,
        out.1.e1v@ == e1v@,
        out.1.e2u@ == e2u@,
        out.1.e2v@ == e2v@,
        out.1.m@ == m@,
        out.1.k1@.len() == params.n,
        out.1.k2@.len() == params.n,
        out.1.k1@[k]@ == poly::conv(field::vals(pk.a@), regev::signed(r@), params.n + k)
            % field::q(),
        out.1.k2@[k]@ == poly::conv(field::vals(pk.b@), regev::signed(r@), params.n + k)
            % field::q(),
        call_requires(regev::encrypt_with, (&params, &pk, m, r, e1u, e1v, e2u, e2v)),
{
    lemma_ring_size(params.n as int);
    let a = field::vals(pk.a@);
    let b = field::vals(pk.b@);
    let s = regev::signed(r@);
    poly::lemma_nega_split(a, s, k);
    poly::lemma_nega_split(b, s, k);
    let want = regev::encryption(params, pk@, out.1@);
    assert(out.0@.c1.len() == params.n);
    assert(out.0@.c2.len() == params.n);
    assert(out.1@.k1.len() == params.n);
    assert(out.1@.k2.len() == params.n);
    assert(out.0@.c1[k] == out.0.c1@[k]@);
    assert(out.0@.c2[k] == out.0.c2@[k]@);
    assert(out.1@.k1[k] == out.1.k1@[k]@);
    assert(out.1@.k2[k] == out.1.k2@[k]@);
    assert(out.1@.e1()[k] == e1u@[k] - e1v@[k]);
    assert(out.1@.e2()[k] == e2u@[k] - e2v@[k]);
    assert(out.1@.m[k] == m@[k]);
}

/// What every entry of the randomness of a key or an encryption is: the `i`-th
/// call of the generator, on the state that the call before it left.
pub open spec fn run_of(gs: Seq<SmallRng>, before: SmallRng, after: SmallRng, n: int) -> bool {
    &&& gs.len() == 3 * n + 1
    &&& gs[0] == before
    &&& gs[3 * n] == after
}

/// Key generation draws everything from the generator: the coefficients of `a`,
/// then those of `s`, then the noise, one call each and in this order, and
/// leaves the generator behind the last call. The rest is determined by it.
pub proof fn law_keys_are_drawn(
    rng: &mut SmallRng,
    params: RegevParams,
    r: (PublicKey, SecretKey),
    j: nat,
)
    requires
        j <= 26,
        params.n == pow2(j),
        call_ensures(regev::keygen, (rng, &params), r),
    ensures
        r.0.a@.len() == params.n,
        r.0.b@.len() == params.n,
        r.1.s@.len() == params.n,
        exists|gs: Seq<SmallRng>, eu: Seq<u8>, ev: Seq<u8>|
            #![trigger run_of(gs, *old(rng), *final(rng), params.n as int), eu.len(), ev.len()]
            {
                &&& run_of(gs, *old(rng), *final(rng), params.n as int)
                &&& forall|i: int|
                    0 <= i < params.n ==> (#[trigger] r.0.a@[i])@ < field::q()
                        && exists|g: &mut SmallRng|
                        *g == gs[i] && *final(g) == gs[i + 1] && #[trigger] regev::element_call(
                            g,
                            r.0.a@[i]@ as u32,
                        )
                &&& forall|i: int|
                    0 <= i < params.n ==> -1 <= #[trigger] r.1.s@[i] <= 1
                        && exists|g: &mut SmallRng|
                        *g == gs[params.n + i] && *final(g) == gs[params.n + i + 1]
                            && #[trigger] regev::trit_call(g, r.1.s@[i])
                &&& forall|i: int|
                    0 <= i < params.n ==> (#[trigger] eu[i]) <= 2 && ev[i] <= 2
                        && exists|g: &mut SmallRng|
                        *g == gs[2 * params.n + i] && *final(g) == gs[2 * params.n + i + 1]
                            && #[trigger] regev::halves_call(g, eu[i], ev[i])
                &&& forall|k: int|
                    0 <= k < params.n ==> #[trigger] r.0.b@[k]@ == (poly::conv(
                        field::vals(r.0.a@),
                        regev::signed(r.1.s@),
                        k,
                    ) - poly::conv(
                        field::vals(r.0.a@),
                        regev::signed(r.1.s@),
                        params.n + k,
                    ) + (eu[k] - ev[k])) % field::q()
            },
        call_requires(regev::keygen, (rng, &params)),
{
    lemma_ring_size(params.n as int);
    assert(r.0@.a.len() == params.n && r.0@.b.len() == params.n && r.1@.len() == params.n);
    let (gs, eu, ev) = choose|gs: Seq<SmallRng>, eu: Seq<u8>, ev: Seq<u8>|
        #![trigger gs.len(), eu.len(), ev.len()]
        {
            &&& gs.len() == 3 * params.n + 1
            &&& eu.len() == params.n
            &&& ev.len() == params.n
            &&& gs[0] == *rng
            &&& gs[3 * params.n as int] == *final(rng)
            &&& forall|i: int|
                0 <= i < params.n ==> (#[trigger] r.0.a@[i])@ < field::q()
                    && exists|g: &mut SmallRng|
                    *g == gs[i] && *final(g) == gs[i + 1] && #[trigger] regev::element_call(
                        g,
                        r.0.a@[i]@ as u32,
                    )
            &&& forall|i: int|
                0 <= i < params.n ==> -1 <= #[trigger] r.1.s@[i] <= 1
                    && exists|g: &mut SmallRng|
                    *g == gs[params.n + i] && *final(g) == gs[params.n + i + 1]
                        && #[trigger] regev::trit_call(g, r.1.s@[i])
            &&& forall|i: int|
                0 <= i < params.n ==> (#[trigger] eu[i]) <= 2 && ev[i] <= 2
                    && exists|g: &mut SmallRng|
                    *g == gs[2 * params.n + i] && *final(g) == gs[2 * params.n + i + 1]
                        && #[trigger] regev::halves_call(g, eu[i], ev[i])
            &&& forall|k: int|
                0 <= k < params.n ==> #[trigger] r.0.b@[k]@ == (poly::nega(r.0@.a, r.1@, k) + (
                eu[k] - ev[k])) % field::q()
        };
    assert(run_of(gs, *rng, *final(rng), params.n as int));
    assert forall|k: int| 0 <= k < params.n implies #[trigger] r.0.b@[k]@ == (poly::conv(
        field::vals(r.0.a@),
        regev::signed(r.1.s@),
        k,
    ) - poly::conv(field::vals(r.0.a@), regev::signed(r.1.s@), params.n + k) + (eu[k] - ev[k]))
        % field::q() by {
        poly::lemma_nega_split(r.0@.a, r.1@, k);
    }
}

/// Encryption draws its randomness from the generator: `r`, then the noise of
/// `c1`, then that of `c2`, one call for each coefficient and in this order,
/// and leaves the generator behind the last call.
pub proof fn law_encryption_is_drawn(
    rng: &mut SmallRng,
    params: RegevParams,
    pk: PublicKey,
    m: &[u8],
    out: (Ciphertext, EncryptionWitness),
)
    requires
        call_ensures(regev::encrypt, (rng, &params, &pk, m), out),
    ensures
        out.1.r@.len() == params.n,
        out.1.e1u@.len() == params.n,
        out.1.e1v@.len() == params.n,
        out.1.e2u@.len() == params.n,
        out.1.e2v@.len() == params.n,
        out.1.m@ == m@,
        exists|gs: Seq<SmallRng>|
            #![trigger run_of(gs, *old(rng), *final(rng), params.n as int)]
            {
                &&& run_of(gs, *old(rng), *final(rng), params.n as int)
                &&& forall|i: int|
                    0 <= i < params.n ==> -1 <= #[trigger] out.1.r@[i] <= 1
                        && exists|g: &mut SmallRng|
                        *g == gs[i] && *final(g) == gs[i + 1] && #[trigger] regev::trit_call(
                            g,
                            out.1.r@[i],
                        )
                &&& forall|i: int|
                    0 <= i < params.n ==> (#[trigger] out.1.e1u@[i]) <= 2 && out.1.e1v@[i] <= 2
                        && exists|g: &mut SmallRng|
                        *g == gs[params.n + i] && *final(g) == gs[params.n + i + 1]
                            && #[trigger] regev::halves_call(g, out.1.e1u@[i], out.1.e1v@[i])
                &&& forall|i: int|
                    0 <= i < params.n ==> (#[trigger] out.1.e2u@[i]) <= 2 && out.1.e2v@[i] <= 2
                        && exists|g: &mut SmallRng|
                        *g == gs[2 * params.n + i] && *final(g) == gs[2 * params.n + i + 1]
                            && #[trigger] regev::halves_call(g, out.1.e2u@[i], out.1.e2v@[i])
            },
{
    assert(out.1@.r.len() == params.n && out.1@.e1u.len() == params.n && out.1@.e1v.len()
        == params.n && out.1@.e2u.len() == params.n && out.1@.e2v.len() == params.n);
    let gs = choose|gs: Seq<SmallRng>|
        #![trigger gs.len()]
        {
            &&& gs.len() == 3 * params.n + 1
            &&& gs[0] == *rng
            &&& gs[3 * params.n as int] == *final(rng)
            &&& forall|i: int|
                0 <= i < params.n ==> -1 <= #[trigger] out.1.r@[i] <= 1
                    && exists|g: &mut SmallRng|
                    *g == gs[i] && *final(g) == gs[i + 1] && #[trigger] regev::trit_call(
                        g,
                        out.1.r@[i],
                    )
            &&& forall|i: int|
                0 <= i < params.n ==> (#[trigger] out.1.e1u@[i]) <= 2 && out.1.e1v@[i] <= 2
                    && exists|g: &mut SmallRng|
                    *g == gs[params.n + i] && *final(g) == gs[params.n + i + 1]
                        && #[trigger] regev::halves_call(g, out.1.e1u@[i], out.1.e1v@[i])
            &&& forall|i: int|
                0 <= i < params.n ==> (#[trigger] out.1.e2u@[i]) <= 2 && out.1.e2v@[i] <= 2
                    && exists|g: &mut SmallRng|
                    *g == gs[2 * params.n + i] && *final(g) == gs[2 * params.n + i + 1]
                        && #[trigger] regev::halves_call(g, out.1.e2u@[i], out.1.e2v@[i])
        };
    assert(run_of(gs, *rng, *final(rng), params.n as int));
}

/// Any binary message of the ring's length can be encrypted under a key of that
/// length, with digits of less than 32 bits.
pub proof fn law_encryption_is_allowed(
    rng: &mut SmallRng,
    params: RegevParams,
    pk: PublicKey,
    m: &[u8],
    j: nat,
)
    requires
        j <= 26,
        params.n == pow2(j),
        params.plain_bits < 32,
        pk.a@.len() == params.n,
        pk.b@.len() == params.n,
        m@.len() == params.n,
        forall|i: int| 0 <= i < m@.len() ==> #[trigger] m@[i] <= 1,
    ensures
        call_requires(regev::encrypt, (rng, &params, &pk, m)),
{
    lemma_ring_size(params.n as int);
}

/// Encryption at random is encryption with the randomness that the witness
/// holds.
pub proof fn law_encryption_matches_witness(
    rng: &mut SmallRng,
    params: RegevParams,
    pk: PublicKey,
    m: &[u8],
    out: (Ciphertext, EncryptionWitness),
    again: (Ciphertext, EncryptionWitness),
)
    requires
        params.n > 0,
        pk.a@.len() == params.n,
        pk.b@.len() == params.n,
        call_ensures(regev::encrypt, (rng, &params, &pk, m), out),
        call_ensures(
            regev::encrypt_with,
            (
                &params,
                &pk,
                m,
                out.1.r,
                out.1.e1u,
                out.1.e1v,
                out.1.e2u,
                out.1.e2v,
            ),
            again,
        ),
    ensures
        out.0@ == again.0@,
        out.1@.k1 == again.1@.k1,
        out.1@.k2 == again.1@.k2,
{
    assert(out.1@.e1() == again.1@.e1());
    assert(out.1@.e2() == again.1@.e2());
}

/// Decryption rounds: coefficient `k` of `c2 - c1*s`, as a residue `v` of `q`,
/// gives the digit `x` for which `x / t` is nearest to `v / q`, where what
/// rounds up to `t` is 0 again.
pub proof fn law_decryption_rounds(
    params: RegevParams,
    sk: SecretKey,
    ct: Ciphertext,
    r: Vec<u8>,
    k: int,
    v: int,
)
    requires
        params.valid(),
        sk.s@.len() == params.n,
        ct.c1@.len() == params.n,
        call_ensures(regev::decrypt, (&params, &sk, &ct), r),
        0 <= k < r@.len(),
        v == (ct.c2@[k]@ - poly::conv(field::vals(ct.c1@), regev::signed(sk.s@), k) + poly::conv(
            field::vals(ct.c1@),
            regev::signed(sk.s@),
            params.n + k,
        )) % field::q(),
    ensures
        r@.len() == if ct.c2@.len() < params.n {
            ct.c2@.len() as int
        } else {
            params.n as int
        },
        r@[k] < params.modulus(),
        2 * sums::abs(v * params.modulus() - r@[k] * field::q()) <= field::q() || (r@[k] == 0 && 2
            * sums::abs(v * params.modulus() - params.modulus() * field::q()) <= field::q()),
{
    let t = params.modulus();
    let q = field::q();
    lemma_ring_size(params.n as int);
    let j = choose|j: nat| j <= 26 && params.n == #[trigger] pow2(j);
    lemma_pow2_pos(j);
    lemma_pow2_pos(params.plain_bits as nat);
    assert(regev::bytes(r@)[k] == r@[k]);
    let d = regev::decryption(params, sk@, ct@);
    assert(regev::bytes(r@).len() == r@.len());
    poly::lemma_nega_split(ct@.c1, sk@, k);
    let y = ct@.c2[k] - poly::nega(ct@.c1, sk@, k);
    assert(y == regev::phase(sk@, ct@, k));
    assert(0 <= v < q);
    let x = v * t + q / 2;
    let u = x / q;
    vstd::arithmetic::div_mod::lemma_fundamental_div_mod(x, q);
    assert(0 <= v * t <= (q - 1) * t) by (nonlinear_arith)
        requires
            0 <= v <= q - 1,
            t >= 1,
    ;
    assert((q - 1) * t == q * t - t) by (nonlinear_arith);
    assert(0 <= u <= t) by (nonlinear_arith)
        requires
            x == q * u + x % q,
            0 <= x % q < q,
            0 <= x,
            x < q * t + q,
            q > 0,
    ;
    if u < t {
        vstd::arithmetic::div_mod::lemma_small_mod(u as nat, t as nat);
        assert(r@[k] == u);
        assert(u * q == q * u) by (nonlinear_arith);
    } else {
        assert(u == t);
        vstd::arithmetic::div_mod::lemma_mod_self_0(t);
        assert(r@[k] == 0);
        assert(t * q == q * u) by (nonlinear_arith)
            requires
                u == t,
        ;
    }
}

/// Decryption takes a secret key and a first half of the ring's length, under
/// parameters that the scheme works with.
pub proof fn law_decryption_is_allowed(
    params: RegevParams,
    sk: SecretKey,
    ct: Ciphertext,
    j: nat,
)
    requires
        j <= 26,
        params.n == pow2(j),
        params.eta == 2,
        1 <= params.plain_bits <= 8,
        sk.s@.len() == params.n,
        ct.c1@.len() == params.n,
    ensures
        call_requires(regev::decrypt, (&params, &sk, &ct)),
{
    lemma_ring_size(params.n as int);
}

/// No digits are worth 0, and one more digit `x` behind `k` others is worth
/// `x * 2^k`. Digits from the 120th on have to be zero.
pub proof fn law_decoding(d: &[u8], longer: &[u8], x: u8, u: u128, v: u128)
    requires
        longer@ == d@.push(x),
        d@.len() < 120 || x == 0,
        call_ensures(regev::decode_value, (d,), u),
        call_ensures(regev::decode_value, (longer,), v),
    ensures
        d@.len() == 0 ==> u == 0,
        v == u + x * pow2(d@.len()),
{
    let p = regev::bytes(d@);
    let r = regev::bytes(longer@);
    assert forall|i: int| 0 <= i < p.len() implies p[i] * pow2(i as nat) == #[trigger] r[i] * pow2(
        i as nat,
    ) by {
        assert(r[i] == p[i]);
    }
    let f = |i: int| p[i] * pow2(i as nat);
    let g = |i: int| r[i] * pow2(i as nat);
    sums::lemma_sum_eq(0, p.len() as int, f, g);
    assert(r[p.len() as int] == x);
    assert(g(p.len() as int) == x * pow2(d@.len()));
}

/// Digits can be decoded if those from the 120th on are zero, and decrypting to
/// a value is decrypting and decoding the digits.
pub proof fn law_decrypt_value(
    params: RegevParams,
    sk: SecretKey,
    ct: Ciphertext,
    d: Vec<u8>,
    digits: &[u8],
    u: u128,
    v: u128,
)
    requires
        params.valid(),
        sk.s@.len() == params.n,
        ct.c1@.len() == params.n,
        call_ensures(regev::decrypt, (&params, &sk, &ct), d),
        digits@ == d@,
        forall|i: int| 120 <= i < d@.len() ==> #[trigger] d@[i] == 0,
    ensures
        call_requires(regev::decode_value, (digits,)),
        call_requires(regev::decrypt_value, (&params, &sk, &ct)),
        call_ensures(regev::decode_value, (digits,), u) && call_ensures(
            regev::decrypt_value,
            (&params, &sk, &ct),
            v,
        ) ==> u == v,
{
    let r = regev::decryption(params, sk@, ct@);
    assert(r == regev::bytes(d@));
    assert forall|i: int| 120 <= i < r.len() implies #[trigger] r[i] == 0 by {
        assert(d@[i] == 0);
    }
}

/// The sum of two ciphertexts is the sum of their coefficients modulo `q`, as
/// far as both reach.
pub proof fn law_ciphertext_addition(x: Ciphertext, y: Ciphertext, z: Ciphertext, k: int)
    requires
        x.c1@.len() == y.c1@.len(),
        call_ensures(regev::add_ciphertexts, (&x, &y), z),
    ensures
        call_requires(regev::add_ciphertexts, (&x, &y)),
        z.c1@.len() == x.c1@.len(),
        z.c2@.len() == if x.c2@.len() < y.c2@.len() {
            x.c2@.len()
        } else {
            y.c2@.len()
        },
        0 <= k < z.c1@.len() ==> z.c1@[k]@ == (x.c1@[k]@ + y.c1@[k]@) % field::q(),
        0 <= k < z.c2@.len() ==> z.c2@[k]@ == (x.c2@[k]@ + y.c2@[k]@) % field::q(),
{
    assert(z@.c1.len() == z.c1@.len());
    assert(z@.c2.len() == z.c2@.len());
    if 0 <= k < z.c1@.len() {
        assert(z@.c1[k] == z.c1@[k]@);
    }
    if 0 <= k < z.c2@.len() {
        assert(z@.c2[k] == z.c2@[k]@);
    }
}

/// A value is encoded as a message of exactly the ring's length, with the bits
/// of the value from the lowest on; it can be encrypted under every key of that
/// length, and decoding gives the value back.
pub proof fn law_value_encoding(
    rng: &mut SmallRng,
    params: RegevParams,
    pk: PublicKey,
    value: u64,
    r: Vec<u8>,
    m: &[u8],
    v: u128,
    j: nat,
)
    requires
        j <= 26,
        params.n == pow2(j),
        params.n >= 64 || value < pow2(params.n as nat),
        call_ensures(regev::encode_value_message, (value, params.n), r),
        m@ == r@,
    ensures
        call_requires(regev::encode_value_message, (value, params.n)),
        r@.len() == params.n,
        forall|i: int|
            0 <= i < r@.len() ==> #[trigger] r@[i] == (value as int / pow2(i as nat) as int) % 2,
        params.plain_bits < 32 && pk.a@.len() == params.n && pk.b@.len() == params.n
            ==> call_requires(regev::encrypt, (rng, &params, &pk, m)),
        call_requires(regev::decode_value, (m,)),
        call_ensures(regev::decode_value, (m,), v) ==> v == value,
{
    lemma_ring_size(params.n as int);
    let b = regev::bytes(r@);
    assert(b.len() == r@.len());
    assert forall|i: int| 0 <= i < r@.len() implies #[trigger] r@[i] == (value as int / pow2(
        i as nat,
    ) as int) % 2 by {
        assert(b[i] == r@[i]);
    }
    assert forall|i: int| 120 <= i < m@.len() implies #[trigger] m@[i] == 0 by {
        assert(r@[i] == (value as int / pow2(i as nat) as int) % 2);
        dft::lemma_pow2_monotone(64, i as nat);
        lemma2_to64_rest();
        vstd::arithmetic::div_mod::lemma_basic_div(value as int, pow2(i as nat) as int);
    }
}

/// The length of an encoded message is the one that was asked for, whatever it
/// is, and so are its bits.
pub proof fn law_encoded_length(value: u64, n: usize, r: Vec<u8>)
    requires
        call_ensures(regev::encode_value_message, (value, n), r),
    ensures
        r@.len() == n,
        forall|i: int| 0 <= i < n ==> #[trigger] r@[i] == (value as int / pow2(i as nat) as int)
            % 2,
        n >= 64 || value < pow2(n as nat) ==> call_requires(
            regev::encode_value_message,
            (value, n),
        ),
{
    let b = regev::bytes(r@);
    assert(b.len() == r@.len());
    assert forall|i: int| 0 <= i < n implies #[trigger] r@[i] == (value as int / pow2(
        i as nat,
    ) as int) % 2 by {
        assert(b[i] == r@[i]);
    }
}

/// From end to end: the holder of a generated key decrypts what was encrypted
/// under it, whatever the generators gave.
pub proof fn law_decrypt_after_encrypt(
    rng: &mut SmallRng,
    other: &mut SmallRng,
    params: RegevParams,
    keys: (PublicKey, SecretKey),
    m: &[u8],
    out: (Ciphertext, EncryptionWitness),
    d: Vec<u8>,
)
    requires
        params.valid(),
        2 * (4 * params.n + 2) < params.scale(),
        call_ensures(regev::keygen, (rng, &params), keys),
        call_ensures(regev::encrypt, (other, &params, &keys.0, m), out),
        call_ensures(regev::decrypt, (&params, &keys.1, &out.0), d),
    ensures
        d@ == m@,
{
    correctness::law_decrypt_undoes_encrypt(params, keys.0@, keys.1@, out.1@);
    assert(regev::bytes(d@) == regev::bytes(m@));
    assert(d@.len() == regev::bytes(d@).len());
    assert forall|i: int| 0 <= i < d@.len() implies d@[i] == m@[i] by {
        assert(regev::bytes(d@)[i] == d@[i]);
    }
}

/// From end to end: the sum of two encrypted values decrypts to the sum of the
/// values.
pub proof fn law_sum_of_encrypted_values(
    rngs: (&mut SmallRng, &mut SmallRng, &mut SmallRng),
    params: RegevParams,
    keys: (PublicKey, SecretKey),
    a: u64,
    b: u64,
    ma: Vec<u8>,
    mb: Vec<u8>,
    sa: &[u8],
    sb: &[u8],
    ca: (Ciphertext, EncryptionWitness),
    cb: (Ciphertext, EncryptionWitness),
    sum: Ciphertext,
    v: u128,
)
    requires
        params.valid(),
        params.plain_bits >= 2,
        4 * (4 * params.n + 2) < params.scale(),
        params.n >= 64 || (a < pow2(params.n as nat) && b < pow2(params.n as nat)),
        call_ensures(regev::keygen, (rngs.0, &params), keys),
        call_ensures(regev::encode_value_message, (a, params.n), ma),
        call_ensures(regev::encode_value_message, (b, params.n), mb),
        sa@ == ma@,
        sb@ == mb@,
        call_ensures(regev::encrypt, (rngs.1, &params, &keys.0, sa), ca),
        call_ensures(regev::encrypt, (rngs.2, &params, &keys.0, sb), cb),
        call_ensures(regev::add_ciphertexts, (&ca.0, &cb.0), sum),
        call_ensures(regev::decrypt_value, (&params, &keys.1, &sum), v),
    ensures
        v == a + b,
{
    correctness::law_value_homomorphism(params, keys.0@, keys.1@, ca.1@, cb.1@, a, b);
}

} // verus!
