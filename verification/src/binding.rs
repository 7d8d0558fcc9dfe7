//! What acceptance means: a statement that is accepted against one committed
//! table at enough different challenges is true.
//!
//! The prover commits to the main table before the challenge `z` is drawn. A
//! false statement differs from the table, or violates a ring identity, in a
//! polynomial of degree below `2n`, which has fewer than `2n` roots among the
//! `q^4` challenges.

use crate::air;
use crate::correctness;
use crate::ext;
use crate::ext::{Challenge, Ext};
use crate::field;
use crate::field::F;
use crate::gadget;
use crate::gadget::{Lookup, LookupData};
use crate::params::RegevParams;
use crate::poly;
use crate::prove;
use crate::prove::RegevProof;
use crate::range;
use crate::range::RangeSpec;
use crate::regev;
use crate::regev::{Ciphertext, CiphertextModel, KeyModel, WitnessModel};
use crate::roots;
use crate::soundness;
use crate::sums;
use crate::symbolic::{BaseTables, Tables};
use crate::transfer;
use crate::transfer::{Transfer, TransferWitness};
use crate::transfer_soundness;
use vstd::prelude::*;

verus! {

// ---------------------------------------------------------------------------
// From vanishing polynomials to a ciphertext.
// ---------------------------------------------------------------------------
/// All coefficients are zero modulo `q`.
pub open spec fn vanishes(c: Seq<int>) -> bool {
    forall|i: int| 0 <= i < c.len() ==> sums::cong(#[trigger] c[i], 0)
}

proof fn lemma_sum_of_cong(a: int, b: int, c: int, d: int, e: int, f: int)
    requires
        sums::cong(a + e + f - b - d, 0),
        sums::cong(c - d, 0),
    ensures
        sums::cong(b, a - c + e + f),
{
    let x = sums::lemma_cong_witness(a + e + f - b - d, 0);
    let y = sums::lemma_cong_witness(c - d, 0);
    sums::lemma_cong_from_witness(b, a - c + e + f, y - x);
}

/// A vanishing defect is the ring identity modulo `X^n + 1`.
proof fn lemma_ring_identity(
    p: Seq<int>,
    r: Seq<int>,
    e: Seq<int>,
    mask: Seq<int>,
    c: Seq<int>,
    k: Seq<int>,
    i: int,
)
    requires
        r.len() == p.len(),
        e.len() == p.len(),
        mask.len() == p.len(),
        c.len() == p.len(),
        k.len() == p.len(),
        vanishes(soundness::defect(p, r, e, mask, c, k)),
        0 <= i < p.len(),
    ensures
        sums::cong(c[i], poly::nega(p, r, i) + e[i] + mask[i]),
{
    let n = p.len() as int;
    let d = soundness::defect(p, r, e, mask, c, k);
    poly::lemma_nega_split(p, r, i);
    assert(sums::cong(d[i], 0));
    assert(sums::cong(d[n + i], 0));
    assert(correctness::times_cyclotomic(k, n, i) == k[i]);
    assert(correctness::times_cyclotomic(k, n, n + i) == k[i]);
    assert(d[i] == poly::conv(p, r, i) + e[i] + mask[i] - c[i] - k[i]);
    assert(d[n + i] == poly::conv(p, r, n + i) - k[i]);
    lemma_sum_of_cong(poly::conv(p, r, i), c[i], poly::conv(p, r, n + i), k[i], e[i], mask[i]);
}

/// Where one ciphertext's polynomials stand in a main table.
pub ghost struct Layout {
    pub a: int,
    pub b: int,
    pub c1: int,
    pub c2: int,
    pub r: int,
    pub e1u: int,
    pub e1v: int,
    pub e2u: int,
    pub e2v: int,
    pub m: int,
    pub k1: int,
    pub k2: int,
}

impl Layout {
    /// The defect of `c1 = a*r + e1`.
    pub open spec fn first_defect(self, t: BaseTables) -> Seq<int> {
        soundness::defect(
            t.column(self.a),
            t.column(self.r),
            soundness::trace_noise(t, self.e1u, self.e1v),
            Seq::new(t.height as nat, |i: int| 0int),
            t.column(self.c1),
            t.column(self.k1),
        )
    }

    /// The defect of `c2 = b*r + e2 + D*m`.
    pub open spec fn second_defect(self, t: BaseTables, delta: int) -> Seq<int> {
        soundness::defect(
            t.column(self.b),
            t.column(self.r),
            soundness::trace_noise(t, self.e2u, self.e2v),
            soundness::scaled(t.column(self.m), delta),
            t.column(self.c2),
            t.column(self.k2),
        )
    }

    /// The encryption witness that the columns hold.
    pub open spec fn witness(self, t: BaseTables, pk: KeyModel) -> WitnessModel {
        let r = Seq::new(t.height as nat, |i: int| regev::centered((t.main)(i, self.r)));
        WitnessModel {
            r,
            e1u: transfer::bit_values(t, self.e1u),
            e1v: transfer::bit_values(t, self.e1v),
            e2u: transfer::bit_values(t, self.e2u),
            e2v: transfer::bit_values(t, self.e2v),
            m: transfer::bit_values(t, self.m),
            k1: regev::quotient(pk.a, r),
            k2: regev::quotient(pk.b, r),
        }
    }

    /// The statement columns hold the claimed key and ciphertext.
    pub open spec fn holds(self, t: BaseTables, pk: KeyModel, ct: CiphertextModel) -> bool {
        &&& poly::cong_seq(t.column(self.a), pk.a)
        &&& poly::cong_seq(t.column(self.b), pk.b)
        &&& poly::cong_seq(t.column(self.c1), ct.c1)
        &&& poly::cong_seq(t.column(self.c2), ct.c2)
    }

    /// The witness columns are small.
    pub open spec fn small(self, t: BaseTables) -> bool {
        air::small_columns(t, self.r, self.e1u, self.e1v, self.e2u, self.e2v, self.m)
    }
}

proof fn lemma_centered_trit(x: int)
    requires
        air::is_trit(x),
    ensures
        -1 <= regev::centered(x) <= 1,
        sums::cong(x, regev::centered(x)),
{
    sums::lemma_cong_eq(x, -1);
    sums::lemma_cong_eq(x, 0);
    sums::lemma_cong_eq(x, 1);
    let y = x % field::q();
    assert(y == 2013265920 || y == 0 || y == 1);
    if y == 2013265920 {
        assert(regev::centered(x) == -1);
    } else {
        assert(regev::centered(x) == y);
    }
}

proof fn lemma_reduced_half(x: int)
    requires
        air::is_half(x),
    ensures
        0 <= x % field::q() <= 2,
        sums::cong(x, x % field::q()),
{
    sums::lemma_cong_eq(x, 0);
    sums::lemma_cong_eq(x, 1);
    sums::lemma_cong_eq(x, 2);
    sums::lemma_cong_mod(x);
}

proof fn lemma_reduced_bit(x: int)
    requires
        air::is_bit(x),
    ensures
        0 <= x % field::q() <= 1,
        sums::cong(x, x % field::q()),
{
    sums::lemma_cong_eq(x, 0);
    sums::lemma_cong_eq(x, 1);
    sums::lemma_cong_mod(x);
}

proof fn lemma_witness_small(l: Layout, t: BaseTables, pk: KeyModel)
    requires
        t.height >= 0,
        l.small(t),
    ensures
        l.witness(t, pk).small(),
        poly::cong_seq(t.column(l.r), l.witness(t, pk).r),
        poly::cong_seq(t.column(l.m), l.witness(t, pk).m),
{
    let w = l.witness(t, pk);
    assert forall|i: int| 0 <= i < t.height implies -1 <= #[trigger] w.r[i] <= 1 && sums::cong(
        t.column(l.r)[i],
        w.r[i],
    ) by {
        lemma_centered_trit((t.main)(i, l.r));
    }
    assert forall|i: int| 0 <= i < t.height implies 0 <= #[trigger] w.e1u[i] <= 2 by {
        lemma_reduced_half((t.main)(i, l.e1u));
    }
    assert forall|i: int| 0 <= i < t.height implies 0 <= #[trigger] w.e1v[i] <= 2 by {
        lemma_reduced_half((t.main)(i, l.e1v));
    }
    assert forall|i: int| 0 <= i < t.height implies 0 <= #[trigger] w.e2u[i] <= 2 by {
        lemma_reduced_half((t.main)(i, l.e2u));
    }
    assert forall|i: int| 0 <= i < t.height implies 0 <= #[trigger] w.e2v[i] <= 2 by {
        lemma_reduced_half((t.main)(i, l.e2v));
    }
    assert forall|i: int| 0 <= i < t.height implies 0 <= #[trigger] w.m[i] <= 1 && sums::cong(
        t.column(l.m)[i],
        w.m[i],
    ) by {
        lemma_reduced_bit((t.main)(i, l.m));
    }
    assert forall|i: int| 0 <= i < t.height implies sums::cong(
        #[trigger] t.column(l.r)[i],
        w.r[i],
    ) by {
        assert(-1 <= w.r[i] <= 1);
    }
    assert forall|i: int| 0 <= i < t.height implies sums::cong(
        #[trigger] t.column(l.m)[i],
        w.m[i],
    ) by {
        assert(0 <= w.m[i] <= 1);
    }
}

proof fn lemma_noise(u: int, v: int)
    ensures
        sums::cong(u - v, u % field::q() - v % field::q()),
{
    sums::lemma_mod_sub2(u, v);
    sums::lemma_cong_eq(u - v, u % field::q() - v % field::q());
}

/// From `c = x`, `x = n + e + m` with congruent `n`, `e`, `m`: `c` is the
/// residue of the other sum.
proof fn lemma_entry(c: int, x: int, n: int, e: int, m: int, n2: int, e2: int, m2: int)
    requires
        sums::cong(x, c),
        sums::cong(x, n + e + m),
        sums::cong(n, n2),
        sums::cong(e, e2),
        sums::cong(m, m2),
        0 <= c < field::q(),
    ensures
        c == (n2 + e2 + m2) % field::q(),
{
    lemma_cong_sum3(n, e, m, n2, e2, m2);
    sums::lemma_cong_trans(c, x, n + e + m);
    sums::lemma_cong_trans(c, n + e + m, n2 + e2 + m2);
    sums::lemma_cong_eq(c, n2 + e2 + m2);
}

proof fn lemma_cong_sum3(n: int, e: int, m: int, n2: int, e2: int, m2: int)
    requires
        sums::cong(n, n2),
        sums::cong(e, e2),
        sums::cong(m, m2),
    ensures
        sums::cong(n + e + m, n2 + e2 + m2),
{
    let a = sums::lemma_cong_witness(n, n2);
    let b = sums::lemma_cong_witness(e, e2);
    let c = sums::lemma_cong_witness(m, m2);
    sums::lemma_cong_from_witness(n + e + m, n2 + e2 + m2, a + b + c);
}

/// A table with small witness columns, vanishing defects and the claimed key
/// and ciphertext in its statement columns holds an encryption: the claimed
/// ciphertext is the encryption under the claimed key that the witness columns
/// determine.
pub proof fn lemma_extracted(
    params: RegevParams,
    l: Layout,
    t: BaseTables,
    pk: KeyModel,
    ct: CiphertextModel,
    delta: int,
)
    requires
        t.height > 0,
        pk.sized(t.height),
        ct.sized(t.height),
        field::canonical(ct.c1),
        field::canonical(ct.c2),
        l.holds(t, pk, ct),
        l.small(t),
        vanishes(l.first_defect(t)),
        vanishes(l.second_defect(t, delta)),
        sums::cong(delta, params.scale()),
    ensures
        l.witness(t, pk).sized(t.height),
        l.witness(t, pk).small(),
        ct == regev::encryption(params, pk, l.witness(t, pk)),
{
    let n = t.height;
    let w = l.witness(t, pk);
    let want = regev::encryption(params, pk, w);
    lemma_witness_small(l, t, pk);
    let zero = Seq::new(n as nat, |i: int| 0int);
    let mask = soundness::scaled(t.column(l.m), delta);
    assert forall|i: int| 0 <= i < n implies ct.c1[i] == #[trigger] want.c1[i] by {
        let e = soundness::trace_noise(t, l.e1u, l.e1v);
        lemma_ring_identity(
            t.column(l.a),
            t.column(l.r),
            e,
            zero,
            t.column(l.c1),
            t.column(l.k1),
            i,
        );
        poly::lemma_nega_cong(t.column(l.a), pk.a, t.column(l.r), w.r, i);
        lemma_noise((t.main)(i, l.e1u), (t.main)(i, l.e1v));
        assert(sums::cong(t.column(l.c1)[i], ct.c1[i]));
        assert(0 <= ct.c1[i] < field::q());
        lemma_entry(
            ct.c1[i],
            t.column(l.c1)[i],
            poly::nega(t.column(l.a), t.column(l.r), i),
            e[i],
            0,
            poly::nega(pk.a, w.r, i),
            w.e1()[i],
            0,
        );
    }
    assert(ct.c1 =~= want.c1);
    assert forall|i: int| 0 <= i < n implies ct.c2[i] == #[trigger] want.c2[i] by {
        let e = soundness::trace_noise(t, l.e2u, l.e2v);
        lemma_ring_identity(
            t.column(l.b),
            t.column(l.r),
            e,
            mask,
            t.column(l.c2),
            t.column(l.k2),
            i,
        );
        poly::lemma_nega_cong(t.column(l.b), pk.b, t.column(l.r), w.r, i);
        lemma_noise((t.main)(i, l.e2u), (t.main)(i, l.e2v));
        assert(sums::cong(t.column(l.c2)[i], ct.c2[i]));
        assert(0 <= ct.c2[i] < field::q());
        assert(sums::cong(t.column(l.m)[i], w.m[i]));
        sums::lemma_cong_mul(delta, params.scale(), t.column(l.m)[i], w.m[i]);
        lemma_entry(
            ct.c2[i],
            t.column(l.c2)[i],
            poly::nega(t.column(l.b), t.column(l.r), i),
            e[i],
            mask[i],
            poly::nega(pk.b, w.r, i),
            w.e2()[i],
            params.scale() * w.m[i],
        );
    }
    assert(ct.c2 =~= want.c2);
}

// ---------------------------------------------------------------------------
// Acceptance.
// ---------------------------------------------------------------------------
/// One run of the protocol after the main table was committed: the place of the
/// statement in its batch, the challenge, the tables that the constraints were
/// checked on, and the published values.
pub ghost struct Round {
    pub instance: usize,
    pub z: Ext,
    pub tables: Tables,
    pub data: Seq<LookupData>,
}

/// The challenges of the rounds.
pub open spec fn challenges(rounds: Seq<Round>) -> Seq<Ext> {
    rounds.map_values(|r: Round| r.z)
}

/// The published values that the constraints read are those in the proof.
pub open spec fn published_by(t: Tables, data: Seq<LookupData>) -> bool {
    forall|j: int| 0 <= j < data.len() ==> #[trigger] t.published[j] == data[j].expected_cumulated@
}

/// Two polynomials with the same value at enough points are the same.
proof fn lemma_agree(x: Seq<int>, y: Seq<int>, zs: Seq<Ext>)
    requires
        x.len() == y.len(),
        roots::distinct(zs),
        zs.len() >= x.len(),
        forall|k: int|
            0 <= k < zs.len() ==> poly::eval(x, #[trigger] zs[k]).cong(poly::eval(y, zs[k])),
    ensures
        poly::cong_seq(x, y),
{
    let d = Seq::new(x.len(), |i: int| x[i] + (-1) * y[i]);
    assert forall|k: int| 0 <= k < zs.len() implies poly::eval(d, #[trigger] zs[k]).cong(
        Ext::of(0),
    ) by {
        let z = zs[k];
        poly::lemma_eval_add(x, y, d, -1, z);
        assert(poly::eval(x, z).cong(poly::eval(y, z)));
        lemma_opposite(poly::eval(x, z), poly::eval(y, z));
    }
    roots::law_few_roots(d, zs);
    assert forall|i: int| 0 <= i < x.len() implies sums::cong(#[trigger] x[i], y[i]) by {
        assert(sums::cong(d[i], 0));
    }
}

proof fn lemma_opposite(x: Ext, y: Ext)
    requires
        x.cong(y),
    ensures
        x.plus(y.scaled(-1)).cong(Ext::of(0)),
{
}

/// A published value that matches the claim and is the value of the column.
proof fn lemma_matched(published: Ext, column: Ext, claim: Ext)
    requires
        published.cong(column),
        published == claim.reduced(),
    ensures
        column.cong(claim),
{
    ext::lemma_cong_reduced(published, column);
    ext::lemma_reduced_cong(claim);
    ext::lemma_cong_reduced(published, claim);
    ext::lemma_cong_reduced(column, claim);
}

/// The columns of an encryption trace.
pub open spec fn encryption_layout() -> Layout {
    Layout {
        a: air::COL_A as int,
        b: air::COL_B as int,
        c1: air::COL_C1 as int,
        c2: air::COL_C2 as int,
        r: air::COL_R as int,
        e1u: air::COL_E1U as int,
        e1v: air::COL_E1V as int,
        e2u: air::COL_E2U as int,
        e2v: air::COL_E2V as int,
        m: air::COL_M as int,
        k1: air::COL_K1 as int,
        k2: air::COL_K2 as int,
    }
}

/// An encryption statement was accepted in a round: the constraints and the
/// evaluation arguments hold, and the published values are those of the
/// statement.
pub open spec fn encryption_accepted(
    params: RegevParams,
    pk: KeyModel,
    ct: CiphertextModel,
    delta: int,
    ls: Seq<Lookup>,
    round: Round,
) -> bool {
    let t = round.tables;
    &&& t.base.height == params.n
    &&& soundness::shared_challenge(t, 10, round.z)
    &&& air::enc_relation(params.n as int, delta, t)
    &&& gadget::arguments_relation(ls, t)
    &&& published_by(t, round.data)
    &&& prove::encryption_verdict(
        params.n as int,
        pk,
        ct,
        round.data,
        round.z,
        round.instance,
    ) is Ok
}

/// An encryption statement was accepted in every round, against one main table.
pub open spec fn encryption_accepted_always(
    params: RegevParams,
    pk: KeyModel,
    ct: CiphertextModel,
    delta: int,
    ls: Seq<Lookup>,
    base: BaseTables,
    rounds: Seq<Round>,
) -> bool {
    forall|k: int|
        0 <= k < rounds.len() ==> encryption_accepted(
            params,
            pk,
            ct,
            delta,
            ls,
            #[trigger] rounds[k],
        ) && rounds[k].tables.base == base
}

/// What one accepted round says: the statement polynomials and the committed
/// columns agree at the challenge, which is a root of both defects.
proof fn lemma_encryption_round(
    params: RegevParams,
    pk: KeyModel,
    ct: CiphertextModel,
    delta: int,
    ls: Seq<Lookup>,
    round: Round,
)
    requires
        params.n > 0,
        air::is_enc_lookups(ls),
        encryption_accepted(params, pk, ct, delta, ls, round),
    ensures
        ({
            let l = encryption_layout();
            let b = round.tables.base;
            let z = round.z;
            &&& ct.sized(params.n as int)
            &&& l.small(b)
            &&& poly::eval(b.column(l.a), z).cong(poly::eval(pk.a, z))
            &&& poly::eval(b.column(l.b), z).cong(poly::eval(pk.b, z))
            &&& poly::eval(b.column(l.c1), z).cong(poly::eval(ct.c1, z))
            &&& poly::eval(b.column(l.c2), z).cong(poly::eval(ct.c2, z))
            &&& poly::eval(l.first_defect(b), z).cong(Ext::of(0))
            &&& poly::eval(l.second_defect(b, delta), z).cong(Ext::of(0))
        }),
{
    let l = encryption_layout();
    let t = round.tables;
    let b = t.base;
    let z = round.z;
    soundness::law_satisfied_encryption_trace(ls, t, delta, z);
    assert(t.published[0] == round.data[0].expected_cumulated@);
    assert(t.published[1] == round.data[1].expected_cumulated@);
    assert(t.published[2] == round.data[2].expected_cumulated@);
    assert(t.published[3] == round.data[3].expected_cumulated@);
    lemma_matched(t.published[0], poly::eval(b.column(l.a), z), poly::eval(pk.a, z));
    lemma_matched(t.published[1], poly::eval(b.column(l.b), z), poly::eval(pk.b, z));
    lemma_matched(t.published[2], poly::eval(b.column(l.c1), z), poly::eval(ct.c1, z));
    lemma_matched(t.published[3], poly::eval(b.column(l.c2), z), poly::eval(ct.c2, z));
    assert(l.first_defect(b) == soundness::first_trace_defect(b));
    assert(l.second_defect(b, delta) == soundness::second_trace_defect(b, delta));
}

/// Soundness of encryption proofs: a statement that is accepted against one
/// committed main table at `2n` different challenges is true, and the table
/// holds the witness. The claimed ciphertext is the encryption under the
/// claimed key of the binary message in the table, with ternary randomness and
/// noise halves in `{0, 1, 2}`. Put differently, a false statement is accepted
/// at fewer than `2n` of the `q^4` challenges.
pub proof fn law_accepted_encryption_is_well_formed(
    params: RegevParams,
    pk: KeyModel,
    ct: CiphertextModel,
    delta: int,
    ls: Seq<Lookup>,
    base: BaseTables,
    rounds: Seq<Round>,
)
    requires
        params.n > 0,
        pk.sized(params.n as int),
        field::canonical(ct.c1),
        field::canonical(ct.c2),
        sums::cong(delta, params.scale()),
        air::is_enc_lookups(ls),
        rounds.len() >= 2 * params.n,
        roots::distinct(challenges(rounds)),
        encryption_accepted_always(params, pk, ct, delta, ls, base, rounds),
    ensures
        encryption_layout().witness(base, pk).sized(params.n as int),
        encryption_layout().witness(base, pk).small(),
        ct == regev::encryption(params, pk, encryption_layout().witness(base, pk)),
{
    let l = encryption_layout();
    let zs = challenges(rounds);
    let n = params.n as int;
    assert(rounds[0].tables.base == base);
    assert forall|k: int| 0 <= k < zs.len() implies {
        let z = #[trigger] zs[k];
        &&& ct.sized(n)
        &&& l.small(base)
        &&& poly::eval(base.column(l.a), z).cong(poly::eval(pk.a, z))
        &&& poly::eval(base.column(l.b), z).cong(poly::eval(pk.b, z))
        &&& poly::eval(base.column(l.c1), z).cong(poly::eval(ct.c1, z))
        &&& poly::eval(base.column(l.c2), z).cong(poly::eval(ct.c2, z))
        &&& poly::eval(l.first_defect(base), z).cong(Ext::of(0))
        &&& poly::eval(l.second_defect(base, delta), z).cong(Ext::of(0))
    } by {
        assert(zs[k] == rounds[k].z);
        lemma_encryption_round(params, pk, ct, delta, ls, rounds[k]);
    }
    assert(ct.sized(n)) by {
        assert(zs[0] == rounds[0].z);
    }
    lemma_agree(base.column(l.a), pk.a, zs);
    lemma_agree(base.column(l.b), pk.b, zs);
    lemma_agree(base.column(l.c1), ct.c1, zs);
    lemma_agree(base.column(l.c2), ct.c2, zs);
    roots::law_few_roots(l.first_defect(base), zs);
    roots::law_few_roots(l.second_defect(base, delta), zs);
    lemma_extracted(params, l, base, pk, ct, delta);
}

/// Soundness of range proofs: if the range constraints hold as well, the value
/// in the low message bits is below the bound.
pub proof fn law_accepted_range_is_enforced(
    params: RegevParams,
    pk: KeyModel,
    ct: CiphertextModel,
    delta: int,
    ls: Seq<Lookup>,
    base: BaseTables,
    rounds: Seq<Round>,
    spec: RangeSpec,
)
    requires
        0 < params.n < field::q(),
        pk.sized(params.n as int),
        field::canonical(ct.c1),
        field::canonical(ct.c2),
        sums::cong(delta, params.scale()),
        air::is_enc_lookups(ls),
        rounds.len() >= 2 * params.n,
        roots::distinct(challenges(rounds)),
        encryption_accepted_always(params, pk, ct, delta, ls, base, rounds),
        spec.valid(params.n as int),
        range::range_relation(spec, base),
    ensures
        ct == regev::encryption(params, pk, encryption_layout().witness(base, pk)),
        0 <= regev::low_value(
            encryption_layout().witness(base, pk).m,
            spec.value_bits as int,
        ) < spec.bound,
{
    law_accepted_encryption_is_well_formed(params, pk, ct, delta, ls, base, rounds);
    assert(rounds[0].tables.base == base);
    lemma_encryption_round(params, pk, ct, delta, ls, rounds[0]);
    range::law_range_constraints_bound_value(spec, base);
}

// ---------------------------------------------------------------------------
// Transfers.
// ---------------------------------------------------------------------------
/// The columns of ciphertext `j` in a transfer trace.
pub open spec fn transfer_layout(j: int) -> Layout {
    let c = transfer::ct_start(j);
    Layout {
        a: 0,
        b: 1,
        c1: c,
        c2: c + 1,
        r: c + 2,
        e1u: c + 3,
        e1v: c + 4,
        e2u: c + 5,
        e2v: c + 6,
        m: c + 7,
        k1: c + 8,
        k2: c + 9,
    }
}

/// A transfer statement was accepted in a round.
pub open spec fn transfer_accepted(
    params: RegevParams,
    pk: KeyModel,
    st: Transfer,
    delta: int,
    ls: Seq<Lookup>,
    round: Round,
) -> bool {
    let t = round.tables;
    &&& t.base.height == params.n
    &&& soundness::shared_challenge(t, 26, round.z)
    &&& transfer::transfer_relation(params.n as int, delta, t)
    &&& gadget::arguments_relation(ls, t)
    &&& published_by(t, round.data)
    &&& prove::transfer_verdict(params.n as int, pk, st, round.data, round.z, round.instance) is Ok
}

/// What one accepted round says of ciphertext `j`.
pub open spec fn role_agrees(
    pk: KeyModel,
    ct: CiphertextModel,
    delta: int,
    b: BaseTables,
    z: Ext,
    j: int,
) -> bool {
    let l = transfer_layout(j);
    &&& l.small(b)
    &&& poly::eval(b.column(l.a), z).cong(poly::eval(pk.a, z))
    &&& poly::eval(b.column(l.b), z).cong(poly::eval(pk.b, z))
    &&& poly::eval(b.column(l.c1), z).cong(poly::eval(ct.c1, z))
    &&& poly::eval(b.column(l.c2), z).cong(poly::eval(ct.c2, z))
    &&& poly::eval(l.first_defect(b), z).cong(Ext::of(0))
    &&& poly::eval(l.second_defect(b, delta), z).cong(Ext::of(0))
}

proof fn lemma_transfer_round(
    params: RegevParams,
    pk: KeyModel,
    st: Transfer,
    delta: int,
    ls: Seq<Lookup>,
    round: Round,
    j: int,
)
    requires
        params.n > 0,
        0 <= j < 3,
        transfer::is_transfer_lookups(ls),
        transfer_accepted(params, pk, st, delta, ls, round),
    ensures
        st.role(j).sized(params.n as int),
        role_agrees(pk, st.role(j), delta, round.tables.base, round.z, j),
{
    let l = transfer_layout(j);
    let t = round.tables;
    let b = t.base;
    let z = round.z;
    transfer_soundness::law_satisfied_transfer_trace(ls, t, delta, z);
    assert(transfer::ct_start(j) == l.c1);
    assert(t.published[0] == round.data[0].expected_cumulated@);
    assert(t.published[1] == round.data[1].expected_cumulated@);
    assert(t.published[2 + 2 * j] == round.data[2 + 2 * j].expected_cumulated@);
    assert(t.published[3 + 2 * j] == round.data[3 + 2 * j].expected_cumulated@);
    lemma_matched(t.published[0], poly::eval(b.column(0), z), poly::eval(pk.a, z));
    lemma_matched(t.published[1], poly::eval(b.column(1), z), poly::eval(pk.b, z));
    assert(round.data[2 + 2 * j].expected_cumulated@ == prove::value_at(st.role(j).c1, z));
    assert(round.data[3 + 2 * j].expected_cumulated@ == prove::value_at(st.role(j).c2, z));
    lemma_matched(
        t.published[2 + 2 * j],
        poly::eval(b.column(l.c1), z),
        poly::eval(st.role(j).c1, z),
    );
    lemma_matched(
        t.published[3 + 2 * j],
        poly::eval(b.column(l.c2), z),
        poly::eval(st.role(j).c2, z),
    );
    assert(l.first_defect(b) == transfer_soundness::first_ct_defect(b, j));
    assert(l.second_defect(b, delta) == transfer_soundness::second_ct_defect(b, delta, j));
}

/// Field elements are viewed as canonical representatives.
pub proof fn lemma_canonical(xs: Seq<F>)
    ensures
        field::canonical(field::vals(xs)),
{
    assert forall|i: int| 0 <= i < xs.len() implies 0 <= #[trigger] field::vals(xs)[i]
        < field::q() by {
        xs[i].lemma_view_range();
    }
}

proof fn lemma_roles_canonical(st: Transfer)
    ensures
        forall|j: int|
            #![trigger st.role(j)]
            field::canonical(st.role(j).c1) && field::canonical(st.role(j).c2),
{
    lemma_canonical(st.before.c1@);
    lemma_canonical(st.before.c2@);
    lemma_canonical(st.delta.c1@);
    lemma_canonical(st.delta.c2@);
    lemma_canonical(st.after.c1@);
    lemma_canonical(st.after.c2@);
}

/// A transfer statement was accepted in every round, against one main table.
pub open spec fn transfer_accepted_always(
    params: RegevParams,
    pk: KeyModel,
    st: Transfer,
    delta: int,
    ls: Seq<Lookup>,
    base: BaseTables,
    rounds: Seq<Round>,
) -> bool {
    forall|k: int|
        0 <= k < rounds.len() ==> transfer_accepted(
            params,
            pk,
            st,
            delta,
            ls,
            #[trigger] rounds[k],
        ) && rounds[k].tables.base == base
}

/// Ciphertext `j` is the encryption of what its witness columns hold.
pub open spec fn role_well_formed(
    params: RegevParams,
    pk: KeyModel,
    st: Transfer,
    base: BaseTables,
    j: int,
) -> bool {
    let w = transfer_layout(j).witness(base, pk);
    &&& w.sized(params.n as int)
    &&& w.small()
    &&& st.role(j) == regev::encryption(params, pk, w)
}

proof fn lemma_role_extracted(
    params: RegevParams,
    pk: KeyModel,
    st: Transfer,
    delta: int,
    ls: Seq<Lookup>,
    base: BaseTables,
    rounds: Seq<Round>,
    j: int,
)
    requires
        params.n > 0,
        0 <= j < 3,
        pk.sized(params.n as int),
        sums::cong(delta, params.scale()),
        transfer::is_transfer_lookups(ls),
        rounds.len() >= 2 * params.n,
        roots::distinct(challenges(rounds)),
        transfer_accepted_always(params, pk, st, delta, ls, base, rounds),
    ensures
        role_well_formed(params, pk, st, base, j),
{
    let l = transfer_layout(j);
    let zs = challenges(rounds);
    let n = params.n as int;
    let ct = st.role(j);
    lemma_roles_canonical(st);
    assert(rounds[0].tables.base == base);
    lemma_transfer_round(params, pk, st, delta, ls, rounds[0], j);
    assert forall|k: int| 0 <= k < zs.len() implies role_agrees(
        pk,
        ct,
        delta,
        base,
        #[trigger] zs[k],
        j,
    ) by {
        assert(zs[k] == rounds[k].z);
        lemma_transfer_round(params, pk, st, delta, ls, rounds[k], j);
    }
    lemma_agree(base.column(l.a), pk.a, zs);
    lemma_agree(base.column(l.b), pk.b, zs);
    lemma_agree(base.column(l.c1), ct.c1, zs);
    lemma_agree(base.column(l.c2), ct.c2, zs);
    roots::law_few_roots(l.first_defect(base), zs);
    roots::law_few_roots(l.second_defect(base, delta), zs);
    lemma_extracted(params, l, base, pk, ct, delta);
}

/// Soundness of transfer proofs: a statement that is accepted against one
/// committed main table at `2n` different challenges is true. All three
/// ciphertexts are encryptions under the claimed key of the messages in the
/// table, and those conserve: `before = after + delta` as integers.
pub proof fn law_accepted_transfer_conserves(
    params: RegevParams,
    pk: KeyModel,
    st: Transfer,
    delta: int,
    ls: Seq<Lookup>,
    base: BaseTables,
    rounds: Seq<Round>,
)
    requires
        params.n > 0,
        pk.sized(params.n as int),
        sums::cong(delta, params.scale()),
        transfer::is_transfer_lookups(ls),
        rounds.len() >= 2 * params.n,
        roots::distinct(challenges(rounds)),
        transfer_accepted_always(params, pk, st, delta, ls, base, rounds),
    ensures
        role_well_formed(params, pk, st, base, 0),
        role_well_formed(params, pk, st, base, 1),
        role_well_formed(params, pk, st, base, 2),
        regev::weighted(transfer_layout(0).witness(base, pk).m) == regev::weighted(
            transfer_layout(2).witness(base, pk).m,
        ) + regev::weighted(transfer_layout(1).witness(base, pk).m),
{
    lemma_role_extracted(params, pk, st, delta, ls, base, rounds, 0);
    lemma_role_extracted(params, pk, st, delta, ls, base, rounds, 1);
    lemma_role_extracted(params, pk, st, delta, ls, base, rounds, 2);
    assert(rounds[0].tables.base == base);
    lemma_round_conserves(params, pk, st, delta, ls, rounds[0]);
}

proof fn lemma_round_conserves(
    params: RegevParams,
    pk: KeyModel,
    st: Transfer,
    delta: int,
    ls: Seq<Lookup>,
    round: Round,
)
    requires
        params.n > 0,
        transfer::is_transfer_lookups(ls),
        transfer_accepted(params, pk, st, delta, ls, round),
    ensures
        regev::weighted(transfer_layout(0).witness(round.tables.base, pk).m) == regev::weighted(
            transfer_layout(2).witness(round.tables.base, pk).m,
        ) + regev::weighted(transfer_layout(1).witness(round.tables.base, pk).m),
{
    transfer_soundness::law_satisfied_transfer_trace(ls, round.tables, delta, round.z);
}

// ---------------------------------------------------------------------------
// Completeness.
// ---------------------------------------------------------------------------
/// A published value of a column that holds the claim is the claim's value.
proof fn lemma_honest_match(data: LookupData, column: Seq<int>, claim: Seq<int>, z: Ext)
    requires
        data.expected_cumulated@.cong(poly::eval(column, z)),
        poly::cong_seq(column, claim),
    ensures
        data.expected_cumulated@ == prove::value_at(claim, z),
{
    let x = data.expected_cumulated@;
    data.expected_cumulated.lemma_reduced();
    poly::lemma_eval_cong(column, claim, z);
    ext::lemma_cong_reduced(x, poly::eval(column, z));
    ext::lemma_cong_reduced(poly::eval(column, z), poly::eval(claim, z));
}

proof fn lemma_cong_residue(x: int, y: int)
    requires
        x == y % field::q(),
    ensures
        sums::cong(x, y),
{
    sums::lemma_cong_mod(y);
}

/// Completeness of encryption proofs: the trace of an honest encryption, with
/// the generated auxiliary table and its first-row values published, is
/// accepted at every challenge.
pub proof fn law_honest_encryption_is_accepted(
    params: RegevParams,
    pk: KeyModel,
    ct: CiphertextModel,
    w: WitnessModel,
    delta: int,
    ls: Seq<Lookup>,
    round: Round,
)
    requires
        params.n > 0,
        round.tables.base.height == params.n,
        soundness::honest_columns(params, pk, ct, w),
        sums::cong(delta, params.scale()),
        soundness::is_trace(round.tables.base, pk, ct, w),
        air::is_enc_lookups(ls),
        soundness::shared_challenge(round.tables, 10, round.z),
        soundness::generated_aux(ls, round.tables),
        forall|j: int|
            0 <= j < 4 ==> #[trigger] round.tables.published[j] == (round.tables.aux)(0, j),
        round.data.len() == 4,
        published_by(round.tables, round.data),
    ensures
        encryption_accepted(params, pk, ct, delta, ls, round),
{
    let t = round.tables;
    let b = t.base;
    let z = round.z;
    soundness::law_honest_encryption_trace(params, pk, ct, w, delta, ls, t, z);
    soundness::law_satisfied_encryption_trace(ls, t, delta, z);
    assert forall|i: int| 0 <= i < params.n implies sums::cong(
        #[trigger] b.column(air::COL_A as int)[i],
        pk.a[i],
    ) by {
        lemma_cong_residue((b.main)(i, air::COL_A as int), pk.a[i]);
    }
    assert forall|i: int| 0 <= i < params.n implies sums::cong(
        #[trigger] b.column(air::COL_B as int)[i],
        pk.b[i],
    ) by {
        lemma_cong_residue((b.main)(i, air::COL_B as int), pk.b[i]);
    }
    assert forall|i: int| 0 <= i < params.n implies sums::cong(
        #[trigger] b.column(air::COL_C1 as int)[i],
        ct.c1[i],
    ) by {
        lemma_cong_residue((b.main)(i, air::COL_C1 as int), ct.c1[i]);
    }
    assert forall|i: int| 0 <= i < params.n implies sums::cong(
        #[trigger] b.column(air::COL_C2 as int)[i],
        ct.c2[i],
    ) by {
        lemma_cong_residue((b.main)(i, air::COL_C2 as int), ct.c2[i]);
    }
    assert(t.published[0] == round.data[0].expected_cumulated@);
    assert(t.published[1] == round.data[1].expected_cumulated@);
    assert(t.published[2] == round.data[2].expected_cumulated@);
    assert(t.published[3] == round.data[3].expected_cumulated@);
    lemma_honest_match(round.data[0], b.column(air::COL_A as int), pk.a, z);
    lemma_honest_match(round.data[1], b.column(air::COL_B as int), pk.b, z);
    lemma_honest_match(round.data[2], b.column(air::COL_C1 as int), ct.c1, z);
    lemma_honest_match(round.data[3], b.column(air::COL_C2 as int), ct.c2, z);
}

/// The statement columns of an honest transfer trace hold the statement.
proof fn lemma_transfer_columns(
    params: RegevParams,
    pk: KeyModel,
    st: Transfer,
    w: TransferWitness,
    b: BaseTables,
    j: int,
)
    requires
        b.height == params.n,
        0 <= j < 3,
        pk.sized(params.n as int),
        st.role(j).sized(params.n as int),
        transfer_soundness::is_transfer_trace(b, pk, st, w),
    ensures
        transfer_layout(j).holds(b, pk, st.role(j)),
{
    let l = transfer_layout(j);
    let ct = st.role(j);
    assert((l.c1 - 2) / 10 == j && (l.c1 - 2) % 10 == 0);
    assert((l.c2 - 2) / 10 == j && (l.c2 - 2) % 10 == 1);
    assert forall|i: int| 0 <= i < params.n implies sums::cong(
        #[trigger] b.column(0)[i],
        pk.a[i],
    ) by {
        lemma_cong_residue((b.main)(i, 0), pk.a[i]);
    }
    assert forall|i: int| 0 <= i < params.n implies sums::cong(
        #[trigger] b.column(1)[i],
        pk.b[i],
    ) by {
        lemma_cong_residue((b.main)(i, 1), pk.b[i]);
    }
    assert forall|i: int| 0 <= i < params.n implies sums::cong(
        #[trigger] b.column(l.c1)[i],
        ct.c1[i],
    ) by {
        lemma_cong_residue((b.main)(i, l.c1), ct.c1[i]);
    }
    assert forall|i: int| 0 <= i < params.n implies sums::cong(
        #[trigger] b.column(l.c2)[i],
        ct.c2[i],
    ) by {
        lemma_cong_residue((b.main)(i, l.c2), ct.c2[i]);
    }
}

/// The published values of ciphertext `j` match the statement.
proof fn lemma_role_matches(
    params: RegevParams,
    pk: KeyModel,
    st: Transfer,
    w: TransferWitness,
    round: Round,
    j: int,
)
    requires
        round.tables.base.height == params.n,
        0 <= j < 3,
        pk.sized(params.n as int),
        st.role(j).sized(params.n as int),
        transfer_soundness::is_transfer_trace(round.tables.base, pk, st, w),
        round.data.len() == 8,
        published_by(round.tables, round.data),
        round.tables.published[2 + 2 * j].cong(
            poly::eval(round.tables.base.column(transfer::ct_start(j)), round.z),
        ),
        round.tables.published[3 + 2 * j].cong(
            poly::eval(round.tables.base.column(transfer::ct_start(j) + 1), round.z),
        ),
    ensures
        round.data[2 + 2 * j].expected_cumulated@ == prove::value_at(st.role(j).c1, round.z),
        round.data[3 + 2 * j].expected_cumulated@ == prove::value_at(st.role(j).c2, round.z),
{
    let l = transfer_layout(j);
    let b = round.tables.base;
    lemma_transfer_columns(params, pk, st, w, b, j);
    assert(round.tables.published[2 + 2 * j] == round.data[2 + 2 * j].expected_cumulated@);
    assert(round.tables.published[3 + 2 * j] == round.data[3 + 2 * j].expected_cumulated@);
    lemma_honest_match(round.data[2 + 2 * j], b.column(l.c1), st.role(j).c1, round.z);
    lemma_honest_match(round.data[3 + 2 * j], b.column(l.c2), st.role(j).c2, round.z);
}

/// Completeness of transfer proofs: the trace of an honest transfer, with the
/// generated auxiliary table and its first-row values published, is accepted at
/// every challenge.
#[verifier::rlimit(30)]
pub proof fn law_honest_transfer_is_accepted(
    params: RegevParams,
    pk: KeyModel,
    st: Transfer,
    w: TransferWitness,
    delta: int,
    ls: Seq<Lookup>,
    round: Round,
)
    requires
        params.n > 0,
        round.tables.base.height == params.n,
        soundness::honest_columns(params, pk, st.before@, w.before@),
        soundness::honest_columns(params, pk, st.delta@, w.delta@),
        soundness::honest_columns(params, pk, st.after@, w.after@),
        regev::weighted(w.before@.m) == regev::weighted(w.after@.m) + regev::weighted(w.delta@.m),
        sums::cong(delta, params.scale()),
        transfer_soundness::is_transfer_trace(round.tables.base, pk, st, w),
        transfer::is_transfer_lookups(ls),
        soundness::shared_challenge(round.tables, 26, round.z),
        soundness::generated_aux(ls, round.tables),
        round.tables.published[0] == (round.tables.aux)(0, 0),
        round.tables.published[1] == (round.tables.aux)(0, 1),
        forall|j: int|
            #![trigger transfer::aux_start(j)]
            0 <= j < 3 ==> round.tables.published[2 + 2 * j] == (round.tables.aux)(
                0,
                transfer::aux_start(j),
            ) && round.tables.published[3 + 2 * j] == (round.tables.aux)(
                0,
                transfer::aux_start(j) + 1,
            ),
        round.data.len() == 8,
        published_by(round.tables, round.data),
    ensures
        transfer_accepted(params, pk, st, delta, ls, round),
{
    let t = round.tables;
    let z = round.z;
    transfer_soundness::law_honest_transfer_trace(params, pk, st, w, delta, ls, t, z);
    transfer_soundness::law_satisfied_transfer_trace(ls, t, delta, z);
    assert(transfer::ct_start(0) == 2 && transfer::ct_start(1) == 12 && transfer::ct_start(2)
        == 22);
    lemma_role_matches(params, pk, st, w, round, 0);
    lemma_role_matches(params, pk, st, w, round, 1);
    lemma_role_matches(params, pk, st, w, round, 2);
    lemma_transfer_columns(params, pk, st, w, t.base, 0);
    assert(t.published[0] == round.data[0].expected_cumulated@);
    assert(t.published[1] == round.data[1].expected_cumulated@);
    lemma_honest_match(round.data[0], t.base.column(0), pk.a, z);
    lemma_honest_match(round.data[1], t.base.column(1), pk.b, z);
}

// ---------------------------------------------------------------------------
// Batches, and what the key holder sees.
// ---------------------------------------------------------------------------
proof fn lemma_encryption_binding(
    n: int,
    pk: KeyModel,
    cts: Seq<Ciphertext>,
    proof: RegevProof,
    challenges: Seq<Vec<Challenge>>,
    i: int,
)
    requires
        0 <= i <= cts.len(),
    ensures
        prove::encryption_binding(n, pk, cts, proof, challenges, i) is Ok <==> forall|k: int|
            i <= k < cts.len() ==> prove::encryption_verdict(
                n,
                pk,
                (#[trigger] cts[k])@,
                proof.global_lookup_data@[k]@,
                challenges[k]@[0]@,
                k as usize,
            ) is Ok,
    decreases cts.len() - i,
{
    if i < cts.len() {
        lemma_encryption_binding(n, pk, cts, proof, challenges, i + 1);
        let v = prove::encryption_verdict(
            n,
            pk,
            cts[i]@,
            proof.global_lookup_data@[i]@,
            challenges[i]@[0]@,
            i as usize,
        );
        if v is Ok {
            assert forall|k: int|
                i <= k < cts.len() && prove::encryption_binding(
                    n,
                    pk,
                    cts,
                    proof,
                    challenges,
                    i + 1,
                ) is Ok implies prove::encryption_verdict(
                n,
                pk,
                (#[trigger] cts[k])@,
                proof.global_lookup_data@[k]@,
                challenges[k]@[0]@,
                k as usize,
            ) is Ok by {
                if k == i {
                }
            }
        }
    }
}

/// A batch of encryptions is accepted exactly if its shape is right, the STARK
/// verifies, and every instance is bound to its ciphertext.
pub proof fn law_batch_accepts_iff_all_bound(
    params: RegevParams,
    pk: KeyModel,
    cts: Seq<Ciphertext>,
    proof: RegevProof,
    is_zk: int,
    outcome: prove::StarkOutcome,
)
    ensures
        prove::encryptions_verdict(params, pk, cts, proof, is_zk, outcome) is Ok <==> {
            &&& prove::shape_verdict(params, pk, cts.len() as int, proof, is_zk) is Ok
            &&& outcome is Ok
            &&& forall|k: int|
                0 <= k < cts.len() ==> prove::encryption_verdict(
                    params.n as int,
                    pk,
                    (#[trigger] cts[k])@,
                    proof.global_lookup_data@[k]@,
                    outcome->Ok_0@[k]@[0]@,
                    k as usize,
                ) is Ok
        },
{
    if outcome is Ok {
        lemma_encryption_binding(params.n as int, pk, cts, proof, outcome->Ok_0@, 0);
    }
}

proof fn lemma_transfer_binding(
    n: int,
    pk: KeyModel,
    ts: Seq<Transfer>,
    proof: RegevProof,
    challenges: Seq<Vec<Challenge>>,
    i: int,
)
    requires
        0 <= i <= ts.len(),
    ensures
        prove::transfer_binding(n, pk, ts, proof, challenges, i) is Ok <==> forall|k: int|
            i <= k < ts.len() ==> prove::transfer_verdict(
                n,
                pk,
                #[trigger] ts[k],
                proof.global_lookup_data@[k]@,
                challenges[k]@[0]@,
                k as usize,
            ) is Ok,
    decreases ts.len() - i,
{
    if i < ts.len() {
        lemma_transfer_binding(n, pk, ts, proof, challenges, i + 1);
        let v = prove::transfer_verdict(
            n,
            pk,
            ts[i],
            proof.global_lookup_data@[i]@,
            challenges[i]@[0]@,
            i as usize,
        );
        if v is Ok {
            assert forall|k: int|
                i <= k < ts.len() && prove::transfer_binding(
                    n,
                    pk,
                    ts,
                    proof,
                    challenges,
                    i + 1,
                ) is Ok implies prove::transfer_verdict(
                n,
                pk,
                #[trigger] ts[k],
                proof.global_lookup_data@[k]@,
                challenges[k]@[0]@,
                k as usize,
            ) is Ok by {
                if k == i {
                }
            }
        }
    }
}

/// A batch of transfers is accepted exactly if its shape is right, the STARK
/// verifies, and every instance is bound to its three ciphertexts.
pub proof fn law_transfer_batch_accepts_iff_all_bound(
    params: RegevParams,
    pk: KeyModel,
    ts: Seq<Transfer>,
    proof: RegevProof,
    is_zk: int,
    outcome: prove::StarkOutcome,
)
    ensures
        prove::transfers_verdict(params, pk, ts, proof, is_zk, outcome) is Ok <==> {
            &&& prove::shape_verdict(params, pk, ts.len() as int, proof, is_zk) is Ok
            &&& outcome is Ok
            &&& forall|k: int|
                0 <= k < ts.len() ==> prove::transfer_verdict(
                    params.n as int,
                    pk,
                    #[trigger] ts[k],
                    proof.global_lookup_data@[k]@,
                    outcome->Ok_0@[k]@[0]@,
                    k as usize,
                ) is Ok
        },
{
    if outcome is Ok {
        lemma_transfer_binding(params.n as int, pk, ts, proof, outcome->Ok_0@, 0);
    }
}

/// The holder of the secret key decrypts an accepted ciphertext to the binary
/// message in the committed table, as long as the worst-case noise is within
/// the budget.
pub proof fn law_accepted_encryption_decrypts(
    params: RegevParams,
    pk: KeyModel,
    s: Seq<int>,
    ct: CiphertextModel,
    delta: int,
    ls: Seq<Lookup>,
    base: BaseTables,
    rounds: Seq<Round>,
)
    requires
        params.valid(),
        regev::key_pair(pk, s, params.n as int),
        2 * (4 * params.n + 2) < params.scale(),
        field::canonical(ct.c1),
        field::canonical(ct.c2),
        sums::cong(delta, params.scale()),
        air::is_enc_lookups(ls),
        rounds.len() >= 2 * params.n,
        roots::distinct(challenges(rounds)),
        encryption_accepted_always(params, pk, ct, delta, ls, base, rounds),
    ensures
        regev::decryption(params, s, ct) == encryption_layout().witness(base, pk).m,
        regev::within(regev::decryption(params, s, ct), 0, 1),
{
    lemma_positive(params);
    law_accepted_encryption_is_well_formed(params, pk, ct, delta, ls, base, rounds);
    correctness::law_decrypt_undoes_encrypt(
        params,
        pk,
        s,
        encryption_layout().witness(base, pk),
    );
}

proof fn lemma_positive(params: RegevParams)
    requires
        params.valid(),
    ensures
        params.n > 0,
{
    vstd::arithmetic::power2::lemma_pow2_pos(crate::dft::log2(params.n as int));
}

/// The holder of the secret key decrypts the three ciphertexts of an accepted
/// transfer to values with `before = after + delta`, as long as the worst-case
/// noise is within the budget.
pub proof fn law_accepted_transfer_values_conserve(
    params: RegevParams,
    pk: KeyModel,
    s: Seq<int>,
    st: Transfer,
    delta: int,
    ls: Seq<Lookup>,
    base: BaseTables,
    rounds: Seq<Round>,
)
    requires
        params.valid(),
        regev::key_pair(pk, s, params.n as int),
        2 * (4 * params.n + 2) < params.scale(),
        sums::cong(delta, params.scale()),
        transfer::is_transfer_lookups(ls),
        rounds.len() >= 2 * params.n,
        roots::distinct(challenges(rounds)),
        transfer_accepted_always(params, pk, st, delta, ls, base, rounds),
    ensures
        regev::weighted(regev::decryption(params, s, st.before@)) == regev::weighted(
            regev::decryption(params, s, st.after@),
        ) + regev::weighted(regev::decryption(params, s, st.delta@)),
{
    lemma_positive(params);
    law_accepted_transfer_conserves(params, pk, st, delta, ls, base, rounds);
    let w0 = transfer_layout(0).witness(base, pk);
    let w1 = transfer_layout(1).witness(base, pk);
    let w2 = transfer_layout(2).witness(base, pk);
    assert(st.role(0) == st.before@ && st.role(1) == st.delta@ && st.role(2) == st.after@);
    correctness::law_decrypt_undoes_encrypt(params, pk, s, w0);
    correctness::law_decrypt_undoes_encrypt(params, pk, s, w1);
    correctness::law_decrypt_undoes_encrypt(params, pk, s, w2);
}

/// Verified homomorphic sums: the public sum of two accepted ciphertexts
/// decrypts to the sum of the values in their committed tables, as long as the
/// doubled worst-case noise is within the budget.
pub proof fn law_accepted_ciphertexts_add(
    params: RegevParams,
    pk: KeyModel,
    s: Seq<int>,
    x: CiphertextModel,
    y: CiphertextModel,
    delta: int,
    ls: Seq<Lookup>,
    base_x: BaseTables,
    rounds_x: Seq<Round>,
    base_y: BaseTables,
    rounds_y: Seq<Round>,
)
    requires
        params.valid(),
        params.modulus() > 2,
        regev::key_pair(pk, s, params.n as int),
        4 * (4 * params.n + 2) < params.scale(),
        field::canonical(x.c1),
        field::canonical(x.c2),
        field::canonical(y.c1),
        field::canonical(y.c2),
        sums::cong(delta, params.scale()),
        air::is_enc_lookups(ls),
        rounds_x.len() >= 2 * params.n,
        rounds_y.len() >= 2 * params.n,
        roots::distinct(challenges(rounds_x)),
        roots::distinct(challenges(rounds_y)),
        encryption_accepted_always(params, pk, x, delta, ls, base_x, rounds_x),
        encryption_accepted_always(params, pk, y, delta, ls, base_y, rounds_y),
    ensures
        regev::weighted(regev::decryption(params, s, regev::ciphertext_sum(x, y)))
            == regev::weighted(encryption_layout().witness(base_x, pk).m) + regev::weighted(
            encryption_layout().witness(base_y, pk).m,
        ),
{
    lemma_positive(params);
    law_accepted_encryption_is_well_formed(params, pk, x, delta, ls, base_x, rounds_x);
    law_accepted_encryption_is_well_formed(params, pk, y, delta, ls, base_y, rounds_y);
    lemma_sum_decrypts(
        params,
        pk,
        s,
        encryption_layout().witness(base_x, pk),
        encryption_layout().witness(base_y, pk),
    );
}

proof fn lemma_sum_decrypts(
    params: RegevParams,
    pk: KeyModel,
    s: Seq<int>,
    wx: WitnessModel,
    wy: WitnessModel,
)
    requires
        params.valid(),
        params.modulus() > 2,
        regev::key_pair(pk, s, params.n as int),
        4 * (4 * params.n + 2) < params.scale(),
        wx.sized(params.n as int),
        wy.sized(params.n as int),
        wx.small(),
        wy.small(),
    ensures
        regev::weighted(
            regev::decryption(
                params,
                s,
                regev::ciphertext_sum(
                    regev::encryption(params, pk, wx),
                    regev::encryption(params, pk, wy),
                ),
            ),
        ) == regev::weighted(wx.m) + regev::weighted(wy.m),
{
    let x = regev::encryption(params, pk, wx);
    let y = regev::encryption(params, pk, wy);
    let ex = correctness::fresh_noise(pk, s, wx);
    let ey = correctness::fresh_noise(pk, s, wy);
    let m = correctness::plus(wx.m, wy.m);
    let e = correctness::plus(ex, ey);
    lemma_positive(params);
    correctness::law_fresh_encryption_opens(params, pk, s, wx);
    correctness::law_fresh_encryption_opens(params, pk, s, wy);
    correctness::law_addition_adds_messages(params, s, x, y, wx.m, wy.m, ex, ey);
    assert forall|k: int| 0 <= k < params.n implies 2 * sums::abs(#[trigger] e[k])
        < params.scale() by {
        assert(sums::abs(ex[k]) <= 4 * params.n + 2);
        assert(sums::abs(ey[k]) <= 4 * params.n + 2);
    }
    assert forall|k: int| 0 <= k < m.len() implies 0 <= #[trigger] m[k] <= params.modulus()
        - 1 by {
        assert(0 <= wx.m[k] <= 1);
        assert(0 <= wy.m[k] <= 1);
    }
    correctness::law_decryption_within_budget(
        params,
        s,
        regev::ciphertext_sum(x, y),
        m,
        e,
    );
    correctness::law_weighted_value_is_additive(wx.m, wy.m);
}

/// A capped transfer: where a transfer is accepted, and a range proof on the
/// same amount ciphertext as well, the decrypted values satisfy `before = after
/// + delta`, and the low bits of `delta` are below the cap.
pub proof fn law_accepted_transfer_with_cap(
    params: RegevParams,
    pk: KeyModel,
    s: Seq<int>,
    st: Transfer,
    delta: int,
    transfer_ls: Seq<Lookup>,
    transfer_base: BaseTables,
    transfer_rounds: Seq<Round>,
    range_ls: Seq<Lookup>,
    range_base: BaseTables,
    range_rounds: Seq<Round>,
    spec: RangeSpec,
)
    requires
        params.valid(),
        params.n < field::q(),
        regev::key_pair(pk, s, params.n as int),
        2 * (4 * params.n + 2) < params.scale(),
        sums::cong(delta, params.scale()),
        transfer::is_transfer_lookups(transfer_ls),
        transfer_rounds.len() >= 2 * params.n,
        roots::distinct(challenges(transfer_rounds)),
        transfer_accepted_always(
            params,
            pk,
            st,
            delta,
            transfer_ls,
            transfer_base,
            transfer_rounds,
        ),
        air::is_enc_lookups(range_ls),
        range_rounds.len() >= 2 * params.n,
        roots::distinct(challenges(range_rounds)),
        encryption_accepted_always(
            params,
            pk,
            st.delta@,
            delta,
            range_ls,
            range_base,
            range_rounds,
        ),
        spec.valid(params.n as int),
        range::range_relation(spec, range_base),
    ensures
        regev::weighted(regev::decryption(params, s, st.before@)) == regev::weighted(
            regev::decryption(params, s, st.after@),
        ) + regev::weighted(regev::decryption(params, s, st.delta@)),
        0 <= regev::low_value(
            regev::decryption(params, s, st.delta@),
            spec.value_bits as int,
        ) < spec.bound,
{
    law_accepted_transfer_values_conserve(
        params,
        pk,
        s,
        st,
        delta,
        transfer_ls,
        transfer_base,
        transfer_rounds,
    );
    lemma_positive(params);
    lemma_canonical(st.delta.c1@);
    lemma_canonical(st.delta.c2@);
    law_accepted_range_is_enforced(
        params,
        pk,
        st.delta@,
        delta,
        range_ls,
        range_base,
        range_rounds,
        spec,
    );
    law_accepted_encryption_decrypts(
        params,
        pk,
        s,
        st.delta@,
        delta,
        range_ls,
        range_base,
        range_rounds,
    );
}

/// Privacy of encryption proofs: only evaluations of statement polynomials are
/// published. The other arguments (randomness, noise, message and quotients)
/// expose nothing.
pub proof fn law_encryption_publishes_statement_only(ls: Seq<Lookup>, i: int)
    requires
        air::is_enc_lookups(ls),
        0 <= i < ls.len(),
    ensures
        ls[i].kind is Global <==> i < 4,
        i < 4 ==> ls[i].expr() == air::column_expr(
            if i == 0 {
                encryption_layout().a
            } else if i == 1 {
                encryption_layout().b
            } else if i == 2 {
                encryption_layout().c1
            } else {
                encryption_layout().c2
            },
        ),
{
}

/// Privacy of transfer proofs: only the key and the three ciphertexts are
/// evaluated in public.
pub proof fn law_transfer_publishes_statement_only(ls: Seq<Lookup>, i: int)
    requires
        transfer::is_transfer_lookups(ls),
        0 <= i < ls.len(),
    ensures
        ls[i].kind is Global <==> i < 2 || (i - 2) % 8 < 2,
{
    let j = (i - 2) / 8;
    assert(i >= 2 ==> 0 <= j < 3 && i == transfer::aux_start(j) + (i - 2) % 8);
}

} // verus!
