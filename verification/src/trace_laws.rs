//! What the tables, the arguments and the transcript promise to their callers,
//! in terms of arguments and results of calls.

use crate::air;
use crate::air::RegevEncAir;
use crate::config;
use crate::config::FriParametersSpec;
use crate::dft;
use crate::ext;
use crate::ext::{Challenge, Ext};
use crate::field;
use crate::field::F;
use crate::gadget;
use crate::gadget::{EvalGadget, Kind, Lookup, LookupData};
use crate::params::RegevParams;
use crate::poly;
use crate::pool;
use crate::portability;
use crate::prove;
use crate::prove::{Instance, RegevVerifyError};
use crate::range;
use crate::range::{RangeSpec, RegevRangeAir};
use crate::regev;
use crate::regev::{Ciphertext, EncryptionWitness, PublicKey};
use crate::sums;
use crate::symbolic;
use crate::symbolic::{
    BaseTables, Body, Constraint, Expr, ExtExpr, ExtMatrix, Matrix, Tables, Trace, When,
};
use crate::transcript;
use crate::transcript::Transcript;
use crate::transfer;
use crate::transfer::{RegevTransferAir, Transfer, TransferWitness};
use vstd::arithmetic::power2::*;
use vstd::prelude::*;

verus! {

// ---------------------------------------------------------------------------
// Tables.
// ---------------------------------------------------------------------------
/// A table is stored row by row.
pub proof fn law_table_cells(
    m: Matrix,
    e: ExtMatrix,
    rows: usize,
    row: usize,
    col: usize,
    x: F,
    y: Challenge,
)
    requires
        m.width > 0,
        m.values@.len() == rows * m.width,
        e.width == m.width,
        e.values@.len() == m.values@.len(),
        row < rows,
        col < m.width,
        call_ensures(Matrix::get, (&m, row, col), x),
        call_ensures(ExtMatrix::get, (&e, row, col), y),
    ensures
        x@ == m.values@[row * m.width + col]@,
        y@ == e.values@[row * e.width + col]@,
        call_requires(Matrix::get, (&m, row, col)),
        call_requires(ExtMatrix::get, (&e, row, col)),
{
    symbolic::lemma_rows(m.values@.len() as int, rows as int, m.width as int);
}

/// The height of a table is the number of its whole rows.
pub proof fn law_table_height(m: Matrix, e: ExtMatrix, rows: usize, h: usize, g: usize)
    requires
        m.values@.len() == rows * m.width,
        e.values@.len() == rows * e.width,
        call_ensures(Matrix::height, (&m,), h),
        call_ensures(ExtMatrix::height, (&e,), g),
    ensures
        m.width > 0 ==> h == rows,
        e.width > 0 ==> g == rows,
        m.width == 0 ==> h == 0,
        e.width == 0 ==> g == 0,
{
    if m.width > 0 {
        symbolic::lemma_rows(m.values@.len() as int, rows as int, m.width as int);
    }
    if e.width > 0 {
        symbolic::lemma_rows(e.values@.len() as int, rows as int, e.width as int);
    }
}

/// Row `i` of the main trace of an encryption, as integers.
pub open spec fn encryption_row(
    pk: PublicKey,
    ct: Ciphertext,
    w: EncryptionWitness,
    i: int,
) -> Seq<int> {
    seq![
        pk.a@[i]@,
        pk.b@[i]@,
        ct.c1@[i]@,
        ct.c2@[i]@,
        w.r@[i] as int,
        w.e1u@[i] as int,
        w.e1v@[i] as int,
        w.e2u@[i] as int,
        w.e2v@[i] as int,
        w.m@[i] as int,
        w.k1@[i]@,
        w.k2@[i]@,
    ]
}

/// The key and the randomness have `n` coefficients, and no other polynomial has
/// fewer.
pub open spec fn all_sized(pk: PublicKey, ct: Ciphertext, w: EncryptionWitness, n: int) -> bool {
    &&& pk.a@.len() == n
    &&& w.r@.len() == n
    &&& pk.b@.len() >= n
    &&& role_sized(ct, w, n)
}

/// No polynomial of a ciphertext and its witness has fewer than `n`
/// coefficients.
pub open spec fn role_sized(ct: Ciphertext, w: EncryptionWitness, n: int) -> bool {
    &&& ct.c1@.len() >= n
    &&& ct.c2@.len() >= n
    &&& w.r@.len() >= n
    &&& w.e1u@.len() >= n
    &&& w.e1v@.len() >= n
    &&& w.e2u@.len() >= n
    &&& w.e2v@.len() >= n
    &&& w.m@.len() >= n
    &&& w.k1@.len() >= n
    &&& w.k2@.len() >= n
}

proof fn lemma_trace_entry(
    pk: PublicKey,
    ct: Ciphertext,
    w: EncryptionWitness,
    n: int,
    i: int,
    col: int,
)
    requires
        all_sized(pk, ct, w, n),
        0 <= i < n,
        0 <= col < 12,
    ensures
        air::trace_entry(pk@, ct@, w@, i, col) == encryption_row(pk, ct, w, i)[col],
{
    let row = encryption_row(pk, ct, w, i);
    assert(col == 0 || col == 1 || col == 2 || col == 3 || col == 4 || col == 5 || col == 6 || col
        == 7 || col == 8 || col == 9 || col == 10 || col == 11);
}

/// The trace of an encryption has one row for each coefficient, and in it the
/// coefficients of the statement and the witness, as residues.
pub proof fn law_encryption_trace(
    pk: PublicKey,
    ct: Ciphertext,
    w: EncryptionWitness,
    m: Matrix,
    i: int,
    col: int,
)
    requires
        all_sized(pk, ct, w, pk.a@.len() as int),
        call_ensures(air::generate_trace, (&pk, &ct, &w), m),
        0 <= i < pk.a@.len(),
        0 <= col < 12,
    ensures
        call_requires(air::generate_trace, (&pk, &ct, &w)),
        m.width == 12,
        m.values@.len() == 12 * pk.a@.len(),
        m.values@[12 * i + col]@ == encryption_row(pk, ct, w, i)[col] % field::q(),
{
    lemma_trace_entry(pk, ct, w, pk.a@.len() as int, i, col);
    assert(m.cell(i, col) == m.values@[12 * i + col]@);
}

/// The public values of an encryption and of a transfer are the polynomials of
/// the statement one after the other.
pub proof fn law_public_values(
    pk: PublicKey,
    ct: Ciphertext,
    t: Transfer,
    x: Vec<F>,
    y: Vec<F>,
)
    requires
        call_ensures(air::public_values, (&pk, &ct), x),
        call_ensures(transfer::transfer_public_values, (&pk, &t), y),
    ensures
        x@ == pk.a@ + pk.b@ + ct.c1@ + ct.c2@,
        y@ == pk.a@ + pk.b@ + t.before.c1@ + t.before.c2@ + t.delta.c1@ + t.delta.c2@ + t.after.c1@
            + t.after.c2@,
        call_requires(air::public_values, (&pk, &ct)),
        call_requires(transfer::transfer_public_values, (&pk, &t)),
{
}

/// The value in the low message bits: none are worth 0, and one more bit behind
/// `k` others is worth `2^k`.
pub proof fn law_message_value(m: &[u8], k: usize, u: u64, v: u64)
    requires
        k < 29,
        k < m@.len(),
        forall|j: int| 0 <= j <= k ==> #[trigger] m@[j] <= 1,
        call_ensures(range::message_value, (m, k), u),
        call_ensures(range::message_value, (m, (k + 1) as usize), v),
    ensures
        k == 0 ==> u == 0,
        v == u + m@[k as int] * pow2(k as nat),
        call_requires(range::message_value, (m, k)),
        call_requires(range::message_value, (m, (k + 1) as usize)),
{
    let x = regev::bytes(m@);
    let f = |i: int| x[i] * pow2(i as nat);
    assert(sums::sum(0, k + 1, f) == sums::sum(0, k as int, f) + f(k as int));
    assert(x[k as int] == m@[k as int]);
}

/// What the range columns of a trace are: flags and weights of the active rows,
/// complement bits, what is left of `bound - 1` from each row on, and how many
/// active rows are left.
pub open spec fn range_columns(spec: RangeSpec, m: Seq<u8>, n: int, t: Matrix) -> bool {
    &&& forall|i: int|
        #![trigger t.cell(i, 12)]
        0 <= i < n ==> t.cell(i, 12) == if i < spec.value_bits {
            1int
        } else {
            0
        }
    &&& forall|i: int|
        #![trigger t.cell(i, 13)]
        0 <= i < n ==> t.cell(i, 13) == if i < spec.value_bits {
            pow2(i as nat) as int
        } else {
            0
        }
    &&& forall|i: int|
        #![trigger t.cell(i, 14)]
        0 <= i < n ==> 0 <= t.cell(i, 14) <= 1 && (i >= spec.value_bits ==> t.cell(i, 14) == 0)
    &&& t.cell(0, 15) == spec.bound - 1
    &&& forall|i: int|
        #![trigger t.cell(i, 15)]
        0 <= i < n - 1 ==> t.cell(i, 15) == (m[i] + t.cell(i, 14)) * t.cell(i, 13) + t.cell(
            i + 1,
            15,
        )
    &&& t.cell(n - 1, 15) == (m[n - 1] + t.cell(n - 1, 14)) * t.cell(n - 1, 13)
    &&& forall|i: int|
        #![trigger t.cell(i, 16)]
        0 <= i < n ==> t.cell(i, 16) == if i < spec.value_bits {
            spec.value_bits - i
        } else {
            0int
        }
}

/// Every range that is supported has a trace for every value below its bound:
/// it can be built, its first columns are those of the encryption, and its range
/// columns are the ones that the complement determines.
pub proof fn law_range_trace(
    pk: PublicKey,
    ct: Ciphertext,
    w: EncryptionWitness,
    spec: RangeSpec,
    m: &[u8],
    v: u64,
    t: Matrix,
    i: int,
    col: int,
)
    requires
        all_sized(pk, ct, w, pk.a@.len() as int),
        1 <= spec.value_bits <= 29,
        spec.value_bits <= pk.a@.len(),
        1 <= spec.bound <= pow2(spec.value_bits as nat),
        m@ == w.m@,
        forall|j: int| 0 <= j < spec.value_bits ==> #[trigger] m@[j] <= 1,
        call_ensures(range::message_value, (m, spec.value_bits), v),
        v < spec.bound,
        call_ensures(range::generate_range_trace, (&pk, &ct, &w, spec), t),
        0 <= i < pk.a@.len(),
        0 <= col < 12,
    ensures
        call_requires(range::message_value, (m, spec.value_bits)),
        call_requires(range::generate_range_trace, (&pk, &ct, &w, spec)),
        t.width == 17,
        t.values@.len() == 17 * pk.a@.len(),
        t.cell(i, col) == encryption_row(pk, ct, w, i)[col] % field::q(),
        range_columns(spec, m@, pk.a@.len() as int, t),
        forall|pv: Seq<int>| range_demands(spec, #[trigger] t.tables(pv)),
{
    let n = pk.a@.len() as int;
    assert(range::in_range(spec, w@.m, n)) by {
        assert forall|j: int| 0 <= j < spec.value_bits implies 0 <= #[trigger] w@.m[j] <= 1 by {
            assert(m@[j] <= 1);
        }
    }
    lemma_trace_entry(pk, ct, w, n, i, col);
    lemma_range_columns(w, spec, n, t);
    assert forall|pv: Seq<int>| range_demands(spec, #[trigger] t.tables(pv)) by {
        let b = t.tables(pv);
        assert forall|k: int, c: int|
            #![trigger (b.main)(k, c)]
            0 <= k < n && 12 <= c < 17 implies (b.main)(k, c) == range::range_entry(
            spec,
            w@.m,
            k,
            c,
        ) % field::q() by {
            assert(t.cell(k, c) == (b.main)(k, c));
        }
        assert forall|k: int| #![trigger (b.main)(k, 9)] 0 <= k < n implies (b.main)(k, 9) == w@.m[k]
            % field::q() by {
            assert(t.cell(k, 9) == (b.main)(k, 9));
        }
        range::law_in_range_value_satisfies(spec, b, w@.m);
        lemma_range_demands(spec, b);
    }
}

/// The range columns of a table are those of a value.
spec fn has_range_entries(x: Seq<int>, spec: RangeSpec, n: int, t: Matrix) -> bool {
    forall|i: int, col: int|
        #![trigger t.cell(i, col)]
        0 <= i < n && 12 <= col < 17 ==> t.cell(i, col) == range::range_entry(spec, x, i, col)
            % field::q()
}

/// The entries of one row.
proof fn lemma_range_row(x: Seq<int>, spec: RangeSpec, n: int, t: Matrix, i: int)
    requires
        range::in_range(spec, x, n),
        regev::low_value(x, spec.value_bits as int) >= 0,
        has_range_entries(x, spec, n, t),
        0 <= i < n,
    ensures
        t.cell(i, 12) == if i < spec.value_bits {
            1int
        } else {
            0
        },
        t.cell(i, 13) == if i < spec.value_bits {
            pow2(i as nat) as int
        } else {
            0
        },
        0 <= t.cell(i, 14) <= 1,
        i >= spec.value_bits ==> t.cell(i, 14) == 0,
        t.cell(i, 15) == range::remaining(spec, x, i),
        t.cell(i, 16) == if i < spec.value_bits {
            spec.value_bits - i
        } else {
            0int
        },
        (x[i] + t.cell(i, 14)) * t.cell(i, 13) == range::contribution(spec, x, i),
{
    lemma2_to64();
    dft::lemma_pow2_monotone(spec.value_bits as nat, 29);
    range::lemma_remaining_range(spec, x, n, i);
    let rest = range::remaining(spec, x, i);
    let q = field::q();
    assert(t.cell(i, 12) == range::range_entry(spec, x, i, 12) % q);
    assert(t.cell(i, 13) == range::range_entry(spec, x, i, 13) % q);
    assert(t.cell(i, 14) == range::range_entry(spec, x, i, 14) % q);
    assert(t.cell(i, 15) == range::range_entry(spec, x, i, 15) % q);
    assert(t.cell(i, 16) == range::range_entry(spec, x, i, 16) % q);
    vstd::arithmetic::div_mod::lemma_small_mod(rest as nat, q as nat);
    if i < spec.value_bits {
        dft::lemma_pow2_monotone(i as nat, 29);
        lemma_pow2_pos(i as nat);
        vstd::arithmetic::div_mod::lemma_small_mod(pow2(i as nat), q as nat);
    } else {
        assert((x[i] + t.cell(i, 14)) * 0 == 0);
    }
}

proof fn lemma_range_columns(w: EncryptionWitness, spec: RangeSpec, n: int, t: Matrix)
    requires
        range::in_range(spec, w@.m, n),
        regev::low_value(w@.m, spec.value_bits as int) >= 0,
        has_range_entries(w@.m, spec, n, t),
    ensures
        range_columns(spec, w.m@, n, t),
{
    let x = w@.m;
    assert forall|i: int| #![trigger t.cell(i, 12)] 0 <= i < n implies t.cell(i, 12) == if i
        < spec.value_bits {
        1int
    } else {
        0
    } by {
        lemma_range_row(x, spec, n, t, i);
    }
    assert forall|i: int| #![trigger t.cell(i, 13)] 0 <= i < n implies t.cell(i, 13) == if i
        < spec.value_bits {
        pow2(i as nat) as int
    } else {
        0
    } by {
        lemma_range_row(x, spec, n, t, i);
    }
    assert forall|i: int| #![trigger t.cell(i, 14)] 0 <= i < n implies 0 <= t.cell(i, 14) <= 1 && (i
        >= spec.value_bits ==> t.cell(i, 14) == 0) by {
        lemma_range_row(x, spec, n, t, i);
    }
    assert forall|i: int| #![trigger t.cell(i, 16)] 0 <= i < n implies t.cell(i, 16) == if i
        < spec.value_bits {
        spec.value_bits - i
    } else {
        0int
    } by {
        lemma_range_row(x, spec, n, t, i);
    }
    assert forall|i: int| #![trigger t.cell(i, 15)] 0 <= i < n - 1 implies t.cell(i, 15) == (
    w.m@[i] + t.cell(i, 14)) * t.cell(i, 13) + t.cell(i + 1, 15) by {
        lemma_range_row(x, spec, n, t, i);
        lemma_range_row(x, spec, n, t, i + 1);
        range::lemma_remaining_range(spec, x, n, i);
        assert(x[i] == w.m@[i]);
    }
    lemma_range_row(x, spec, n, t, 0);
    lemma_range_row(x, spec, n, t, n - 1);
    range::lemma_remaining_range(spec, x, n, n - 1);
    range::lemma_contributions(spec, x, n);
    assert(x[n - 1] == w.m@[n - 1]);
}

/// Row `i` of the main trace of a transfer without the carry, as integers.
pub open spec fn transfer_row(
    pk: PublicKey,
    t: Transfer,
    w: TransferWitness,
    i: int,
) -> Seq<int> {
    seq![pk.a@[i]@, pk.b@[i]@] + role_row(t.before, w.before, i) + role_row(t.delta, w.delta, i)
        + role_row(t.after, w.after, i)
}

/// The ten entries of one ciphertext in row `i` of the trace of a transfer.
pub open spec fn role_row(ct: Ciphertext, w: EncryptionWitness, i: int) -> Seq<int> {
    seq![
        ct.c1@[i]@,
        ct.c2@[i]@,
        w.r@[i] as int,
        w.e1u@[i] as int,
        w.e1v@[i] as int,
        w.e2u@[i] as int,
        w.e2v@[i] as int,
        w.m@[i] as int,
        w.k1@[i]@,
        w.k2@[i]@,
    ]
}

/// Digit `i` of `after + delta = before`: the carries in and out are bits, and
/// the sum, which fits a byte, is the digit of `before` plus twice the carry out.
pub open spec fn carry_step(
    before: Seq<u8>,
    delta: Seq<u8>,
    after: Seq<u8>,
    c: Seq<int>,
    i: int,
) -> bool {
    &&& 0 <= c[i] <= 1
    &&& 0 <= c[i + 1] <= 1
    &&& after[i] + delta[i] + c[i] == before[i] + 2 * c[i + 1]
    &&& after[i] + delta[i] + c[i] <= 255
}

/// A carry chain for `after + delta = before`: it starts and ends with 0.
pub open spec fn is_carry_chain(
    before: Seq<u8>,
    delta: Seq<u8>,
    after: Seq<u8>,
    c: Seq<int>,
    n: int,
) -> bool {
    &&& c.len() == n + 1
    &&& c[0] == 0
    &&& c[n] == 0
    &&& forall|i: int| 0 <= i < n ==> #[trigger] carry_step(before, delta, after, c, i)
}

proof fn lemma_chain_carries(w: TransferWitness, c: Seq<int>, n: int, i: int)
    requires
        w.before.m@.len() >= n,
        w.delta.m@.len() >= n,
        w.after.m@.len() >= n,
        is_carry_chain(w.before.m@, w.delta.m@, w.after.m@, c, n),
        0 <= i <= n,
    ensures
        transfer::carry(w.before@.m, w.delta@.m, w.after@.m, i) == c[i],
    decreases i,
{
    if i > 0 {
        lemma_chain_carries(w, c, n, i - 1);
        assert(carry_step(w.before.m@, w.delta.m@, w.after.m@, c, i - 1));
    }
}

/// The witnesses of a transfer are consistent exactly if there is a carry chain
/// for their messages.
pub proof fn law_transfer_consistency(w: TransferWitness, n: usize, r: bool)
    requires
        w.before.m@.len() >= n,
        w.delta.m@.len() >= n,
        w.after.m@.len() >= n,
        call_ensures(transfer::is_consistent, (&w, n), r),
    ensures
        r <==> exists|c: Seq<int>|
            #[trigger] is_carry_chain(w.before.m@, w.delta.m@, w.after.m@, c, n as int),
        call_requires(transfer::is_consistent, (&w, n)),
{
    let b = w.before@.m;
    let d = w.delta@.m;
    let a = w.after@.m;
    if r {
        let c = Seq::new((n + 1) as nat, |i: int| transfer::carry(b, d, a, i));
        assert forall|i: int| 0 <= i < n implies #[trigger] carry_step(
            w.before.m@,
            w.delta.m@,
            w.after.m@,
            c,
            i,
        ) by {
            let out = transfer::carry_out(b, d, a, i);
            assert(out == 0 || out == 2);
            assert(transfer::digit_fits(b, d, a, i));
            if i > 0 {
                let prev = transfer::carry_out(b, d, a, i - 1);
                assert(prev == 0 || prev == 2);
            }
        }
        assert(is_carry_chain(w.before.m@, w.delta.m@, w.after.m@, c, n as int));
    }
    if exists|c: Seq<int>|
        #[trigger] is_carry_chain(w.before.m@, w.delta.m@, w.after.m@, c, n as int) {
        let c = choose|c: Seq<int>|
            #[trigger] is_carry_chain(w.before.m@, w.delta.m@, w.after.m@, c, n as int);
        lemma_chain_is_consistent(w, c, n as int);
    }
}

/// Binary witnesses are consistent exactly if the values conserve: what was
/// there before is what is there after and what was moved.
pub proof fn law_consistency_is_conservation(w: TransferWitness, n: usize, r: bool)
    requires
        w.before.m@.len() == n,
        w.delta.m@.len() == n,
        w.after.m@.len() == n,
        forall|i: int| 0 <= i < n ==> #[trigger] w.before.m@[i] <= 1,
        forall|i: int| 0 <= i < n ==> #[trigger] w.delta.m@[i] <= 1,
        forall|i: int| 0 <= i < n ==> #[trigger] w.after.m@[i] <= 1,
        call_ensures(transfer::is_consistent, (&w, n), r),
    ensures
        r <==> regev::weighted(w.before@.m) == regev::weighted(w.after@.m) + regev::weighted(
            w.delta@.m,
        ),
{
    let b = w.before@.m;
    let d = w.delta@.m;
    let a = w.after@.m;
    transfer::law_chain_closes_iff_conservation(b, d, a, n as int);
    if transfer::chain_closes(b, d, a, n as int) {
        assert forall|i: int| 0 <= i < n implies #[trigger] transfer::digit_fits(b, d, a, i) by {
            if i > 0 {
                let prev = transfer::carry_out(b, d, a, i - 1);
                assert(prev == 0 || prev == 2);
            }
            assert(w.after.m@[i] <= 1 && w.delta.m@[i] <= 1);
        }
    }
}

/// The first half of the key has `n` coefficients, and no other polynomial of a
/// transfer has fewer.
pub open spec fn transfer_sized(pk: PublicKey, t: Transfer, w: TransferWitness, n: int) -> bool {
    &&& pk.a@.len() == n
    &&& pk.b@.len() >= n
    &&& role_sized(t.before, w.before, n)
    &&& role_sized(t.delta, w.delta, n)
    &&& role_sized(t.after, w.after, n)
}

proof fn lemma_transfer_entry(
    pk: PublicKey,
    t: Transfer,
    w: TransferWitness,
    n: int,
    i: int,
    col: int,
)
    requires
        transfer_sized(pk, t, w, n),
        0 <= i < n,
        0 <= col < 32,
    ensures
        transfer::transfer_entry(pk@, t, w, i, col) == transfer_row(pk, t, w, i)[col],
{
    let row = transfer_row(pk, t, w, i);
    if col >= 2 {
        let j = (col - 2) / 10;
        let off = (col - 2) % 10;
        assert(j == 0 || j == 1 || j == 2);
        assert(off == 0 || off == 1 || off == 2 || off == 3 || off == 4 || off == 5 || off == 6
            || off == 7 || off == 8 || off == 9);
        let part = if j == 0 {
            role_row(t.before, w.before, i)
        } else if j == 1 {
            role_row(t.delta, w.delta, i)
        } else {
            role_row(t.after, w.after, i)
        };
        assert(row[col] == part[off]);
    }
}

/// The trace of a transfer has one row for each coefficient: the key, the three
/// ciphertexts with their witnesses, and the carry chain of the messages.
pub proof fn law_transfer_trace(
    pk: PublicKey,
    w: TransferWitness,
    t: Transfer,
    c: Seq<int>,
    m: Matrix,
    i: int,
    col: int,
)
    requires
        transfer_sized(pk, t, w, pk.a@.len() as int),
        is_carry_chain(w.before.m@, w.delta.m@, w.after.m@, c, pk.a@.len() as int),
        call_ensures(transfer::generate_transfer_trace, (&pk, &w, &t), m),
        0 <= i < pk.a@.len(),
        0 <= col < 32,
    ensures
        call_requires(transfer::generate_transfer_trace, (&pk, &w, &t)),
        m.width == 33,
        m.values@.len() == 33 * pk.a@.len(),
        m.values@[33 * i + col]@ == transfer_row(pk, t, w, i)[col] % field::q(),
        m.values@[33 * i + 32]@ == c[i],
{
    let n = pk.a@.len() as int;
    lemma_transfer_entry(pk, t, w, n, i, col);
    lemma_chain_carries(w, c, n, i);
    lemma_chain_is_consistent(w, c, n);
    assert(m.cell(i, col) == m.values@[33 * i + col]@);
    assert(m.cell(i, 32) == m.values@[33 * i + 32]@);
    assert(carry_step(w.before.m@, w.delta.m@, w.after.m@, c, i));
}

// ---------------------------------------------------------------------------
// What is handed to the prover.
// ---------------------------------------------------------------------------
/// One encryption is handed over for every pair of ciphertext and witness, for
/// a batch of any size: its trace, its statement and its arguments.
pub proof fn law_encryption_instances(
    params: RegevParams,
    pk: PublicKey,
    cts: &[Ciphertext],
    ws: &[EncryptionWitness],
    r: Vec<Instance>,
    k: nat,
    j: int,
    i: int,
    col: int,
)
    requires
        params.n == pow2(k),
        params.plain_bits < 32,
        cts@.len() > 0,
        ws@.len() == cts@.len(),
        forall|j: int|
            0 <= j < cts@.len() ==> all_sized(pk, #[trigger] cts@[j], ws@[j], params.n as int),
        call_ensures(prove::encryption_instances, (&params, &pk, cts, ws), r),
        0 <= j < cts@.len(),
        0 <= i < params.n,
        0 <= col < 12,
    ensures
        call_requires(prove::encryption_instances, (&params, &pk, cts, ws)),
        r@.len() == cts@.len(),
        r@[j].trace.width == 12,
        r@[j].trace.values@.len() == 12 * params.n,
        r@[j].trace.values@[12 * i + col]@ == encryption_row(pk, cts@[j], ws@[j], i)[col]
            % field::q(),
        r@[j].public_values@ == pk.a@ + pk.b@ + cts@[j].c1@ + cts@[j].c2@,
        encryption_arguments(r@[j].lookups@),
{
    dft::lemma_log2_pow2(k);
    assert(all_sized(pk, cts@[j], ws@[j], params.n as int));
    lemma_trace_entry(pk, cts@[j], ws@[j], params.n as int, i, col);
    let m = r@[j].trace;
    assert(m.cell(i, col) == m.values@[12 * i + col]@);
    lemma_encryption_arguments(r@[j].lookups@);
}

/// One range proof is handed over for every pair of ciphertext and witness.
pub proof fn law_range_instances(
    params: RegevParams,
    pk: PublicKey,
    cts: &[Ciphertext],
    ws: &[EncryptionWitness],
    spec: RangeSpec,
    r: Vec<Instance>,
    k: nat,
    j: int,
    i: int,
    col: int,
)
    requires
        params.n == pow2(k),
        params.plain_bits < 32,
        cts@.len() > 0,
        ws@.len() == cts@.len(),
        1 <= spec.value_bits <= 29,
        spec.value_bits <= params.n,
        1 <= spec.bound <= pow2(spec.value_bits as nat),
        forall|j: int|
            0 <= j < cts@.len() ==> all_sized(pk, #[trigger] cts@[j], ws@[j], params.n as int) && (
            forall|b: int| 0 <= b < spec.value_bits ==> #[trigger] ws@[j].m@[b] <= 1) && 0
                <= regev::low_value(ws@[j]@.m, spec.value_bits as int) < spec.bound,
        call_ensures(prove::range_instances, (&params, &pk, cts, ws, spec), r),
        0 <= j < cts@.len(),
        0 <= i < params.n,
        0 <= col < 12,
    ensures
        call_requires(prove::range_instances, (&params, &pk, cts, ws, spec)),
        r@.len() == cts@.len(),
        r@[j].trace.width == 17,
        r@[j].trace.values@.len() == 17 * params.n,
        r@[j].trace.cell(i, col) == encryption_row(pk, cts@[j], ws@[j], i)[col] % field::q(),
        range_columns(spec, ws@[j].m@, params.n as int, r@[j].trace),
        r@[j].public_values@ == pk.a@ + pk.b@ + cts@[j].c1@ + cts@[j].c2@,
        encryption_arguments(r@[j].lookups@),
{
    dft::lemma_log2_pow2(k);
    let n = params.n as int;
    assert forall|j: int| 0 <= j < cts@.len() implies prove::provable_in_range(
        pk,
        #[trigger] cts@[j],
        ws@[j],
        spec,
        n,
    ) by {
        assert(all_sized(pk, cts@[j], ws@[j], n));
        assert forall|b: int| 0 <= b < spec.value_bits implies 0 <= #[trigger] ws@[j]@.m[b]
            <= 1 by {
            assert(ws@[j].m@[b] <= 1);
        }
    }
    assert(all_sized(pk, cts@[j], ws@[j], n));
    assert(prove::provable_in_range(pk, cts@[j], ws@[j], spec, n));
    lemma_trace_entry(pk, cts@[j], ws@[j], n, i, col);
    lemma_range_columns(ws@[j], spec, n, r@[j].trace);
    lemma_encryption_arguments(r@[j].lookups@);
}

/// One transfer is handed over for every pair of statement and witness.
pub proof fn law_transfer_instances(
    params: RegevParams,
    pk: PublicKey,
    ts: &[Transfer],
    ws: &[TransferWitness],
    cs: Seq<Seq<int>>,
    r: Vec<Instance>,
    k: nat,
    j: int,
    i: int,
    col: int,
)
    requires
        params.n == pow2(k),
        params.plain_bits < 32,
        ts@.len() > 0,
        ws@.len() == ts@.len(),
        forall|j: int|
            0 <= j < ts@.len() ==> transfer_sized(pk, #[trigger] ts@[j], ws@[j], params.n as int)
                && is_carry_chain(
                ws@[j].before.m@,
                ws@[j].delta.m@,
                ws@[j].after.m@,
                cs[j],
                params.n as int,
            ),
        call_ensures(prove::transfer_instances, (&params, &pk, ts, ws), r),
        0 <= j < ts@.len(),
        0 <= i < params.n,
        0 <= col < 32,
    ensures
        call_requires(prove::transfer_instances, (&params, &pk, ts, ws)),
        r@.len() == ts@.len(),
        r@[j].trace.width == 33,
        r@[j].trace.values@.len() == 33 * params.n,
        r@[j].trace.values@[33 * i + col]@ == transfer_row(pk, ts@[j], ws@[j], i)[col]
            % field::q(),
        r@[j].trace.values@[33 * i + 32]@ == cs[j][i],
        r@[j].public_values@ == pk.a@ + pk.b@ + ts@[j].before.c1@ + ts@[j].before.c2@
            + ts@[j].delta.c1@ + ts@[j].delta.c2@ + ts@[j].after.c1@ + ts@[j].after.c2@,
        transfer_arguments(r@[j].lookups@),
{
    dft::lemma_log2_pow2(k);
    let n = params.n as int;
    lemma_pow2_pos(k);
    assert forall|j: int| 0 <= j < ts@.len() implies prove::provable_transfer(
        pk,
        #[trigger] ts@[j],
        ws@[j],
        n,
    ) by {
        assert(transfer_sized(pk, ts@[j], ws@[j], n));
        lemma_chain_is_consistent(ws@[j], cs[j], n);
    }
    assert(transfer_sized(pk, ts@[j], ws@[j], n));
    lemma_transfer_entry(pk, ts@[j], ws@[j], n, i, col);
    lemma_chain_carries(ws@[j], cs[j], n, i);
    let m = r@[j].trace;
    assert(m.cell(i, col) == m.values@[33 * i + col]@);
    assert(m.cell(i, 32) == m.values@[33 * i + 32]@);
    assert(carry_step(ws@[j].before.m@, ws@[j].delta.m@, ws@[j].after.m@, cs[j], i));
    lemma_transfer_arguments(r@[j].lookups@);
}

/// An argument on one expression, with its own auxiliary column.
pub open spec fn argues(l: Lookup, e: Expr, col: int) -> bool {
    &&& l.element_exprs@.len() == 1
    &&& l.element_exprs@[0]@.len() == 1
    &&& l.element_exprs@[0]@[0] == e
    &&& l.multiplicities_exprs@.len() == 0
    &&& l.columns@.len() == 1
    &&& l.columns@[0] == col
}

/// Main column `col` of the current row.
pub open spec fn main_column(col: usize) -> Expr {
    Expr::Main { offset: 0, index: col }
}

/// The difference of two main columns of the current row.
pub open spec fn main_difference(u: usize, v: usize) -> Expr {
    Expr::Sub(Box::new(main_column(u)), Box::new(main_column(v)))
}

/// The value of the argument is published under the name.
pub open spec fn publishes(l: Lookup, name: Seq<char>) -> bool {
    l.kind matches Kind::Global(s) && s@ == name
}

/// The arguments of an encryption: `a`, `b`, `c1` and `c2` are published, `r`,
/// the two noises, `m` and the two quotients are not.
pub open spec fn encryption_arguments(ls: Seq<Lookup>) -> bool {
    &&& ls.len() == 10
    &&& argues(ls[0], main_column(0), 0) && publishes(ls[0], "eval:a"@)
    &&& argues(ls[1], main_column(1), 1) && publishes(ls[1], "eval:b"@)
    &&& argues(ls[2], main_column(2), 2) && publishes(ls[2], "eval:c1"@)
    &&& argues(ls[3], main_column(3), 3) && publishes(ls[3], "eval:c2"@)
    &&& argues(ls[4], main_column(4), 4) && ls[4].kind is Local
    &&& argues(ls[5], main_difference(5, 6), 5) && ls[5].kind is Local
    &&& argues(ls[6], main_difference(7, 8), 6) && ls[6].kind is Local
    &&& argues(ls[7], main_column(9), 7) && ls[7].kind is Local
    &&& argues(ls[8], main_column(10), 8) && ls[8].kind is Local
    &&& argues(ls[9], main_column(11), 9) && ls[9].kind is Local
}

/// The arguments of one ciphertext of a transfer, whose main columns start at
/// `c` and whose auxiliary columns start at `a`.
pub open spec fn role_arguments(
    ls: Seq<Lookup>,
    c: int,
    a: int,
    c1: Seq<char>,
    c2: Seq<char>,
) -> bool {
    &&& argues(ls[a], main_column(c as usize), a) && publishes(ls[a], c1)
    &&& argues(ls[a + 1], main_column((c + 1) as usize), a + 1) && publishes(ls[a + 1], c2)
    &&& argues(ls[a + 2], main_column((c + 2) as usize), a + 2) && ls[a + 2].kind is Local
    &&& argues(ls[a + 3], main_difference((c + 3) as usize, (c + 4) as usize), a + 3)
        && ls[a + 3].kind is Local
    &&& argues(ls[a + 4], main_difference((c + 5) as usize, (c + 6) as usize), a + 4)
        && ls[a + 4].kind is Local
    &&& argues(ls[a + 5], main_column((c + 7) as usize), a + 5) && ls[a + 5].kind is Local
    &&& argues(ls[a + 6], main_column((c + 8) as usize), a + 6) && ls[a + 6].kind is Local
    &&& argues(ls[a + 7], main_column((c + 9) as usize), a + 7) && ls[a + 7].kind is Local
}

/// The arguments of a transfer: the key, and the three ciphertexts in order.
pub open spec fn transfer_arguments(ls: Seq<Lookup>) -> bool {
    &&& ls.len() == 26
    &&& argues(ls[0], main_column(0), 0) && publishes(ls[0], "eval:a"@)
    &&& argues(ls[1], main_column(1), 1) && publishes(ls[1], "eval:b"@)
    &&& role_arguments(ls, 2, 2, "eval:c1:before"@, "eval:c2:before"@)
    &&& role_arguments(ls, 12, 10, "eval:c1:delta"@, "eval:c2:delta"@)
    &&& role_arguments(ls, 22, 18, "eval:c1:after"@, "eval:c2:after"@)
}

proof fn lemma_encryption_arguments(ls: Seq<Lookup>)
    requires
        air::is_enc_lookups(ls),
    ensures
        encryption_arguments(ls),
{
    assert forall|i: int| 0 <= i < 10 implies argues(#[trigger] ls[i], ls[i].expr(), i) by {
        assert(ls[i].wf());
    }
    assert(ls[4].kind is Local && ls[5].kind is Local && ls[6].kind is Local && ls[7].kind is Local
        && ls[8].kind is Local && ls[9].kind is Local);
}

proof fn lemma_transfer_arguments(ls: Seq<Lookup>)
    requires
        transfer::is_transfer_lookups(ls),
    ensures
        transfer_arguments(ls),
{
    assert forall|i: int| 0 <= i < 26 implies argues(#[trigger] ls[i], ls[i].expr(), i) by {
        assert(ls[i].wf());
    }
    assert(transfer::ct_start(0) == 2 && transfer::ct_start(1) == 12 && transfer::ct_start(2)
        == 22);
    assert(transfer::aux_start(0) == 2 && transfer::aux_start(1) == 10 && transfer::aux_start(2)
        == 18);
}

/// The arguments of the three constraint systems.
pub proof fn law_arguments(
    enc: RegevEncAir,
    ranged: RegevRangeAir,
    moved: RegevTransferAir,
    x: Vec<Lookup>,
    y: Vec<Lookup>,
    z: Vec<Lookup>,
)
    requires
        call_ensures(RegevEncAir::get_lookups, (&enc,), x),
        call_ensures(RegevRangeAir::get_lookups, (&ranged,), y),
        call_ensures(RegevTransferAir::get_lookups, (&moved,), z),
    ensures
        encryption_arguments(x@),
        encryption_arguments(y@),
        transfer_arguments(z@),
{
    lemma_encryption_arguments(x@);
    lemma_encryption_arguments(y@);
    lemma_transfer_arguments(z@);
}

/// The constraint systems of a parameter set have its dimension and its scale,
/// and the range that was asked for.
pub proof fn law_constraint_systems(
    params: RegevParams,
    spec: RangeSpec,
    k: nat,
    d: u32,
    enc: RegevEncAir,
    ranged: RegevRangeAir,
    moved: RegevTransferAir,
)
    requires
        params.n == pow2(k),
        params.plain_bits < 32,
        1 <= spec.value_bits <= 29,
        spec.value_bits <= params.n,
        1 <= spec.bound <= pow2(spec.value_bits as nat),
        call_ensures(RegevParams::delta, (&params,), d),
        call_ensures(prove::encryption_air, (&params,), enc),
        call_ensures(prove::range_air, (&params, spec), ranged),
        call_ensures(prove::transfer_air, (&params,), moved),
    ensures
        enc.n == params.n,
        ranged.enc.n == params.n,
        moved.n == params.n,
        enc.delta@ == d as int % field::q(),
        ranged.enc.delta@ == d as int % field::q(),
        moved.delta_scale@ == d as int % field::q(),
        ranged.spec == spec,
        call_requires(prove::encryption_air, (&params,)),
        call_requires(prove::range_air, (&params, spec)),
        call_requires(prove::transfer_air, (&params,)),
        call_requires(RegevEncAir::new, (params.n, enc.delta)),
        call_requires(RegevRangeAir::new, (params.n, enc.delta, spec)),
        call_requires(RegevTransferAir::new, (params.n, enc.delta)),
        call_requires(RegevEncAir::eval, (&enc,)),
        call_requires(RegevRangeAir::eval, (&ranged,)),
        call_requires(RegevTransferAir::eval, (&moved,)),
{
    dft::lemma_log2_pow2(k);
}

proof fn lemma_chain_is_consistent(w: TransferWitness, c: Seq<int>, n: int)
    requires
        0 <= n,
        w.before.m@.len() >= n,
        w.delta.m@.len() >= n,
        w.after.m@.len() >= n,
        is_carry_chain(w.before.m@, w.delta.m@, w.after.m@, c, n),
    ensures
        transfer::consistent(w, n),
{
    let b = w.before@.m;
    let d = w.delta@.m;
    let a = w.after@.m;
    assert forall|k: int| 0 <= k < n implies (#[trigger] transfer::carry_out(b, d, a, k) == 0
        || transfer::carry_out(b, d, a, k) == 2) by {
        lemma_chain_carries(w, c, n, k);
        assert(carry_step(w.before.m@, w.delta.m@, w.after.m@, c, k));
    }
    assert forall|k: int| 0 <= k < n implies #[trigger] transfer::digit_fits(b, d, a, k) by {
        lemma_chain_carries(w, c, n, k);
        assert(carry_step(w.before.m@, w.delta.m@, w.after.m@, c, k));
    }
    lemma_chain_carries(w, c, n, n);
}

// ---------------------------------------------------------------------------
// What the constraints demand.
// ---------------------------------------------------------------------------
/// The entries of a main column are all among the given residues.
pub open spec fn column_among(t: BaseTables, col: int, x: int, y: int, z: int) -> bool {
    forall|row: int|
        0 <= row < t.height ==> sums::cong(#[trigger] (t.main)(row, col), x) || sums::cong(
            (t.main)(row, col),
            y,
        ) || sums::cong((t.main)(row, col), z)
}

/// `p*r + e + mask = c + (z^n + 1)*k`, over the first row of the auxiliary
/// columns.
pub open spec fn ring_identity(
    t: Tables,
    n: nat,
    p: int,
    r: int,
    e: int,
    mask: Ext,
    c: int,
    k: int,
) -> bool {
    (t.aux)(0, p).times((t.aux)(0, r)).plus((t.aux)(0, e)).plus(mask).cong(
        (t.aux)(0, c).plus(t.randomness[0].pow(n).plus(Ext::of(1)).times((t.aux)(0, k))),
    )
}

/// The witness columns of one ciphertext, from `c` on: `r` in `{-1, 0, 1}`, the
/// four halves in `{0, 1, 2}`, the message in `{0, 1}`.
pub open spec fn small_witness(t: BaseTables, c: int) -> bool {
    &&& column_among(t, c, -1, 0, 1)
    &&& column_among(t, c + 1, 0, 1, 2)
    &&& column_among(t, c + 2, 0, 1, 2)
    &&& column_among(t, c + 3, 0, 1, 2)
    &&& column_among(t, c + 4, 0, 1, 2)
    &&& column_among(t, c + 5, 0, 1, 1)
}

proof fn lemma_small_witness(t: BaseTables, c: int)
    ensures
        air::small_columns(t, c, c + 1, c + 2, c + 3, c + 4, c + 5) <==> small_witness(t, c),
{
    lemma_among(t, c);
    lemma_among(t, c + 1);
    lemma_among(t, c + 2);
    lemma_among(t, c + 3);
    lemma_among(t, c + 4);
    lemma_among(t, c + 5);
}

proof fn lemma_among(t: BaseTables, c: int)
    ensures
        air::trits(t, c) <==> column_among(t, c, -1, 0, 1),
        air::halves(t, c) <==> column_among(t, c, 0, 1, 2),
        air::bits(t, c) <==> column_among(t, c, 0, 1, 1),
{
    if column_among(t, c, -1, 0, 1) {
        assert forall|row: int|
            #![trigger (t.main)(row, c)]
            0 <= row < t.height implies air::is_trit((t.main)(row, c)) by {}
    }
    if column_among(t, c, 0, 1, 2) {
        assert forall|row: int|
            #![trigger (t.main)(row, c)]
            0 <= row < t.height implies air::is_half((t.main)(row, c)) by {}
    }
    if column_among(t, c, 0, 1, 1) {
        assert forall|row: int|
            #![trigger (t.main)(row, c)]
            0 <= row < t.height implies air::is_bit((t.main)(row, c)) by {}
    }
}

proof fn lemma_ring_identity(t: Tables, n: nat, p: int, r: int, e: int, mask: Ext, c: int, k: int)
    ensures
        air::identity_residue(t, n as int, p, r, e, mask, c, k).cong(Ext::of(0)) <==> ring_identity(
            t,
            n,
            p,
            r,
            e,
            mask,
            c,
            k,
        ),
{
}

/// The relation of an encryption: a small witness, and the two ring identities.
pub open spec fn encryption_demands(n: nat, delta: int, t: Tables) -> bool {
    &&& small_witness(t.base, 4)
    &&& ring_identity(t, n, 0, 4, 5, Ext::of(0), 2, 8)
    &&& ring_identity(t, n, 1, 4, 6, (t.aux)(0, 7).scaled(delta), 3, 9)
}

/// The constraints of an encryption hold of exactly the tables with a small
/// witness and the two ring identities at the challenge.
pub proof fn law_encryption_constraints(enc: RegevEncAir, cs: Vec<Constraint>, t: Tables)
    requires
        call_ensures(RegevEncAir::eval, (&enc,), cs),
        t.base.height > 0,
    ensures
        symbolic::satisfied(cs@, t) <==> encryption_demands(enc.n as nat, enc.delta@, t),
        cs@.len() == 8,
{
    lemma_small_witness(t.base, 4);
    lemma_ring_identity(t, enc.n as nat, 0, 4, 5, Ext::of(0), 2, 8);
    lemma_ring_identity(t, enc.n as nat, 1, 4, 6, (t.aux)(0, 7).scaled(enc.delta@), 3, 9);
}

/// The relation of the range columns.
pub open spec fn range_demands(spec: RangeSpec, t: BaseTables) -> bool {
    let h = t.height;
    &&& column_among(t, 12, 0, 1, 1)
    &&& column_among(t, 14, 0, 1, 1)
    &&& sums::cong((t.main)(0, 12), 1)
    &&& sums::cong((t.main)(0, 13), 1)
    &&& sums::cong((t.main)(0, 15), spec.bound - 1)
    &&& sums::cong((t.main)(0, 16), spec.value_bits as int)
    &&& forall|row: int|
        #![trigger (t.main)(row, 14)]
        0 <= row < h ==> sums::cong((t.main)(row, 14) * (1 - (t.main)(row, 12)), 0)
    &&& forall|row: int|
        #![trigger (t.main)(row, 12)]
        0 <= row < h - 1 ==> {
            &&& sums::cong((t.main)(row + 1, 12) * (1 - (t.main)(row, 12)), 0)
            &&& sums::cong((t.main)(row + 1, 13), 2 * (t.main)(row, 13) * (t.main)(row + 1, 12))
            &&& sums::cong(
                (t.main)(row, 15),
                ((t.main)(row, 9) + (t.main)(row, 14)) * (t.main)(row, 13) + (t.main)(row + 1, 15),
            )
            &&& sums::cong((t.main)(row, 16), (t.main)(row, 12) + (t.main)(row + 1, 16))
        }
    &&& sums::cong(
        (t.main)(h - 1, 15),
        ((t.main)(h - 1, 9) + (t.main)(h - 1, 14)) * (t.main)(h - 1, 13),
    )
    &&& sums::cong((t.main)(h - 1, 16), (t.main)(h - 1, 12))
}

proof fn lemma_range_demands(spec: RangeSpec, b: BaseTables)
    ensures
        range::range_relation(spec, b) <==> range_demands(spec, b),
{
    lemma_among(b, 12);
    lemma_among(b, 14);
    if range::range_relation(spec, b) {
        assert forall|row: int| #![trigger (b.main)(row, 12)] 0 <= row < b.height - 1 implies {
            &&& sums::cong((b.main)(row + 1, 12) * (1 - (b.main)(row, 12)), 0)
            &&& sums::cong((b.main)(row + 1, 13), 2 * (b.main)(row, 13) * (b.main)(row + 1, 12))
            &&& sums::cong(
                (b.main)(row, 15),
                ((b.main)(row, 9) + (b.main)(row, 14)) * (b.main)(row, 13) + (b.main)(row + 1, 15),
            )
            &&& sums::cong((b.main)(row, 16), (b.main)(row, 12) + (b.main)(row + 1, 16))
        } by {
            assert(range::step_holds(b, row));
        }
    }
    if range_demands(spec, b) {
        assert forall|row: int|
            #![trigger range::step_holds(b, row)]
            0 <= row < b.height - 1 implies range::step_holds(b, row) by {
            assert((b.main)(row, 12) == (b.main)(row, 12));
        }
    }
}

/// The constraints of an encryption with a range proof hold of exactly the
/// tables that are those of an encryption and whose range columns are a
/// complement for the bound.
pub proof fn law_range_constraints(ranged: RegevRangeAir, cs: Vec<Constraint>, t: Tables)
    requires
        call_ensures(RegevRangeAir::eval, (&ranged,), cs),
        t.base.height > 0,
    ensures
        symbolic::satisfied(cs@, t) <==> encryption_demands(
            ranged.enc.n as nat,
            ranged.enc.delta@,
            t,
        ) && range_demands(ranged.spec, t.base),
        cs@.len() == 21,
{
    let n = ranged.enc.n as nat;
    lemma_small_witness(t.base, 4);
    lemma_ring_identity(t, n, 0, 4, 5, Ext::of(0), 2, 8);
    lemma_ring_identity(t, n, 1, 4, 6, (t.aux)(0, 7).scaled(ranged.enc.delta@), 3, 9);
    lemma_range_demands(ranged.spec, t.base);
}

/// The relation of the adder: the carry column is a chain of bits from 0 to 0.
pub open spec fn adder_demands(t: BaseTables) -> bool {
    let h = t.height;
    &&& column_among(t, 32, 0, 1, 1)
    &&& sums::cong((t.main)(0, 32), 0)
    &&& forall|row: int|
        #![trigger (t.main)(row, 32)]
        0 <= row < h - 1 ==> sums::cong(
            (t.main)(row, 29) + (t.main)(row, 19) + (t.main)(row, 32) - (t.main)(row, 9),
            2 * (t.main)(row + 1, 32),
        )
    &&& sums::cong(
        (t.main)(h - 1, 29) + (t.main)(h - 1, 19) + (t.main)(h - 1, 32) - (t.main)(h - 1, 9),
        0,
    )
}

/// The relation of one ciphertext of a transfer, whose witness columns start at
/// `c` and whose auxiliary columns start at `a`.
pub open spec fn role_demands(n: nat, delta: int, t: Tables, c: int, a: int) -> bool {
    &&& small_witness(t.base, c)
    &&& ring_identity(t, n, 0, a + 2, a + 3, Ext::of(0), a, a + 6)
    &&& ring_identity(t, n, 1, a + 2, a + 4, (t.aux)(0, a + 5).scaled(delta), a + 1, a + 7)
}

proof fn lemma_role_demands(n: nat, delta: int, t: Tables, j: int)
    requires
        0 <= j < 3,
    ensures
        transfer::ct_relation(n as int, delta, t, j) <==> role_demands(
            n,
            delta,
            t,
            4 + 10 * j,
            2 + 8 * j,
        ),
{
    let a = 2 + 8 * j;
    lemma_small_witness(t.base, 4 + 10 * j);
    lemma_ring_identity(t, n, 0, a + 2, a + 3, Ext::of(0), a, a + 6);
    lemma_ring_identity(t, n, 1, a + 2, a + 4, (t.aux)(0, a + 5).scaled(delta), a + 1, a + 7);
    assert(transfer::ct_start(j) + 2 == 4 + 10 * j);
    assert(transfer::ct_start(j) + 3 == 4 + 10 * j + 1);
    assert(transfer::ct_start(j) + 4 == 4 + 10 * j + 2);
    assert(transfer::ct_start(j) + 5 == 4 + 10 * j + 3);
    assert(transfer::ct_start(j) + 6 == 4 + 10 * j + 4);
    assert(transfer::ct_start(j) + 7 == 4 + 10 * j + 5);
}

/// The constraints of a transfer hold of exactly the tables in which the three
/// ciphertexts have small witnesses and satisfy the ring identities, and the
/// messages are added up by the carry chain.
pub proof fn law_transfer_constraints(moved: RegevTransferAir, cs: Vec<Constraint>, t: Tables)
    requires
        call_ensures(RegevTransferAir::eval, (&moved,), cs),
        t.base.height > 0,
    ensures
        symbolic::satisfied(cs@, t) <==> {
            &&& role_demands(moved.n as nat, moved.delta_scale@, t, 4, 2)
            &&& role_demands(moved.n as nat, moved.delta_scale@, t, 14, 10)
            &&& role_demands(moved.n as nat, moved.delta_scale@, t, 24, 18)
            &&& adder_demands(t.base)
        },
        cs@.len() == 28,
{
    lemma_role_demands(moved.n as nat, moved.delta_scale@, t, 0);
    lemma_role_demands(moved.n as nat, moved.delta_scale@, t, 1);
    lemma_role_demands(moved.n as nat, moved.delta_scale@, t, 2);
    lemma_among(t.base, 32);
    let b = t.base;
    assert(transfer::ct_start(0) + 7 == 9 && transfer::ct_start(1) + 7 == 19 && transfer::ct_start(
        2,
    ) + 7 == 29);
    if transfer::adder_relation(b) {
        assert forall|row: int|
            #![trigger (b.main)(row, 32)]
            0 <= row < b.height - 1 implies sums::cong(
            (b.main)(row, 29) + (b.main)(row, 19) + (b.main)(row, 32) - (b.main)(row, 9),
            2 * (b.main)(row + 1, 32),
        ) by {
            assert(sums::cong(transfer::row_excess(b, row), 2 * (b.main)(row + 1, 32)));
        }
    }
    if adder_demands(b) {
        assert forall|row: int|
            #![trigger transfer::row_excess(b, row)]
            0 <= row < b.height - 1 implies sums::cong(
            transfer::row_excess(b, row),
            2 * (b.main)(row + 1, 32),
        ) by {
            assert((b.main)(row, 32) == (b.main)(row, 32));
        }
    }
}

/// The smallness constraints, one by one: a ternary entry, a noise half and a
/// bit.
pub proof fn law_smallness_constraints(
    col: usize,
    x: Constraint,
    y: Constraint,
    z: Constraint,
    t: Tables,
)
    requires
        call_ensures(air::ternary_constraint, (col,), x),
        call_ensures(air::cbd_half_constraint, (col,), y),
        call_ensures(air::bit_constraint, (col,), z),
        t.base.height > 0,
    ensures
        x.on_rows(t) <==> column_among(t.base, col as int, -1, 0, 1),
        y.on_rows(t) <==> column_among(t.base, col as int, 0, 1, 2),
        z.on_rows(t) <==> column_among(t.base, col as int, 0, 1, 1),
{
    lemma_among(t.base, col as int);
}

/// The two ring identities, one by one and on any auxiliary columns.
pub proof fn law_identity_constraints(
    n: usize,
    delta: F,
    p: usize,
    r: usize,
    e: usize,
    m: usize,
    c: usize,
    k: usize,
    x: Constraint,
    y: Constraint,
    t: Tables,
)
    requires
        call_ensures(air::first_identity_constraint, (n, p, r, e, c, k), x),
        call_ensures(air::second_identity_constraint, (n, delta, p, r, e, m, c, k), y),
        t.base.height > 0,
    ensures
        x.on_rows(t) <==> ring_identity(
            t,
            n as nat,
            p as int,
            r as int,
            e as int,
            Ext::of(0),
            c as int,
            k as int,
        ),
        y.on_rows(t) <==> ring_identity(
            t,
            n as nat,
            p as int,
            r as int,
            e as int,
            (t.aux)(0, m as int).scaled(delta@),
            c as int,
            k as int,
        ),
{
    let z = Ext::of(0);
    lemma_ring_identity(t, n as nat, p as int, r as int, e as int, z, c as int, k as int);
    let mask = (t.aux)(0, m as int).scaled(delta@);
    lemma_ring_identity(t, n as nat, p as int, r as int, e as int, mask, c as int, k as int);
}

/// Pushing the smallness of one ciphertext adds its six demands to those that
/// were there.
pub proof fn law_pushed_smallness(
    cs: &mut Vec<Constraint>,
    r: usize,
    e1u: usize,
    e1v: usize,
    e2u: usize,
    e2v: usize,
    m: usize,
    t: Tables,
)
    requires
        call_ensures(air::push_smallness, (cs, r, e1u, e1v, e2u, e2v, m), ()),
        t.base.height > 0,
    ensures
        symbolic::satisfied(final(cs)@, t) <==> {
            &&& symbolic::satisfied(old(cs)@, t)
            &&& column_among(t.base, r as int, -1, 0, 1)
            &&& column_among(t.base, e1u as int, 0, 1, 2)
            &&& column_among(t.base, e1v as int, 0, 1, 2)
            &&& column_among(t.base, e2u as int, 0, 1, 2)
            &&& column_among(t.base, e2v as int, 0, 1, 2)
            &&& column_among(t.base, m as int, 0, 1, 1)
        },
{
    lemma_among(t.base, r as int);
    lemma_among(t.base, e1u as int);
    lemma_among(t.base, e1v as int);
    lemma_among(t.base, e2u as int);
    lemma_among(t.base, e2v as int);
    lemma_among(t.base, m as int);
}

/// The parts that arguments are made of, and where the columns of a transfer's
/// ciphertexts start.
pub proof fn law_argument_parts(
    kind: Kind,
    e: Expr,
    u: usize,
    v: usize,
    name: &str,
    l: Lookup,
    x: Expr,
    y: Expr,
    k: Kind,
    j: usize,
    c: usize,
    a: usize,
)
    requires
        call_ensures(air::evaluation, (kind, e, u), l),
        call_ensures(air::local, (u,), x),
        call_ensures(air::difference, (u, v), y),
        call_ensures(air::exposed, (name,), k),
        call_ensures(transfer::ct_base, (j,), c),
        call_ensures(transfer::aux_base, (j,), a),
    ensures
        argues(l, e, u as int),
        l.kind == kind,
        x == main_column(u),
        y == main_difference(u, v),
        k matches Kind::Global(s) && s@ == name@,
        c == 2 + 10 * j,
        a == 2 + 8 * j,
{
}

// ---------------------------------------------------------------------------
// Expressions.
// ---------------------------------------------------------------------------
/// The value of an expression at a row is made up of the values of its parts;
/// rows are read around the end of the table.
pub proof fn law_expression_values(
    x: Expr,
    y: Expr,
    c: u32,
    offset: usize,
    index: usize,
    main: Matrix,
    pv: &[F],
    row: usize,
    u: F,
    v: F,
    r: F,
)
    requires
        main.width > 0,
        main.values@.len() == main.rows() * main.width,
        call_ensures(symbolic::eval_symbolic_at_row, (&x, &main, pv, row), u),
        call_ensures(symbolic::eval_symbolic_at_row, (&y, &main, pv, row), v),
    ensures
        call_ensures(
            symbolic::eval_symbolic_at_row,
            (&Expr::Add(Box::new(x), Box::new(y)), &main, pv, row),
            r,
        ) ==> r@ == (u@ + v@) % field::q(),
        call_ensures(
            symbolic::eval_symbolic_at_row,
            (&Expr::Sub(Box::new(x), Box::new(y)), &main, pv, row),
            r,
        ) ==> r@ == (u@ - v@) % field::q(),
        call_ensures(
            symbolic::eval_symbolic_at_row,
            (&Expr::Mul(Box::new(x), Box::new(y)), &main, pv, row),
            r,
        ) ==> r@ == (u@ * v@) % field::q(),
        call_ensures(
            symbolic::eval_symbolic_at_row,
            (&Expr::Neg(Box::new(x)), &main, pv, row),
            r,
        ) ==> r@ == (-u@) % field::q(),
        call_ensures(
            symbolic::eval_symbolic_at_row,
            (&Expr::Constant(c), &main, pv, row),
            r,
        ) ==> r@ == c as int % field::q(),
        index < pv@.len() && call_ensures(
            symbolic::eval_symbolic_at_row,
            (&Expr::Public(index), &main, pv, row),
            r,
        ) ==> r@ == pv@[index as int]@,
        index < main.width && row + offset < main.rows() && call_ensures(
            symbolic::eval_symbolic_at_row,
            (&Expr::Main { offset, index }, &main, pv, row),
            r,
        ) ==> r@ == main.values@[(row + offset) * main.width + index]@,
        index < main.width && row < main.rows() && row + offset == main.rows() && call_ensures(
            symbolic::eval_symbolic_at_row,
            (&Expr::Main { offset, index }, &main, pv, row),
            r,
        ) ==> r@ == main.values@[index as int]@,
{
    let t = main.tables(field::vals(pv@));
    let a = x.value(t, row as int);
    let b = y.value(t, row as int);
    let q = field::q();
    sums::lemma_cong_mod(a);
    sums::lemma_cong_mod(b);
    sums::lemma_mod_add2(a, b);
    sums::lemma_mod_sub2(a, b);
    sums::lemma_cong_mul(a, u@, b, v@);
    sums::lemma_mod_sub2(0, a);
    let s = Expr::Add(Box::new(x), Box::new(y));
    assert(s.value(t, row as int) == a + b);
    let s = Expr::Sub(Box::new(x), Box::new(y));
    assert(s.value(t, row as int) == a - b);
    let s = Expr::Mul(Box::new(x), Box::new(y));
    assert(s.value(t, row as int) == a * b);
    let s = Expr::Neg(Box::new(x));
    assert(s.value(t, row as int) == -a);
    if index < pv@.len() {
        let s = Expr::Public(index);
        pv@[index as int].lemma_view_range();
        assert(s.value(t, row as int) == pv@[index as int]@);
        vstd::arithmetic::div_mod::lemma_small_mod(pv@[index as int]@ as nat, q as nat);
    }
    if index < main.width && row + offset < main.rows() {
        let s = Expr::Main { offset, index };
        vstd::arithmetic::div_mod::lemma_small_mod((row + offset) as nat, main.rows() as nat);
        let e = main.values@[(row + offset) * main.width + index];
        e.lemma_view_range();
        assert(s.value(t, row as int) == main.cell(row + offset, index as int));
        vstd::arithmetic::div_mod::lemma_small_mod(e@ as nat, q as nat);
    }
    if index < main.width && row < main.rows() && row + offset == main.rows() {
        let s = Expr::Main { offset, index };
        vstd::arithmetic::div_mod::lemma_mod_self_0(main.rows());
        let e = main.values@[index as int];
        e.lemma_view_range();
        assert(0 * main.width == 0);
        assert(s.value(t, row as int) == main.cell(0, index as int));
        vstd::arithmetic::div_mod::lemma_small_mod(e@ as nat, q as nat);
    }
}

/// An expression can be evaluated where what it reads is there.
pub proof fn law_expression_is_readable(
    x: Expr,
    y: Expr,
    c: u32,
    offset: usize,
    index: usize,
    main: Matrix,
    pv: &[F],
    row: usize,
    rows: usize,
)
    requires
        main.width > 0,
        rows > 0,
        main.values@.len() == rows * main.width,
    ensures
        call_requires(
            symbolic::eval_symbolic_at_row,
            (&Expr::Constant(c), &main, pv, row),
        ),
        index < pv@.len() ==> call_requires(
            symbolic::eval_symbolic_at_row,
            (&Expr::Public(index), &main, pv, row),
        ),
        index < main.width && row + offset <= usize::MAX ==> call_requires(
            symbolic::eval_symbolic_at_row,
            (&Expr::Main { offset, index }, &main, pv, row),
        ),
        x.fits(main.width as int, pv@.len() as int, row as int) && y.fits(
            main.width as int,
            pv@.len() as int,
            row as int,
        ) ==> {
            &&& call_requires(
                symbolic::eval_symbolic_at_row,
                (&Expr::Add(Box::new(x), Box::new(y)), &main, pv, row),
            )
            &&& call_requires(
                symbolic::eval_symbolic_at_row,
                (&Expr::Sub(Box::new(x), Box::new(y)), &main, pv, row),
            )
            &&& call_requires(
                symbolic::eval_symbolic_at_row,
                (&Expr::Mul(Box::new(x), Box::new(y)), &main, pv, row),
            )
            &&& call_requires(
                symbolic::eval_symbolic_at_row,
                (&Expr::Neg(Box::new(x)), &main, pv, row),
            )
        },
{
    symbolic::lemma_rows(main.values@.len() as int, rows as int, main.width as int);
    reveal_with_fuel(Expr::fits, 2);
}

/// The degree of an expression: reading a main column counts one, products add
/// up, sums take the larger part.
pub proof fn law_degrees(
    x: Expr,
    y: Expr,
    c: u32,
    offset: usize,
    index: usize,
    u: usize,
    v: usize,
    r: usize,
)
    requires
        call_ensures(symbolic::degree_multiple, (&x,), u),
        call_ensures(symbolic::degree_multiple, (&y,), v),
    ensures
        call_ensures(symbolic::degree_multiple, (&Expr::Add(Box::new(x), Box::new(y)),), r)
            ==> r == if u >= v {
            u
        } else {
            v
        },
        call_ensures(symbolic::degree_multiple, (&Expr::Sub(Box::new(x), Box::new(y)),), r)
            ==> r == if u >= v {
            u
        } else {
            v
        },
        call_ensures(symbolic::degree_multiple, (&Expr::Mul(Box::new(x), Box::new(y)),), r)
            ==> r == u + v,
        call_ensures(symbolic::degree_multiple, (&Expr::Neg(Box::new(x)),), r) ==> r == u,
        call_ensures(symbolic::degree_multiple, (&Expr::Constant(c),), r) ==> r == 0,
        call_ensures(symbolic::degree_multiple, (&Expr::Public(index),), r) ==> r == 0,
        call_ensures(symbolic::degree_multiple, (&Expr::Main { offset, index },), r) ==> r == 1,
{
    reveal_with_fuel(Expr::degree, 2);
}

proof fn lemma_extension_sum(a: Ext, b: Ext)
    ensures
        a.reduced().plus(b.reduced()).reduced() == a.plus(b).reduced(),
        a.reduced().minus(b.reduced()).reduced() == a.minus(b).reduced(),
{
    sums::lemma_mod_add2(a.c0, b.c0);
    sums::lemma_mod_add2(a.c1, b.c1);
    sums::lemma_mod_add2(a.c2, b.c2);
    sums::lemma_mod_add2(a.c3, b.c3);
    sums::lemma_mod_sub2(a.c0, b.c0);
    sums::lemma_mod_sub2(a.c1, b.c1);
    sums::lemma_mod_sub2(a.c2, b.c2);
    sums::lemma_mod_sub2(a.c3, b.c3);
}

proof fn lemma_extension_product(a: Ext, b: Ext)
    ensures
        a.reduced().times(b.reduced()).reduced() == a.times(b).reduced(),
{
    ext::lemma_reduced_cong(a);
    ext::lemma_reduced_cong(b);
    ext::lemma_ext_cong_times(a.reduced(), a, b.reduced(), b);
    ext::lemma_cong_reduced(a.reduced().times(b.reduced()), a.times(b));
}

/// The value of an extension expression at a row is made up of the values of its
/// parts.
pub proof fn law_extension_values<'a>(
    t: Trace<'a>,
    x: ExtExpr,
    y: ExtExpr,
    row: usize,
    u: Challenge,
    v: Challenge,
    r: Challenge,
)
    requires
        call_ensures(Trace::<'a>::eval_ext_at_row, (&t, &x, row), u),
        call_ensures(Trace::<'a>::eval_ext_at_row, (&t, &y, row), v),
    ensures
        call_ensures(
            Trace::<'a>::eval_ext_at_row,
            (&t, &ExtExpr::Add(Box::new(x), Box::new(y)), row),
            r,
        ) ==> r@ == u@.plus(v@).reduced(),
        call_ensures(
            Trace::<'a>::eval_ext_at_row,
            (&t, &ExtExpr::Sub(Box::new(x), Box::new(y)), row),
            r,
        ) ==> r@ == u@.minus(v@).reduced(),
        call_ensures(
            Trace::<'a>::eval_ext_at_row,
            (&t, &ExtExpr::Mul(Box::new(x), Box::new(y)), row),
            r,
        ) ==> r@ == u@.times(v@).reduced(),
        call_ensures(
            Trace::<'a>::eval_ext_at_row,
            (&t, &ExtExpr::Square(Box::new(x)), row),
            r,
        ) ==> r@ == u@.times(u@).reduced(),
{
    let tt = t.tables();
    let a = x.value(tt, row as int);
    let b = y.value(tt, row as int);
    lemma_extension_sum(a, b);
    lemma_extension_product(a, b);
    lemma_extension_product(a, a);
    let s = ExtExpr::Add(Box::new(x), Box::new(y));
    assert(s.value(tt, row as int) == a.plus(b));
    let s = ExtExpr::Sub(Box::new(x), Box::new(y));
    assert(s.value(tt, row as int) == a.minus(b));
    let s = ExtExpr::Mul(Box::new(x), Box::new(y));
    assert(s.value(tt, row as int) == a.times(b));
    let s = ExtExpr::Square(Box::new(x));
    assert(s.value(tt, row as int) == a.times(a));
}

/// What the smallest extension expressions read.
pub proof fn law_extension_reads<'a>(
    t: Trace<'a>,
    e: Expr,
    offset: usize,
    index: usize,
    row: usize,
    f: F,
    r: Challenge,
)
    ensures
        call_ensures(
            symbolic::eval_symbolic_at_row,
            (&e, t.main, t.public_values, row),
            f,
        ) && call_ensures(Trace::<'a>::eval_ext_at_row, (&t, &ExtExpr::Base(e), row), r) ==> r@
            == Ext::of(f@),
        index < t.randomness@.len() && call_ensures(
            Trace::<'a>::eval_ext_at_row,
            (&t, &ExtExpr::Randomness(index), row),
            r,
        ) ==> r@ == t.randomness@[index as int]@.reduced(),
        index < t.published@.len() && call_ensures(
            Trace::<'a>::eval_ext_at_row,
            (&t, &ExtExpr::Published(index), row),
            r,
        ) ==> r@ == t.published@[index as int]@.reduced(),
        index < t.aux.width && row + offset < t.main.rows() && call_ensures(
            Trace::<'a>::eval_ext_at_row,
            (&t, &ExtExpr::Aux { offset, index }, row),
            r,
        ) ==> r@ == t.aux.values@[(row + offset) * t.aux.width + index]@.reduced(),
{
    let tt = t.tables();
    if index < t.aux.width && row + offset < t.main.rows() {
        let s = ExtExpr::Aux { offset, index };
        vstd::arithmetic::div_mod::lemma_small_mod((row + offset) as nat, t.main.rows() as nat);
        assert(s.value(tt, row as int) == t.aux.cell(row + offset, index as int));
    }
}

/// A constraint is checked on the rows that it is for: the first, the last, all
/// but the last, or all; there its body must be zero.
pub proof fn law_constraint_check<'a>(
    t: Trace<'a>,
    c: Constraint,
    row: usize,
    r: bool,
    f: F,
    u: Challenge,
)
    requires
        call_ensures(Trace::<'a>::check_constraint, (&t, &c, row), r),
        match c.body {
            Body::Base(e) => call_ensures(
                symbolic::eval_symbolic_at_row,
                (&e, t.main, t.public_values, row),
                f,
            ) && u@ == Ext::of(f@),
            Body::Ext(e) => call_ensures(Trace::<'a>::eval_ext_at_row, (&t, &e, row), u),
        },
    ensures
        c.when == When::Always ==> (r <==> u@ == Ext::of(0)),
        c.when == When::FirstRow ==> (r <==> row != 0 || u@ == Ext::of(0)),
        c.when == When::LastRow ==> (r <==> row != t.main.rows() - 1 || u@ == Ext::of(0)),
        c.when == When::Transition ==> (r <==> row == t.main.rows() - 1 || u@ == Ext::of(0)),
{
    let x = c.residue(t.tables(), row as int);
    ext::lemma_reduced_cong(x);
    assert(Ext::of(0).reduced() == Ext::of(0));
    if x.cong(Ext::of(0)) {
        ext::lemma_cong_reduced(x, Ext::of(0));
    }
}

/// A list of constraints passes exactly if each of them holds on every row, and
/// holding is what the check of one constraint on one row reports.
pub proof fn law_constraints_check<'a>(
    t: Trace<'a>,
    cs: &[Constraint],
    r: bool,
    c: Constraint,
    row: usize,
    v: bool,
)
    requires
        call_ensures(Trace::<'a>::check_constraints, (&t, cs), r),
        call_ensures(Trace::<'a>::check_constraint, (&t, &c, row), v),
    ensures
        r <==> forall|i: int, row: int|
            0 <= i < cs@.len() && 0 <= row < t.main.rows() ==> #[trigger] cs@[i].holds(
                t.tables(),
                row,
            ),
        v == c.holds(t.tables(), row as int),
{
}

// ---------------------------------------------------------------------------
// Evaluation arguments.
// ---------------------------------------------------------------------------
/// Evaluation by Horner's rule: no coefficients give 0, and a coefficient put in
/// front of others multiplies their value by the point and adds itself.
pub proof fn law_evaluation(c: &[F], longer: &[F], x: F, z: Challenge, u: Challenge, v: Challenge)
    requires
        longer@ == seq![x] + c@,
        call_ensures(prove::eval_at, (c, z), u),
        call_ensures(prove::eval_at, (longer, z), v),
    ensures
        c@.len() == 0 ==> u@ == Ext::of(0),
        v@ == u@.times(z@).reduced().plus(Ext::of(x@)).reduced(),
        call_requires(prove::eval_at, (c, z)),
{
    let p = field::vals(c@);
    let r = field::vals(longer@);
    lemma_horner_front(p, r, z@, p.len() as int);
    poly::lemma_horner_eval(p, z@);
    poly::lemma_horner_eval(r, z@);
    x.lemma_view_range();
    assert(r[0] == x@);
    vstd::arithmetic::div_mod::lemma_small_mod(x@ as nat, field::q() as nat);
    gadget::lemma_horner_reduced(
        r,
        0,
        z@,
        u@,
        x@,
        u@.times(z@).reduced().plus(Ext::of(x@)).reduced(),
    );
    assert(Ext::of(0).reduced() == Ext::of(0));
}

/// Horner sums of a sequence and of the same sequence behind one more entry.
proof fn lemma_horner_front(p: Seq<int>, r: Seq<int>, z: Ext, k: int)
    requires
        r.len() == p.len() + 1,
        forall|i: int| 0 <= i < p.len() ==> #[trigger] p[i] == r[i + 1],
        0 <= k <= p.len(),
    ensures
        forall|i: int|
            #![trigger poly::horner(p, i, z)]
            p.len() - k <= i <= p.len() ==> poly::horner(p, i, z) == poly::horner(r, i + 1, z),
    decreases k,
{
    if k > 0 {
        lemma_horner_front(p, r, z, k - 1);
        let i = p.len() - k;
        assert(poly::horner(p, i + 1, z) == poly::horner(r, i + 2, z));
        assert(p[i] == r[i + 1]);
        assert(poly::horner(p, i, z) == poly::horner(r, i + 1, z));
    } else {
        assert(poly::horner(p, p.len() as int, z) == poly::horner(r, p.len() as int + 1, z));
    }
}

/// What argument `i` demands of the tables: the Horner recurrence in its column
/// and, where it is global, that the first entry is the published value with as
/// many before it as there are global arguments before `i`.
pub open spec fn argument_demands(ls: Seq<Lookup>, i: int, t: Tables) -> bool {
    let e = ls[i].element_exprs@[0]@[0];
    let c = ls[i].columns@[0] as int;
    let h = t.base.height;
    &&& forall|row: int|
        #![trigger (t.aux)(row, c)]
        0 <= row < h - 1 ==> (t.aux)(row, c).cong(
            Ext::of(e.value(t.base, row)).plus(t.randomness[c].times((t.aux)(row + 1, c))),
        )
    &&& (t.aux)(h - 1, c).cong(Ext::of(e.value(t.base, h - 1)))
    &&& ls[i].kind is Global ==> (t.aux)(0, c).cong(
        t.published[ls.take(i).filter(|l: Lookup| l.kind is Global).len() as int],
    )
}

proof fn lemma_globals_counted(ls: Seq<Lookup>, i: int)
    requires
        0 <= i <= ls.len(),
    ensures
        gadget::globals_before(ls, i) == ls.take(i).filter(|l: Lookup| l.kind is Global).len(),
    decreases i,
{
    let p = |l: Lookup| l.kind is Global;
    reveal(Seq::filter);
    if i > 0 {
        lemma_globals_counted(ls, i - 1);
        assert(ls.take(i).drop_last() =~= ls.take(i - 1));
        assert(ls.take(i).last() == ls[i - 1]);
    }
}

/// The constraints of the arguments hold of exactly the tables in which every
/// argument's column is a Horner evaluation and every global one is published
/// at its place.
pub proof fn law_argument_constraints(
    g: EvalGadget,
    ls: &[Lookup],
    cs: Vec<Constraint>,
    t: Tables,
)
    requires
        call_ensures(EvalGadget::eval_lookups, (&g, ls), cs),
        t.base.height > 0,
    ensures
        symbolic::satisfied(cs@, t) <==> forall|i: int|
            0 <= i < ls@.len() ==> #[trigger] argument_demands(ls@, i, t),
{
    assert forall|i: int| 0 <= i < ls@.len() implies #[trigger] argument_demands(ls@, i, t)
        == gadget::argument_relation(ls@, i, t) by {
        lemma_globals_counted(ls@, i);
        let e = ls@[i].expr();
        let c = ls@[i].column();
        if argument_demands(ls@, i, t) {
            assert(gadget::horner_relation(e, c, t));
        }
    }
    if forall|i: int| 0 <= i < ls@.len() ==> #[trigger] argument_demands(ls@, i, t) {
        assert forall|i: int| 0 <= i < ls@.len() implies #[trigger] gadget::argument_relation(
            ls@,
            i,
            t,
        ) by {
            assert(argument_demands(ls@, i, t));
        }
    }
    if gadget::arguments_relation(ls@, t) {
        assert forall|i: int| 0 <= i < ls@.len() implies #[trigger] argument_demands(ls@, i, t) by {
            assert(gadget::argument_relation(ls@, i, t));
        }
    }
}

/// One argument with an expected value, and one without.
pub proof fn law_single_argument(
    g: EvalGadget,
    l: Lookup,
    expected: ExtExpr,
    free: Vec<Constraint>,
    bound: Vec<Constraint>,
    t: Tables,
)
    requires
        call_ensures(EvalGadget::eval_local_lookup, (&g, &l), free),
        call_ensures(EvalGadget::eval_global_update, (&g, &l, expected), bound),
        t.base.height > 0,
    ensures
        ({
            let e = l.element_exprs@[0]@[0];
            let c = l.columns@[0] as int;
            let h = t.base.height;
            symbolic::satisfied(free@, t) <==> {
                &&& forall|row: int|
                    #![trigger (t.aux)(row, c)]
                    0 <= row < h - 1 ==> (t.aux)(row, c).cong(
                        Ext::of(e.value(t.base, row)).plus(
                            t.randomness[c].times((t.aux)(row + 1, c)),
                        ),
                    )
                &&& (t.aux)(h - 1, c).cong(Ext::of(e.value(t.base, h - 1)))
            }
        }),
        symbolic::satisfied(bound@, t) <==> symbolic::satisfied(free@, t) && (t.aux)(
            0,
            l.columns@[0] as int,
        ).cong(expected.value(t, 0)),
        free@.len() == 2,
        bound@.len() == 3,
{
}

/// The same by its general form, and the expression that an argument is on.
pub proof fn law_horner_constraints(
    g: EvalGadget,
    l: Lookup,
    expected: Option<ExtExpr>,
    cs: Vec<Constraint>,
    t: Tables,
)
    requires
        call_ensures(EvalGadget::eval_horner, (&g, &l, expected), cs),
        t.base.height > 0,
    ensures
        ({
            let e = l.element_exprs@[0]@[0];
            let c = l.columns@[0] as int;
            let h = t.base.height;
            symbolic::satisfied(cs@, t) <==> {
                &&& forall|row: int|
                    #![trigger (t.aux)(row, c)]
                    0 <= row < h - 1 ==> (t.aux)(row, c).cong(
                        Ext::of(e.value(t.base, row)).plus(
                            t.randomness[c].times((t.aux)(row + 1, c)),
                        ),
                    )
                &&& (t.aux)(h - 1, c).cong(Ext::of(e.value(t.base, h - 1)))
                &&& expected matches Some(x) ==> (t.aux)(0, c).cong(x.value(t, 0))
            }
        }),
{
}

/// The auxiliary table: a column is the Horner evaluation, from the bottom up and
/// at the challenge of the column, of the last argument `i` that has it, and zero
/// where there is none. The published entries keep their names and places; the
/// first entry of the column of the last global argument `i` on it becomes the
/// value of `i`, and no other changes.
pub proof fn law_auxiliary_table(
    g: EvalGadget,
    main: Matrix,
    pv: &[F],
    ls: &[Lookup],
    data: &mut [LookupData],
    zs: &[Challenge],
    perm: ExtMatrix,
    i: int,
    col: int,
    row: int,
    d: int,
)
    requires
        main.rows() > 0,
        zs@.len() == ls@.len(),
        call_ensures(EvalGadget::generate_permutation, (&g, &main, pv, ls, data, zs), perm),
        0 <= i < ls@.len(),
        0 <= col < ls@.len(),
        ls@[i].columns@[0] == col,
        forall|k: int| i < k < ls@.len() ==> (#[trigger] ls@[k]).columns@[0] != col,
        0 <= row < main.rows() - 1,
        0 <= d < data@.len(),
        ls@[i].kind is Global ==> {
            &&& data@[d].aux_idx == col
            &&& forall|k: int| 0 <= k < d ==> (#[trigger] data@[k]).aux_idx != col
        },
    ensures
        perm.width == ls@.len(),
        perm.values@.len() == main.rows() * ls@.len(),
        ({
            let t = main.tables(field::vals(pv@));
            let e = ls@[i].element_exprs@[0]@[0];
            let h = main.rows();
            &&& perm.cell(h - 1, col) == Ext::of(e.value(t, h - 1)).reduced()
            &&& perm.cell(row, col) == perm.cell(row + 1, col).times(zs@[col]@).reduced().plus(
                Ext::of(e.value(t, row) % field::q()),
            ).reduced()
        }),
        final(data)@.len() == old(data)@.len(),
        final(data)@[d].name == old(data)@[d].name,
        final(data)@[d].aux_idx == old(data)@[d].aux_idx,
        ls@[i].kind is Global ==> final(data)@[d].expected_cumulated@ == perm.cell(0, col),
{
    let t = main.tables(field::vals(pv@));
    let e = ls@[i].expr();
    let h = main.rows();
    let z = symbolic::exts(zs@)[col];
    let p = ls@[i].coefficients(t);
    assert(z == zs@[col]@);
    assert(ls@[i].column() == col);
    lemma_own_column(ls@, ls@.len() as int, i, col);
    assert(perm.cell(h - 1, col) == poly::horner(p, h - 1, z).reduced());
    assert(perm.cell(row, col) == poly::horner(p, row, z).reduced());
    assert(perm.cell(row + 1, col) == poly::horner(p, row + 1, z).reduced());
    assert(perm.cell(0, col) == poly::horner(p, 0, z).reduced());
    reveal_with_fuel(poly::horner, 2);
    assert(poly::horner(p, h, z) == Ext::of(0));
    ext::lemma_times_of(z, 0);
    gadget::lemma_horner_reduced(
        p,
        row,
        z,
        perm.cell(row + 1, col),
        e.value(t, row) % field::q(),
        perm.cell(row + 1, col).times(z).reduced().plus(
            Ext::of(e.value(t, row) % field::q()),
        ).reduced(),
    );
    poly::lemma_horner_eval(p, z);
    if ls@[i].kind is Global {
        lemma_first_of_column(data@, 0, col, d);
        lemma_own_entry(ls@, data@, ls@.len() as int, i, col, d);
    }
}

/// A column that no argument has is zero, and an entry whose column no global
/// argument has stays as it is.
pub proof fn law_unowned_columns(
    g: EvalGadget,
    main: Matrix,
    pv: &[F],
    ls: &[Lookup],
    data: &mut [LookupData],
    zs: &[Challenge],
    perm: ExtMatrix,
    col: int,
    row: int,
    d: int,
)
    requires
        zs@.len() == ls@.len(),
        call_ensures(EvalGadget::generate_permutation, (&g, &main, pv, ls, data, zs), perm),
        0 <= col < ls@.len(),
        0 <= row < main.rows(),
        0 <= d < data@.len(),
    ensures
        (forall|k: int| 0 <= k < ls@.len() ==> (#[trigger] ls@[k]).columns@[0] != col)
            ==> perm.cell(row, col) == Ext::of(0),
        (forall|k: int|
            0 <= k < ls@.len() ==> (#[trigger] ls@[k]).kind is Local || old(data)@[d].aux_idx
                != ls@[k].columns@[0]) ==> final(data)@[d] == old(data)@[d],
{
    if forall|k: int| 0 <= k < ls@.len() ==> (#[trigger] ls@[k]).columns@[0] != col {
        lemma_no_column(ls@, ls@.len() as int, col);
    }
    if forall|k: int|
        0 <= k < ls@.len() ==> (#[trigger] ls@[k]).kind is Local || data@[d].aux_idx
            != ls@[k].columns@[0] {
        lemma_no_entry(ls@, data@, ls@.len() as int, d);
        assert(final(data)@[d].name == data@[d].name);
    }
}

proof fn lemma_no_column(ls: Seq<Lookup>, upto: int, col: int)
    requires
        0 <= upto <= ls.len(),
        forall|k: int| 0 <= k < ls.len() ==> (#[trigger] ls[k]).columns@[0] != col,
    ensures
        gadget::column_owner(ls, upto, col) < 0,
    decreases upto,
{
    if upto > 0 {
        assert(ls[upto - 1].columns@[0] != col);
        lemma_no_column(ls, upto - 1, col);
    }
}

proof fn lemma_own_column(ls: Seq<Lookup>, upto: int, i: int, col: int)
    requires
        0 <= i < upto <= ls.len(),
        ls[i].columns@[0] == col,
        forall|k: int| i < k < ls.len() ==> (#[trigger] ls[k]).columns@[0] != col,
    ensures
        gadget::column_owner(ls, upto, col) == i,
    decreases upto,
{
    if upto - 1 != i {
        assert(ls[upto - 1].columns@[0] != col);
        lemma_own_column(ls, upto - 1, i, col);
    }
}

proof fn lemma_first_of_column(data: Seq<LookupData>, from: int, i: int, d: int)
    requires
        0 <= from <= d < data.len(),
        data[d].aux_idx == i,
        forall|k: int| 0 <= k < d ==> (#[trigger] data[k]).aux_idx != i,
    ensures
        gadget::first_entry(data, from, i) == d,
    decreases d - from,
{
    if from < d {
        assert(data[from].aux_idx != i);
        lemma_first_of_column(data, from + 1, i, d);
    }
}

proof fn lemma_found_entry(data: Seq<LookupData>, from: int, i: int)
    requires
        0 <= from,
    ensures
        gadget::first_entry(data, from, i) >= 0 ==> {
            &&& from <= gadget::first_entry(data, from, i) < data.len()
            &&& data[gadget::first_entry(data, from, i)].aux_idx == i
        },
    decreases data.len() - from,
{
    if from < data.len() && data[from].aux_idx != i {
        lemma_found_entry(data, from + 1, i);
    }
}

proof fn lemma_own_entry(
    ls: Seq<Lookup>,
    data: Seq<LookupData>,
    upto: int,
    i: int,
    col: int,
    d: int,
)
    requires
        0 <= i < upto <= ls.len(),
        0 <= d < data.len(),
        ls[i].columns@[0] == col,
        forall|k: int| i < k < ls.len() ==> (#[trigger] ls[k]).columns@[0] != col,
        ls[i].kind is Global,
        gadget::first_entry(data, 0, col) == d,
        data[d].aux_idx == col,
    ensures
        gadget::entry_owner(ls, data, upto, d) == i,
    decreases upto,
{
    if upto - 1 != i {
        assert(ls[upto - 1].columns@[0] != col);
        lemma_found_entry(data, 0, ls[upto - 1].column());
        lemma_own_entry(ls, data, upto - 1, i, col, d);
    }
}

proof fn lemma_no_entry(ls: Seq<Lookup>, data: Seq<LookupData>, upto: int, d: int)
    requires
        0 <= upto <= ls.len(),
        0 <= d < data.len(),
        forall|k: int|
            0 <= k < ls.len() ==> (#[trigger] ls[k]).kind is Local || data[d].aux_idx
                != ls[k].columns@[0],
    ensures
        gadget::entry_owner(ls, data, upto, d) < 0,
    decreases upto,
{
    if upto > 0 {
        assert(ls[upto - 1].kind is Local || data[d].aux_idx != ls[upto - 1].columns@[0]);
        lemma_found_entry(data, 0, ls[upto - 1].column());
        lemma_no_entry(ls, data, upto - 1, d);
    }
}

/// The challenge layout: the same point for every argument of every instance.
/// One element is drawn from the transcript for the whole proof, and none where
/// there are no arguments.
pub proof fn law_shared_challenge(
    ch: &mut Transcript,
    same: &mut Transcript,
    all: &[Vec<Lookup>],
    z: Challenge,
    r: Vec<Vec<Challenge>>,
    s: Vec<Vec<Challenge>>,
    i: int,
    j: int,
)
    requires
        ch@ == same@,
        call_ensures(gadget::sample_eval_challenges, (ch, all), r),
        call_ensures(Transcript::sample_algebra_element, (same,), z),
        call_ensures(gadget::replicate_challenge, (z, all), s),
        0 <= i < all@.len(),
        0 <= j < all@[i]@.len(),
    ensures
        r@.len() == all@.len(),
        s@.len() == all@.len(),
        r@[i]@.len() == all@[i]@.len(),
        s@[i]@.len() == all@[i]@.len(),
        r@[i]@[j]@ == z@,
        s@[i]@[j]@ == z@,
        final(ch)@ == final(same)@,
{
    assert(gadget::any_lookups(all@));
}

/// Without arguments the transcript stays as it is.
pub proof fn law_no_challenge(ch: &mut Transcript, all: &[Vec<Lookup>], r: Vec<Vec<Challenge>>)
    requires
        forall|i: int| 0 <= i < all@.len() ==> (#[trigger] all@[i])@.len() == 0,
        call_ensures(gadget::sample_eval_challenges, (ch, all), r),
    ensures
        r@.len() == all@.len(),
        final(ch)@ == old(ch)@,
{
}

/// The auxiliary table can be generated where the expressions can be read, every
/// column lies in the table, and every global argument has an entry.
pub proof fn law_auxiliary_table_is_allowed(
    g: EvalGadget,
    main: Matrix,
    rows: usize,
    pv: &[F],
    ls: &[Lookup],
    data: &mut [LookupData],
    zs: &[Challenge],
)
    requires
        main.width > 0,
        main.values@.len() == rows * main.width,
        rows * ls@.len() <= usize::MAX,
        zs@.len() == ls@.len(),
        forall|i: int|
            0 <= i < ls@.len() ==> {
                &&& argues(#[trigger] ls@[i], ls@[i].element_exprs@[0]@[0], i)
                &&& forall|row: int|
                    0 <= row < rows ==> #[trigger] ls@[i].element_exprs@[0]@[0].fits(
                        main.width as int,
                        pv@.len() as int,
                        row,
                    )
                &&& ls@[i].kind is Global ==> exists|d: int|
                    0 <= d < data@.len() && (#[trigger] data@[d]).aux_idx == i
            },
    ensures
        call_requires(EvalGadget::generate_permutation, (&g, &main, pv, ls, data, zs)),
{
    symbolic::lemma_rows(main.values@.len() as int, rows as int, main.width as int);
    assert forall|i: int| 0 <= i < ls@.len() implies (#[trigger] ls@[i]).wf() && ls@[i].column()
        < ls@.len() && (forall|row: int|
        0 <= row < main.rows() ==> #[trigger] ls@[i].expr().fits(
            main.width as int,
            pv@.len() as int,
            row,
        )) && (ls@[i].kind is Global ==> gadget::first_entry(data@, 0, ls@[i].column()) >= 0) by {
        assert(argues(ls@[i], ls@[i].element_exprs@[0]@[0], i));
        if ls@[i].kind is Global {
            let d = choose|d: int| 0 <= d < data@.len() && (#[trigger] data@[d]).aux_idx == i;
            lemma_entry_exists(data@, 0, i, d);
        }
    }
}

proof fn lemma_entry_exists(data: Seq<LookupData>, from: int, i: int, d: int)
    requires
        0 <= from <= d < data.len(),
        data[d].aux_idx == i,
    ensures
        gadget::first_entry(data, from, i) >= 0,
    decreases d - from,
{
    if data[from].aux_idx != i {
        lemma_entry_exists(data, from + 1, i, d);
    }
}

/// The arguments of an encryption and of a transfer can be read from a table of
/// their width.
pub proof fn law_arguments_are_readable(ls: Seq<Lookup>, i: int, public: int, rows: int, row: int)
    requires
        0 <= row < rows,
        rows <= usize::MAX,
    ensures
        encryption_arguments(ls) && 0 <= i < 10 ==> ls[i].element_exprs@[0]@[0].fits(
            12,
            public,
            row,
        ),
        transfer_arguments(ls) && 0 <= i < 26 ==> ls[i].element_exprs@[0]@[0].fits(
            33,
            public,
            row,
        ),
{
    reveal_with_fuel(Expr::fits, 3);
}

// ---------------------------------------------------------------------------
// The transcript.
// ---------------------------------------------------------------------------
/// Observing: output that was not handed out is dropped, and the element joins
/// the input; the eighth one has the state permuted, with its front overwritten
/// by the input.
pub proof fn law_observing(t: &mut Transcript, x: F)
    requires
        call_ensures(Transcript::observe, (t, x), ()),
        t@.state.len() == 16,
    ensures
        old(t)@.input.len() != 7 ==> {
            &&& final(t)@.state == old(t)@.state
            &&& final(t)@.input == old(t)@.input.push(x@)
            &&& final(t)@.output.len() == 0
        },
        old(t)@.input.len() == 7 ==> {
            &&& final(t)@.state == transcript::poseidon2_16(
                old(t)@.input.push(x@) + old(t)@.state.subrange(8, 16),
            )
            &&& final(t)@.input.len() == 0
            &&& final(t)@.output == final(t)@.state.subrange(0, 8)
        },
        call_requires(Transcript::observe, (t, x)),
{
    if t@.input.len() == 7 {
        assert(t@.pending(x@).overlaid() =~= t@.input.push(x@) + t@.state.subrange(8, 16));
    }
}

/// Sampling: the last element of the output is handed out. If input is pending,
/// or no output is left, the state is permuted first.
pub proof fn law_sampling(t: &mut Transcript, r: F)
    requires
        call_ensures(Transcript::sample, (t,), r),
        t@.state.len() == 16,
        final(t)@.state.len() == 16,
        t@.input.len() < 8,
    ensures
        old(t)@.input.len() == 0 && old(t)@.output.len() > 0 ==> {
            &&& r@ == old(t)@.output.last()
            &&& final(t)@.output == old(t)@.output.drop_last()
            &&& final(t)@.state == old(t)@.state
            &&& final(t)@.input.len() == 0
        },
        old(t)@.input.len() > 0 || old(t)@.output.len() == 0 ==> {
            &&& final(t)@.state == transcript::poseidon2_16(
                old(t)@.input + old(t)@.state.subrange(old(t)@.input.len() as int, 16),
            )
            &&& r@ == final(t)@.state.subrange(0, 8)[7]
            &&& final(t)@.output == final(t)@.state.subrange(0, 7)
            &&& final(t)@.input.len() == 0
        },
{
    if t@.input.len() > 0 || t@.output.len() == 0 {
        assert(t@.overlaid() =~= t@.input + t@.state.subrange(t@.input.len() as int, 16));
        let p = transcript::poseidon2_16(t@.overlaid());
        assert(p.subrange(0, 8).len() == 8);
        assert(p.subrange(0, 8).drop_last() =~= p.subrange(0, 7));
    }
}

/// A fresh transcript is empty.
pub proof fn law_fresh_transcript(t: Transcript)
    requires
        call_ensures(Transcript::new, (), t),
    ensures
        t@.state == Seq::new(16, |i: int| 0int),
        t@.input.len() == 0,
        t@.output.len() == 0,
{
}

/// An extension element is four samples, from the lowest coefficient on.
pub proof fn law_element_is_four_samples(
    t: &mut Transcript,
    e: Challenge,
    ts: (&mut Transcript, &mut Transcript, &mut Transcript, &mut Transcript),
    a: F,
    b: F,
    c: F,
    d: F,
)
    requires
        call_ensures(Transcript::sample_algebra_element, (t,), e),
        ts.0@ == t@,
        call_ensures(Transcript::sample, (ts.0,), a),
        ts.1@ == final(ts.0)@,
        call_ensures(Transcript::sample, (ts.1,), b),
        ts.2@ == final(ts.1)@,
        call_ensures(Transcript::sample, (ts.2,), c),
        ts.3@ == final(ts.2)@,
        call_ensures(Transcript::sample, (ts.3,), d),
    ensures
        e@ == (Ext { c0: a@, c1: b@, c2: c@, c3: d@ }),
        final(t)@ == final(ts.3)@,
{
    reveal_with_fuel(transcript::Sponge::after, 5);
}

/// Bits are the low bits of a sample.
pub proof fn law_bits_of_a_sample(
    t: &mut Transcript,
    same: &mut Transcript,
    bits: u32,
    r: u32,
    x: F,
)
    requires
        bits < 31,
        t@ == same@,
        call_ensures(Transcript::sample_bits, (t, bits), r),
        call_ensures(Transcript::sample, (same,), x),
    ensures
        r < pow2(bits as nat),
        exists|k: int| 0 <= k && x@ == r + #[trigger] (k * pow2(bits as nat)),
        final(t)@ == final(same)@,
        call_requires(Transcript::sample_bits, (t, bits)),
{
    lemma_pow2_pos(bits as nat);
    x.lemma_view_range();
    let p = pow2(bits as nat) as int;
    vstd::arithmetic::div_mod::lemma_fundamental_div_mod(x@, p);
    let k = x@ / p;
    assert(k >= 0) by {
        vstd::arithmetic::div_mod::lemma_div_pos_is_pos(x@, p);
    }
    assert(p * k == k * p) by (nonlinear_arith);
    assert(x@ == r + k * pow2(bits as nat));
}

/// Digest bytes: four for each sample and four for the bits, the least
/// significant first.
pub proof fn law_digest_bytes(samples: &[F], bits: u32, r: Vec<u8>, i: int)
    requires
        call_ensures(portability::digest_bytes, (samples, bits), r),
    ensures
        r@.len() == 4 * samples@.len() + 4,
        0 <= i < samples@.len() ==> samples@[i]@ == r@[4 * i] + 256 * r@[4 * i + 1] + 65536 * r@[4
            * i + 2] + 16777216 * r@[4 * i + 3],
        bits == r@[r@.len() - 4] + 256 * r@[r@.len() - 3] + 65536 * r@[r@.len() - 2] + 16777216
            * r@[r@.len() - 1],
{
    let x = field::vals(samples@);
    let w = portability::le_words(x);
    let l = portability::le_word(bits as int);
    assert(r@ == w + l);
    lemma_word(bits as int);
    if samples@.len() > 0 {
        lemma_words(x, 0);
    }
    assert(r@[r@.len() - 4] == l[0] && r@[r@.len() - 3] == l[1] && r@[r@.len() - 2] == l[2] && r@[
    r@.len() - 1] == l[3]);
    if 0 <= i < samples@.len() {
        lemma_words(x, i);
        samples@[i].lemma_view_range();
        lemma_word(samples@[i]@);
        assert(r@[4 * i] == w[4 * i] && r@[4 * i + 1] == w[4 * i + 1] && r@[4 * i + 2] == w[4 * i
            + 2] && r@[4 * i + 3] == w[4 * i + 3]);
        assert(x[i] == samples@[i]@);
    }
}

proof fn lemma_word(x: int)
    requires
        0 <= x < 0x1_0000_0000,
    ensures
        ({
            let w = portability::le_word(x);
            w.len() == 4 && x == w[0] + 256 * w[1] + 65536 * w[2] + 16777216 * w[3]
        }),
{
}

proof fn lemma_words(xs: Seq<int>, i: int)
    requires
        0 <= i < xs.len(),
    ensures
        portability::le_words(xs).len() == 4 * xs.len(),
        portability::le_words(xs)[4 * i] == portability::le_word(xs[i])[0],
        portability::le_words(xs)[4 * i + 1] == portability::le_word(xs[i])[1],
        portability::le_words(xs)[4 * i + 2] == portability::le_word(xs[i])[2],
        portability::le_words(xs)[4 * i + 3] == portability::le_word(xs[i])[3],
    decreases xs.len(),
{
    let front = xs.drop_last();
    if xs.len() == 1 {
        assert(portability::le_words(front).len() == 0);
    } else if i < xs.len() - 1 {
        lemma_words(front, i);
    } else {
        lemma_words(front, 0);
    }
}

/// The value of a lowercase hex digit.
pub open spec fn hex_value(c: char) -> int {
    if '0' <= c <= '9' {
        c as int - '0' as int
    } else {
        c as int - 'a' as int + 10
    }
}

/// Hex text: two digits for each byte, the upper half first, in `0-9a-f`.
pub proof fn law_hex_text(bytes: &[u8], r: String, i: int)
    requires
        call_ensures(portability::to_hex, (bytes,), r),
        0 <= i < bytes@.len(),
    ensures
        r@.len() == 2 * bytes@.len(),
        bytes@[i] == 16 * hex_value(r@[2 * i]) + hex_value(r@[2 * i + 1]),
        '0' <= r@[2 * i] <= '9' || 'a' <= r@[2 * i] <= 'f',
        '0' <= r@[2 * i + 1] <= '9' || 'a' <= r@[2 * i + 1] <= 'f',
        call_requires(portability::to_hex, (bytes,)),
{
    let b = bytes@[i];
    assert((2 * i) / 2 == i && (2 * i + 1) / 2 == i && (2 * i) % 2 == 0 && (2 * i + 1) % 2 == 1);
    assert(r@[2 * i] == portability::hex_digit(b as int / 16));
    assert(r@[2 * i + 1] == portability::hex_digit(b as int % 16));
}

/// The transcript digest: the script `i * 0x01000193 + 7` is observed for `i`
/// below 50, and 24 samples and 16 bits of one more are written down.
pub proof fn law_transcript_digest(r: Vec<u8>, h: String)
    requires
        call_ensures(portability::transcript_digest, (), r),
        call_ensures(portability::transcript_digest_hex, (), h),
    ensures
        ({
            let s = transcript::Sponge::fresh().observed_all(
                Seq::new(50, |i: int| i * 16777619 + 7),
            );
            r@ == portability::le_words(s.samples(24)) + portability::le_word(
                s.after(24).sample() % 65536,
            )
        }),
        h@.len() == 2 * r@.len(),
        forall|i: int|
            0 <= i < r@.len() ==> #[trigger] r@[i] == 16 * hex_value(h@[2 * i]) + hex_value(
                h@[2 * i + 1],
            ),
{
    assert(portability::script() =~= Seq::new(50, |i: int| i * 16777619 + 7));
    assert forall|i: int| 0 <= i < r@.len() implies #[trigger] r@[i] == 16 * hex_value(h@[2 * i])
        + hex_value(h@[2 * i + 1]) by {
        let b = r@[i];
        assert((2 * i) / 2 == i && (2 * i + 1) / 2 == i && (2 * i) % 2 == 0 && (2 * i + 1) % 2
            == 1);
        assert(h@[2 * i] == portability::hex_digit(b as int / 16));
        assert(h@[2 * i + 1] == portability::hex_digit(b as int % 16));
    }
}

// ---------------------------------------------------------------------------
// Messages.
// ---------------------------------------------------------------------------
/// The number that decimal digits stand for.
pub open spec fn decimal_value(s: Seq<char>) -> int
    decreases s.len(),
{
    if s.len() == 0 {
        0
    } else {
        10 * decimal_value(s.drop_last()) + (s.last() as int - '0' as int)
    }
}

/// `s` is the number `x` in decimal digits without leading zeros.
pub open spec fn is_decimal(s: Seq<char>, x: int) -> bool {
    &&& s.len() > 0
    &&& forall|i: int| 0 <= i < s.len() ==> '0' <= #[trigger] s[i] <= '9'
    &&& decimal_value(s) == x
    &&& s[0] == '0' ==> s.len() == 1
}

proof fn lemma_decimal(x: nat)
    ensures
        is_decimal(prove::decimal(x), x as int),
        x > 0 ==> prove::decimal(x)[0] != '0',
    decreases x,
{
    let d = (('0' as int) + (x % 10)) as char;
    let s = prove::decimal(x);
    assert('0' as int == 48 && '9' as int == 57);
    assert(d as int == 48 + x % 10);
    if x < 10 {
        assert(s =~= seq![d]);
        assert(s.drop_last().len() == 0);
        assert(s.last() == d);
        reveal_with_fuel(decimal_value, 2);
    } else {
        lemma_decimal(x / 10);
        assert(s.drop_last() =~= prove::decimal(x / 10));
        assert(s.last() == d);
    }
}

/// The messages: what is malformed, what the STARK reported, and which
/// polynomial of which instance does not match.
pub proof fn law_error_messages(e: RegevVerifyError, r: String)
    requires
        call_ensures(RegevVerifyError::message, (&e,), r),
    ensures
        e matches RegevVerifyError::Shape(s) ==> r@ == "malformed proof: "@ + s@,
        e matches RegevVerifyError::Stark(s) ==> r@ == "STARK verification failed: "@ + s@,
        e matches RegevVerifyError::StatementMismatch { instance, poly } ==> exists|d: Seq<char>|
            #[trigger] is_decimal(d, instance as int) && r@ == "instance "@ + d
                + ": published evaluation of `"@ + poly@ + "` does not match statement"@,
        call_requires(RegevVerifyError::message, (&e,)),
{
    if let RegevVerifyError::StatementMismatch { instance, poly } = e {
        lemma_decimal(instance as nat);
    }
}

/// Arithmetic in the extension by `x^4 = 11`, coefficient by coefficient.
pub proof fn law_extension_arithmetic(
    x: Challenge,
    y: Challenge,
    sum: Challenge,
    difference: Challenge,
    product: Challenge,
)
    requires
        call_ensures(Challenge::add, (x, y), sum),
        call_ensures(Challenge::sub, (x, y), difference),
        call_ensures(Challenge::mul, (x, y), product),
    ensures
        sum.c0@ == (x.c0@ + y.c0@) % field::q(),
        sum.c1@ == (x.c1@ + y.c1@) % field::q(),
        sum.c2@ == (x.c2@ + y.c2@) % field::q(),
        sum.c3@ == (x.c3@ + y.c3@) % field::q(),
        difference.c0@ == (x.c0@ - y.c0@) % field::q(),
        difference.c1@ == (x.c1@ - y.c1@) % field::q(),
        difference.c2@ == (x.c2@ - y.c2@) % field::q(),
        difference.c3@ == (x.c3@ - y.c3@) % field::q(),
        product.c0@ == (x.c0@ * y.c0@ + 11 * (x.c1@ * y.c3@ + x.c2@ * y.c2@ + x.c3@ * y.c1@))
            % field::q(),
        product.c1@ == (x.c0@ * y.c1@ + x.c1@ * y.c0@ + 11 * (x.c2@ * y.c3@ + x.c3@ * y.c2@))
            % field::q(),
        product.c2@ == (x.c0@ * y.c2@ + x.c1@ * y.c1@ + x.c2@ * y.c0@ + 11 * (x.c3@ * y.c3@))
            % field::q(),
        product.c3@ == (x.c0@ * y.c3@ + x.c1@ * y.c2@ + x.c2@ * y.c1@ + x.c3@ * y.c0@)
            % field::q(),
{
}

/// Extension elements from coefficients: each is taken modulo `q`.
pub proof fn law_coefficients(c: [u32; 4], r: Challenge)
    requires
        call_ensures(Challenge::from_coefficients, (c,), r),
    ensures
        r.c0@ == c[0] as int % field::q(),
        r.c1@ == c[1] as int % field::q(),
        r.c2@ == c[2] as int % field::q(),
        r.c3@ == c[3] as int % field::q(),
{
}

/// The security that is conjectured of the two production configurations is 100
/// bits: every query contributes the logarithm of the blowup, and the grinding
/// is added.
pub proof fn law_configurations(d: FriParametersSpec, z: FriParametersSpec)
    requires
        call_ensures(config::default_fri, (), d),
        call_ensures(config::zk_fri, (), z),
    ensures
        d.log_blowup * d.num_queries + d.query_proof_of_work_bits == 100,
        z.log_blowup * z.num_queries + z.query_proof_of_work_bits == 100,
{
}

/// The number of threads: none is set where the pool is configured already; a
/// positive request is granted; otherwise it is what is available, within 1 and
/// 6, or 4 where that is unknown.
pub proof fn law_threads(
    configured: bool,
    requested: Option<usize>,
    available: Option<usize>,
    r: Option<usize>,
    d: usize,
)
    requires
        call_ensures(pool::pool_threads, (configured, requested, available), r),
        call_ensures(pool::default_threads, (available,), d),
    ensures
        configured ==> r is None,
        !configured ==> r == Some(
            if requested is Some && requested->0 > 0 {
                requested->0
            } else {
                d
            },
        ),
        available is None ==> d == 4,
        available is Some ==> 1 <= d <= 6 && (1 <= available->0 <= 6 ==> d == available->0) && (
        available->0 < 1 ==> d == 1) && (available->0 > 6 ==> d == 6),
{
}

// ---------------------------------------------------------------------------
// Honest instances.
// ---------------------------------------------------------------------------
/// What is published of a global argument is the value, at the challenge of its
/// column, of the polynomial that its expression gives row by row.
pub proof fn law_published_evaluations(
    g: EvalGadget,
    main: Matrix,
    pv: &[F],
    ls: &[Lookup],
    data: &mut [LookupData],
    zs: &[Challenge],
    perm: ExtMatrix,
    i: int,
    col: int,
    d: int,
)
    requires
        zs@.len() == ls@.len(),
        call_ensures(EvalGadget::generate_permutation, (&g, &main, pv, ls, data, zs), perm),
        0 <= i < ls@.len(),
        0 <= col < ls@.len(),
        ls@[i].columns@[0] == col,
        forall|k: int| i < k < ls@.len() ==> (#[trigger] ls@[k]).columns@[0] != col,
        ls@[i].kind is Global,
        0 <= d < data@.len(),
        data@[d].aux_idx == col,
        forall|k: int| 0 <= k < d ==> (#[trigger] data@[k]).aux_idx != col,
    ensures
        final(data)@.len() == old(data)@.len(),
        final(data)@[d].expected_cumulated@ == poly::eval(
            Seq::new(
                main.rows() as nat,
                |row: int|
                    ls@[i].element_exprs@[0]@[0].value(main.tables(field::vals(pv@)), row),
            ),
            zs@[col]@,
        ).reduced(),
{
    lemma_first_of_column(data@, 0, col, d);
    lemma_own_entry(ls@, data@, ls@.len() as int, i, col, d);
    assert(ls@[i].column() == col);
    assert(symbolic::exts(zs@)[col] == zs@[col]@);
    assert(final(data)@[d].name == data@[d].name);
    assert(ls@[i].coefficients(main.tables(field::vals(pv@))) =~= Seq::new(
        main.rows() as nat,
        |row: int| ls@[i].element_exprs@[0]@[0].value(main.tables(field::vals(pv@)), row),
    ));
}

/// What is published of a column that holds a polynomial is its value.
proof fn lemma_published_column(
    g: EvalGadget,
    main: Matrix,
    pv: &[F],
    ls: &[Lookup],
    data: &mut [LookupData],
    zs: &[Challenge],
    perm: ExtMatrix,
    z: Challenge,
    i: int,
    d: int,
    main_col: usize,
    p: Seq<F>,
)
    requires
        zs@.len() == ls@.len(),
        call_ensures(EvalGadget::generate_permutation, (&g, &main, pv, ls, data, zs), perm),
        0 <= i < ls@.len(),
        forall|k: int| 0 <= k < ls@.len() ==> (#[trigger] ls@[k]).columns@[0] == k,
        ls@[i].element_exprs@[0]@[0] == main_column(main_col),
        ls@[i].kind is Global,
        0 <= d < data@.len(),
        data@[d].aux_idx == i,
        forall|k: int| 0 <= k < d ==> (#[trigger] data@[k]).aux_idx != i,
        zs@[i] == z,
        main.rows() == p.len(),
        forall|row: int|
            0 <= row < p.len() ==> #[trigger] main.cell(row, main_col as int) == p[row]@
                % field::q(),
    ensures
        final(data)@.len() == old(data)@.len(),
        final(data)@[d].expected_cumulated@ == poly::eval(field::vals(p), z@).reduced(),
{
    let t = main.tables(field::vals(pv@));
    let e = main_column(main_col);
    law_published_evaluations(g, main, pv, ls, data, zs, perm, i, i, d);
    let x = Seq::new(main.rows() as nat, |row: int| e.value(t, row));
    assert forall|row: int| 0 <= row < p.len() implies #[trigger] x[row] == field::vals(p)[row] by {
        vstd::arithmetic::div_mod::lemma_small_mod(row as nat, main.rows() as nat);
        p[row].lemma_view_range();
        vstd::arithmetic::div_mod::lemma_small_mod(p[row]@ as nat, field::q() as nat);
        assert(main.cell(row, main_col as int) == p[row]@ % field::q());
    }
    assert(x =~= field::vals(p));
}

/// An honest encryption is bound at every place of a batch: what the auxiliary
/// table of its trace publishes is accepted against its statement.
pub proof fn law_honest_encryption_is_bound(
    params: RegevParams,
    pk: PublicKey,
    ct: Ciphertext,
    w: EncryptionWitness,
    main: Matrix,
    g: EvalGadget,
    pv: &[F],
    ls: &[Lookup],
    data: &mut [LookupData],
    zs: &[Challenge],
    perm: ExtMatrix,
    published: &[LookupData],
    z: Challenge,
    instance: usize,
    r: Result<(), RegevVerifyError>,
)
    requires
        pk.a@.len() == params.n,
        pk.b@.len() == params.n,
        ct.c1@.len() == params.n,
        ct.c2@.len() == params.n,
        all_sized(pk, ct, w, params.n as int),
        call_ensures(air::generate_trace, (&pk, &ct, &w), main),
        encryption_arguments(ls@),
        zs@.len() == 10,
        forall|i: int| 0 <= i < 10 ==> #[trigger] zs@[i] == z,
        data@.len() == 4,
        forall|d: int| 0 <= d < 4 ==> (#[trigger] data@[d]).aux_idx == d,
        call_ensures(EvalGadget::generate_permutation, (&g, &main, pv, ls, data, zs), perm),
        published@ == final(data)@,
        call_ensures(
            prove::bind_encryption,
            (&params, &pk, &ct, published, z, instance),
            r,
        ),
    ensures
        r is Ok,
{
    let n = params.n as int;
    assert forall|k: int| 0 <= k < ls@.len() implies (#[trigger] ls@[k]).columns@[0] == k by {
        assert(k == 0 || k == 1 || k == 2 || k == 3 || k == 4 || k == 5 || k == 6 || k == 7 || k
            == 8 || k == 9);
    }
    assert forall|row: int, col: int|
        #![trigger main.cell(row, col)]
        0 <= row < n && 0 <= col < 12 implies main.cell(row, col) == encryption_row(
        pk,
        ct,
        w,
        row,
    )[col] % field::q() by {
        lemma_trace_entry(pk, ct, w, n, row, col);
    }
    assert(data@[0].aux_idx == 0 && data@[1].aux_idx == 1 && data@[2].aux_idx == 2
        && data@[3].aux_idx == 3);
    assert(zs@[0] == z && zs@[1] == z && zs@[2] == z && zs@[3] == z);
    lemma_published_column(g, main, pv, ls, data, zs, perm, z, 0, 0, 0, pk.a@);
    lemma_published_column(g, main, pv, ls, data, zs, perm, z, 1, 1, 1, pk.b@);
    lemma_published_column(g, main, pv, ls, data, zs, perm, z, 2, 2, 2, ct.c1@);
    lemma_published_column(g, main, pv, ls, data, zs, perm, z, 3, 3, 3, ct.c2@);
}

/// The auxiliary column of published entry `d` of a transfer.
pub open spec fn published_column(d: int) -> int {
    if d < 4 {
        d
    } else if d < 6 {
        d + 6
    } else {
        d + 12
    }
}

/// An honest transfer is bound at every place of a batch.
pub proof fn law_honest_transfer_is_bound(
    params: RegevParams,
    pk: PublicKey,
    t: Transfer,
    w: TransferWitness,
    main: Matrix,
    g: EvalGadget,
    pv: &[F],
    ls: &[Lookup],
    data: &mut [LookupData],
    zs: &[Challenge],
    perm: ExtMatrix,
    published: &[LookupData],
    z: Challenge,
    instance: usize,
    r: Result<(), RegevVerifyError>,
)
    requires
        pk.a@.len() == params.n,
        pk.b@.len() == params.n,
        t.before.c1@.len() == params.n,
        t.before.c2@.len() == params.n,
        t.delta.c1@.len() == params.n,
        t.delta.c2@.len() == params.n,
        t.after.c1@.len() == params.n,
        t.after.c2@.len() == params.n,
        transfer_sized(pk, t, w, params.n as int),
        call_ensures(transfer::generate_transfer_trace, (&pk, &w, &t), main),
        transfer_arguments(ls@),
        zs@.len() == 26,
        forall|i: int| 0 <= i < 26 ==> #[trigger] zs@[i] == z,
        data@.len() == 8,
        forall|d: int| 0 <= d < 8 ==> (#[trigger] data@[d]).aux_idx == published_column(d),
        call_ensures(EvalGadget::generate_permutation, (&g, &main, pv, ls, data, zs), perm),
        published@ == final(data)@,
        call_ensures(prove::bind_transfer, (&params, &pk, &t, published, z, instance), r),
    ensures
        r is Ok,
{
    let n = params.n as int;
    assert forall|k: int| 0 <= k < ls@.len() implies (#[trigger] ls@[k]).columns@[0] == k by {
        let o = (k - 2) % 8;
        assert(k == 0 || k == 1 || o == 0 || o == 1 || o == 2 || o == 3 || o == 4 || o == 5 || o
            == 6 || o == 7);
    }
    assert forall|row: int, col: int|
        #![trigger main.cell(row, col)]
        0 <= row < n && 0 <= col < 32 implies main.cell(row, col) == transfer_row(
        pk,
        t,
        w,
        row,
    )[col] % field::q() by {
        lemma_transfer_entry(pk, t, w, n, row, col);
    }
    assert forall|row: int| 0 <= row < n implies {
        let x = #[trigger] transfer_row(pk, t, w, row);
        &&& x[0] == pk.a@[row]@ && x[1] == pk.b@[row]@
        &&& x[2] == t.before.c1@[row]@ && x[3] == t.before.c2@[row]@
        &&& x[12] == t.delta.c1@[row]@ && x[13] == t.delta.c2@[row]@
        &&& x[22] == t.after.c1@[row]@ && x[23] == t.after.c2@[row]@
    } by {}
    lemma_published_column(g, main, pv, ls, data, zs, perm, z, 0, 0, 0, pk.a@);
    lemma_published_column(g, main, pv, ls, data, zs, perm, z, 1, 1, 1, pk.b@);
    lemma_published_column(g, main, pv, ls, data, zs, perm, z, 2, 2, 2, t.before.c1@);
    lemma_published_column(g, main, pv, ls, data, zs, perm, z, 3, 3, 3, t.before.c2@);
    lemma_published_column(g, main, pv, ls, data, zs, perm, z, 10, 4, 12, t.delta.c1@);
    lemma_published_column(g, main, pv, ls, data, zs, perm, z, 11, 5, 13, t.delta.c2@);
    lemma_published_column(g, main, pv, ls, data, zs, perm, z, 18, 6, 22, t.after.c1@);
    lemma_published_column(g, main, pv, ls, data, zs, perm, z, 19, 7, 23, t.after.c2@);
}

} // verus!
