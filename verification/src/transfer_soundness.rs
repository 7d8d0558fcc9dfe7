//! What a satisfied transfer trace means, and that honest transfers satisfy
//! the constraints.

use crate::air;
use crate::ext::Ext;
use crate::field;
use crate::gadget;
use crate::gadget::Lookup;
use crate::params::RegevParams;
use crate::poly;
use crate::regev;
use crate::regev::KeyModel;
use crate::soundness;
use crate::sums;
use crate::symbolic::{BaseTables, Tables};
use crate::transfer;
use crate::transfer::{Transfer, TransferWitness};
use vstd::prelude::*;

verus! {

/// The defect of `c1 = a*r + e1` in the columns of ciphertext `j`.
pub open spec fn first_ct_defect(t: BaseTables, j: int) -> Seq<int> {
    let c = transfer::ct_start(j);
    soundness::defect(
        t.column(0),
        t.column(c + 2),
        soundness::trace_noise(t, c + 3, c + 4),
        Seq::new(t.height as nat, |i: int| 0int),
        t.column(c),
        t.column(c + 8),
    )
}

/// The defect of `c2 = b*r + e2 + D*m` in the columns of ciphertext `j`.
pub open spec fn second_ct_defect(t: BaseTables, delta: int, j: int) -> Seq<int> {
    let c = transfer::ct_start(j);
    soundness::defect(
        t.column(1),
        t.column(c + 2),
        soundness::trace_noise(t, c + 5, c + 6),
        soundness::scaled(t.column(c + 7), delta),
        t.column(c + 1),
        t.column(c + 9),
    )
}

/// The first row of the auxiliary columns of ciphertext `j` holds the values of
/// its polynomials.
pub open spec fn ct_evaluations(t: Tables, z: Ext, j: int) -> bool {
    let c = transfer::ct_start(j);
    let a = transfer::aux_start(j);
    &&& (t.aux)(0, a).cong(poly::eval(t.base.column(c), z))
    &&& (t.aux)(0, a + 1).cong(poly::eval(t.base.column(c + 1), z))
    &&& (t.aux)(0, a + 2).cong(poly::eval(t.base.column(c + 2), z))
    &&& (t.aux)(0, a + 3).cong(poly::eval(soundness::trace_noise(t.base, c + 3, c + 4), z))
    &&& (t.aux)(0, a + 4).cong(poly::eval(soundness::trace_noise(t.base, c + 5, c + 6), z))
    &&& (t.aux)(0, a + 5).cong(poly::eval(t.base.column(c + 7), z))
    &&& (t.aux)(0, a + 6).cong(poly::eval(t.base.column(c + 8), z))
    &&& (t.aux)(0, a + 7).cong(poly::eval(t.base.column(c + 9), z))
}

proof fn lemma_ct_evaluations(
    ls: Seq<Lookup>,
    t: Tables,
    z: Ext,
    j: int,
    n1: Seq<char>,
    n2: Seq<char>,
)
    requires
        t.base.height > 0,
        0 <= j < 3,
        transfer::is_transfer_lookups(ls),
        transfer::is_ct_lookups(ls, j, n1, n2),
        soundness::shared_challenge(t, 26, z),
        gadget::arguments_relation(ls, t),
    ensures
        ct_evaluations(t, z, j),
{
    let c = transfer::ct_start(j);
    let a = transfer::aux_start(j);
    assert forall|i: int| 0 <= i < 26 implies #[trigger] gadget::argument_relation(ls, i, t)
        && ls[i].wf() && ls[i].column() == i && t.randomness[i] == z by {}
    assert(gadget::argument_relation(ls, a, t));
    soundness::lemma_column_argument(ls, a, t, c as usize, z);
    assert(gadget::argument_relation(ls, a + 1, t));
    soundness::lemma_column_argument(ls, a + 1, t, (c + 1) as usize, z);
    assert(gadget::argument_relation(ls, a + 2, t));
    soundness::lemma_column_argument(ls, a + 2, t, (c + 2) as usize, z);
    assert(gadget::argument_relation(ls, a + 3, t));
    soundness::lemma_difference_argument(ls, a + 3, t, (c + 3) as usize, (c + 4) as usize, z);
    assert(gadget::argument_relation(ls, a + 4, t));
    soundness::lemma_difference_argument(ls, a + 4, t, (c + 5) as usize, (c + 6) as usize, z);
    assert(gadget::argument_relation(ls, a + 5, t));
    soundness::lemma_column_argument(ls, a + 5, t, (c + 7) as usize, z);
    assert(gadget::argument_relation(ls, a + 6, t));
    soundness::lemma_column_argument(ls, a + 6, t, (c + 8) as usize, z);
    assert(gadget::argument_relation(ls, a + 7, t));
    soundness::lemma_column_argument(ls, a + 7, t, (c + 9) as usize, z);
}

proof fn lemma_key_evaluations(ls: Seq<Lookup>, t: Tables, z: Ext)
    requires
        t.base.height > 0,
        transfer::is_transfer_lookups(ls),
        soundness::shared_challenge(t, 26, z),
        gadget::arguments_relation(ls, t),
    ensures
        (t.aux)(0, 0).cong(poly::eval(t.base.column(0), z)),
        (t.aux)(0, 1).cong(poly::eval(t.base.column(1), z)),
{
    assert(ls[0].wf() && ls[0].column() == 0);
    assert(ls[1].wf() && ls[1].column() == 1);
    assert(t.randomness[0] == z && t.randomness[1] == z);
    assert(gadget::argument_relation(ls, 0, t));
    soundness::lemma_column_argument(ls, 0, t, 0, z);
    assert(gadget::argument_relation(ls, 1, t));
    soundness::lemma_column_argument(ls, 1, t, 1, z);
}

/// With the evaluations in place, the identities of ciphertext `j` say that `z`
/// is a root of its defects.
proof fn lemma_ct_identities(t: Tables, delta: int, z: Ext, j: int)
    requires
        t.base.height > 0,
        t.randomness[0] == z,
        (t.aux)(0, 0).cong(poly::eval(t.base.column(0), z)),
        (t.aux)(0, 1).cong(poly::eval(t.base.column(1), z)),
        ct_evaluations(t, z, j),
    ensures
        air::first_identity(
            t,
            t.base.height,
            0,
            transfer::aux_start(j) + 2,
            transfer::aux_start(j) + 3,
            transfer::aux_start(j) + 0,
            transfer::aux_start(j) + 6,
        ) <==> poly::eval(first_ct_defect(t.base, j), z).cong(Ext::of(0)),
        air::second_identity(
            t,
            t.base.height,
            delta,
            1,
            transfer::aux_start(j) + 2,
            transfer::aux_start(j) + 4,
            transfer::aux_start(j) + 5,
            transfer::aux_start(j) + 1,
            transfer::aux_start(j) + 7,
        ) <==> poly::eval(second_ct_defect(t.base, delta, j), z).cong(Ext::of(0)),
{
    let c = transfer::ct_start(j);
    let a = transfer::aux_start(j);
    let b = t.base;
    soundness::lemma_first_identity_root(
        t,
        b.height,
        z,
        0,
        a + 2,
        a + 3,
        a + 0,
        a + 6,
        b.column(0),
        b.column(c + 2),
        soundness::trace_noise(b, c + 3, c + 4),
        b.column(c),
        b.column(c + 8),
    );
    soundness::lemma_second_identity_root(
        t,
        b.height,
        delta,
        z,
        1,
        a + 2,
        a + 4,
        a + 5,
        a + 1,
        a + 7,
        b.column(1),
        b.column(c + 2),
        soundness::trace_noise(b, c + 5, c + 6),
        b.column(c + 7),
        b.column(c + 1),
        b.column(c + 9),
    );
}

/// Positions of the published arguments of a transfer.
pub proof fn lemma_transfer_globals(ls: Seq<Lookup>)
    requires
        transfer::is_transfer_lookups(ls),
    ensures
        gadget::globals_before(ls, 0) == 0,
        gadget::globals_before(ls, 1) == 1,
        gadget::globals_before(ls, 2) == 2,
        gadget::globals_before(ls, 3) == 3,
        gadget::globals_before(ls, 10) == 4,
        gadget::globals_before(ls, 11) == 5,
        gadget::globals_before(ls, 18) == 6,
        gadget::globals_before(ls, 19) == 7,
        gadget::globals_before(ls, 26) == 8,
{
    reveal_with_fuel(gadget::globals_before, 12);
    assert(gadget::globals_before(ls, 10) == 4);
    assert(gadget::globals_before(ls, 18) == 6);
    assert(gadget::globals_before(ls, 26) == 8);
}

/// What a satisfied transfer trace of height `n` at the challenge `z` means:
/// each of the three ciphertexts has a small witness and `z` is a root of the
/// defects of its ring identities; the message bits conserve, `before = after +
/// delta` as integers, without underflow; and the published values are the
/// values at `z` of the statement columns.
pub proof fn law_satisfied_transfer_trace(ls: Seq<Lookup>, t: Tables, delta: int, z: Ext)
    requires
        t.base.height > 0,
        transfer::is_transfer_lookups(ls),
        soundness::shared_challenge(t, 26, z),
        transfer::transfer_relation(t.base.height, delta, t),
        gadget::arguments_relation(ls, t),
    ensures
        forall|j: int|
            #![trigger transfer::ct_start(j)]
            0 <= j < 3 ==> {
                let c = transfer::ct_start(j);
                &&& air::small_columns(t.base, c + 2, c + 3, c + 4, c + 5, c + 6, c + 7)
                &&& poly::eval(first_ct_defect(t.base, j), z).cong(Ext::of(0))
                &&& poly::eval(second_ct_defect(t.base, delta, j), z).cong(Ext::of(0))
                &&& t.published[2 + 2 * j].cong(poly::eval(t.base.column(c), z))
                &&& t.published[3 + 2 * j].cong(poly::eval(t.base.column(c + 1), z))
            },
        t.published[0].cong(poly::eval(t.base.column(0), z)),
        t.published[1].cong(poly::eval(t.base.column(1), z)),
        regev::weighted(transfer::bit_values(t.base, transfer::ct_start(0) + 7))
            == regev::weighted(transfer::bit_values(t.base, transfer::ct_start(2) + 7))
            + regev::weighted(transfer::bit_values(t.base, transfer::ct_start(1) + 7)),
        regev::weighted(transfer::bit_values(t.base, transfer::ct_start(1) + 7))
            <= regev::weighted(transfer::bit_values(t.base, transfer::ct_start(0) + 7)),
{
    lemma_key_evaluations(ls, t, z);
    lemma_ct_evaluations(ls, t, z, 0, "eval:c1:before"@, "eval:c2:before"@);
    lemma_ct_evaluations(ls, t, z, 1, "eval:c1:delta"@, "eval:c2:delta"@);
    lemma_ct_evaluations(ls, t, z, 2, "eval:c1:after"@, "eval:c2:after"@);
    assert(t.randomness[0] == z);
    lemma_ct_identities(t, delta, z, 0);
    lemma_ct_identities(t, delta, z, 1);
    lemma_ct_identities(t, delta, z, 2);
    lemma_transfer_globals(ls);
    transfer::law_adder_conserves(t.base);
    let b = t.base;
    assert forall|i: int| 0 <= i < 26 implies (#[trigger] ls[i]).column() == i by {}
    soundness::lemma_published(ls, t, 0, poly::eval(b.column(0), z));
    soundness::lemma_published(ls, t, 1, poly::eval(b.column(1), z));
    soundness::lemma_published(ls, t, 2, poly::eval(b.column(transfer::ct_start(0)), z));
    soundness::lemma_published(ls, t, 3, poly::eval(b.column(transfer::ct_start(0) + 1), z));
    soundness::lemma_published(ls, t, 10, poly::eval(b.column(transfer::ct_start(1)), z));
    soundness::lemma_published(ls, t, 11, poly::eval(b.column(transfer::ct_start(1) + 1), z));
    soundness::lemma_published(ls, t, 18, poly::eval(b.column(transfer::ct_start(2)), z));
    soundness::lemma_published(ls, t, 19, poly::eval(b.column(transfer::ct_start(2) + 1), z));
    assert forall|j: int|
        #![trigger transfer::ct_start(j)]
        0 <= j < 3 implies {
        let c = transfer::ct_start(j);
        &&& air::small_columns(t.base, c + 2, c + 3, c + 4, c + 5, c + 6, c + 7)
        &&& poly::eval(first_ct_defect(t.base, j), z).cong(Ext::of(0))
        &&& poly::eval(second_ct_defect(t.base, delta, j), z).cong(Ext::of(0))
        &&& t.published[2 + 2 * j].cong(poly::eval(t.base.column(c), z))
        &&& t.published[3 + 2 * j].cong(poly::eval(t.base.column(c + 1), z))
    } by {
        if j == 0 {
        } else if j == 1 {
        } else {
            assert(j == 2);
        }
    }
}

/// The main table is the trace of a transfer.
pub open spec fn is_transfer_trace(
    t: BaseTables,
    pk: KeyModel,
    st: Transfer,
    w: TransferWitness,
) -> bool {
    forall|i: int, col: int|
        #![trigger (t.main)(i, col)]
        0 <= i < t.height && 0 <= col < 33 ==> (t.main)(i, col) == transfer::transfer_entry(
            pk,
            st,
            w,
            i,
            col,
        ) % field::q()
}

/// The columns of one ciphertext hold its polynomials.
proof fn lemma_ct_columns(
    params: RegevParams,
    t: BaseTables,
    pk: KeyModel,
    st: Transfer,
    w: TransferWitness,
    delta: int,
    z: Ext,
    j: int,
)
    requires
        0 <= j < 3,
        params.n > 0,
        t.height == params.n,
        soundness::honest_columns(params, pk, st.role(j), w.role(j)),
        sums::cong(delta, params.scale()),
        is_transfer_trace(t, pk, st, w),
    ensures
        air::small_columns(
            t,
            transfer::ct_start(j) + 2,
            transfer::ct_start(j) + 3,
            transfer::ct_start(j) + 4,
            transfer::ct_start(j) + 5,
            transfer::ct_start(j) + 6,
            transfer::ct_start(j) + 7,
        ),
        poly::eval(first_ct_defect(t, j), z).cong(Ext::of(0)),
        poly::eval(second_ct_defect(t, delta, j), z).cong(Ext::of(0)),
{
    let c = transfer::ct_start(j);
    let n = params.n as int;
    let ct = st.role(j);
    let x = w.role(j);
    assert forall|i: int, off: int|
        #![trigger (t.main)(i, c + off)]
        0 <= i < n && 0 <= off < 10 implies (t.main)(i, c + off) == transfer::ct_entry(
        ct,
        x,
        i,
        off,
    ) % field::q() by {
        assert((c + off - 2) / 10 == j && (c + off - 2) % 10 == off);
    }
    assert forall|i: int| #![trigger (t.main)(i, c)] 0 <= i < n implies (t.main)(i, c) == ct.c1[i]
        % field::q() by {
        assert((t.main)(i, c + 0) == transfer::ct_entry(ct, x, i, 0) % field::q());
    }
    let ce1 = soundness::trace_noise(t, c + 3, c + 4);
    let ce2 = soundness::trace_noise(t, c + 5, c + 6);
    assert(poly::cong_seq(t.column(0), pk.a));
    assert(poly::cong_seq(t.column(1), pk.b));
    assert(poly::cong_seq(t.column(c), ct.c1));
    assert(poly::cong_seq(t.column(c + 1), ct.c2));
    assert(poly::cong_seq(t.column(c + 2), x.r));
    assert(poly::cong_seq(t.column(c + 7), x.m));
    assert(poly::cong_seq(t.column(c + 8), x.k1));
    assert(poly::cong_seq(t.column(c + 9), x.k2));
    assert(poly::cong_seq(ce1, x.e1())) by {
        assert forall|i: int| 0 <= i < n implies sums::cong(#[trigger] ce1[i], x.e1()[i]) by {
            sums::lemma_mod_sub2(x.e1u[i], x.e1v[i]);
        }
    }
    assert(poly::cong_seq(ce2, x.e2())) by {
        assert forall|i: int| 0 <= i < n implies sums::cong(#[trigger] ce2[i], x.e2()[i]) by {
            sums::lemma_mod_sub2(x.e2u[i], x.e2v[i]);
        }
    }
    soundness::lemma_honest_defects(
        params,
        pk,
        ct,
        x,
        delta,
        t.column(0),
        t.column(1),
        t.column(c),
        t.column(c + 1),
        t.column(c + 2),
        ce1,
        ce2,
        t.column(c + 7),
        t.column(c + 8),
        t.column(c + 9),
        z,
    );
    soundness::lemma_trits(t, c + 2, x.r);
    soundness::lemma_halves(t, c + 3, x.e1u);
    soundness::lemma_halves(t, c + 4, x.e1v);
    soundness::lemma_halves(t, c + 5, x.e2u);
    soundness::lemma_halves(t, c + 6, x.e2v);
    soundness::lemma_bits(t, c + 7, x.m);
}

/// The carry column of a consistent transfer satisfies the adder.
proof fn lemma_honest_adder(t: BaseTables, pk: KeyModel, st: Transfer, w: TransferWitness)
    requires
        t.height > 0,
        is_transfer_trace(t, pk, st, w),
        transfer::chain_closes(w.before@.m, w.delta@.m, w.after@.m, t.height),
        w.before@.m.len() == t.height,
        w.delta@.m.len() == t.height,
        w.after@.m.len() == t.height,
        regev::within(w.before@.m, 0, 1),
        regev::within(w.delta@.m, 0, 1),
        regev::within(w.after@.m, 0, 1),
    ensures
        transfer::adder_relation(t),
{
    let n = t.height;
    let b = w.before@.m;
    let d = w.delta@.m;
    let a = w.after@.m;
    let c = Seq::new(n as nat, |i: int| transfer::carry(b, d, a, i));
    assert forall|i: int| 0 <= i < n implies 0 <= #[trigger] c[i] <= 1 by {
        if i > 0 {
            let out = transfer::carry_out(b, d, a, i - 1);
            assert(out == 0 || out == 2);
        }
    }
    assert forall|i: int| #![trigger (t.main)(i, 32)] 0 <= i < n implies (t.main)(i, 32) == c[i]
        % field::q() by {}
    soundness::lemma_bits(t, 32, c);
    assert forall|row: int| 0 <= row < n implies #[trigger] transfer::row_excess(t, row)
        == transfer::carry_out(b, d, a, row) by {
        assert(0 <= b[row] <= 1);
        assert(0 <= d[row] <= 1);
        assert(0 <= a[row] <= 1);
        assert(0 <= c[row] <= 1);
        assert((t.main)(row, 9) == b[row] % field::q());
        assert((t.main)(row, 19) == d[row] % field::q());
        assert((t.main)(row, 29) == a[row] % field::q());
        assert((t.main)(row, 32) == c[row] % field::q());
    }
    assert forall|row: int|
        #![trigger transfer::row_excess(t, row)]
        0 <= row < n - 1 implies sums::cong(
        transfer::row_excess(t, row),
        2 * (t.main)(row + 1, 32),
    ) by {
        let out = transfer::carry_out(b, d, a, row);
        assert(out == 0 || out == 2);
        assert(c[row + 1] == out / 2);
        assert((t.main)(row + 1, 32) == c[row + 1] % field::q());
    }
    let out = transfer::carry_out(b, d, a, n - 1);
    assert(out == 0 || out == 2);
    assert(transfer::carry(b, d, a, n) == out / 2);
    assert(transfer::row_excess(t, n - 1) == 0);
    assert((t.main)(0, 32) == c[0] % field::q());
}

/// Honest transfers satisfy the constraints at every challenge: the trace of
/// three encryptions whose messages conserve, with the generated auxiliary
/// table and its published first-row values, meets the transfer constraints and
/// the evaluation arguments.
pub proof fn law_honest_transfer_trace(
    params: RegevParams,
    pk: KeyModel,
    st: Transfer,
    w: TransferWitness,
    delta: int,
    ls: Seq<Lookup>,
    t: Tables,
    z: Ext,
)
    requires
        params.n > 0,
        t.base.height == params.n,
        soundness::honest_columns(params, pk, st.before@, w.before@),
        soundness::honest_columns(params, pk, st.delta@, w.delta@),
        soundness::honest_columns(params, pk, st.after@, w.after@),
        regev::weighted(w.before@.m) == regev::weighted(w.after@.m) + regev::weighted(w.delta@.m),
        sums::cong(delta, params.scale()),
        is_transfer_trace(t.base, pk, st, w),
        transfer::is_transfer_lookups(ls),
        soundness::shared_challenge(t, 26, z),
        soundness::generated_aux(ls, t),
        t.published[0] == (t.aux)(0, 0),
        t.published[1] == (t.aux)(0, 1),
        forall|j: int|
            #![trigger transfer::aux_start(j)]
            0 <= j < 3 ==> t.published[2 + 2 * j] == (t.aux)(0, transfer::aux_start(j))
                && t.published[3 + 2 * j] == (t.aux)(0, transfer::aux_start(j) + 1),
    ensures
        transfer::transfer_relation(params.n as int, delta, t),
        gadget::arguments_relation(ls, t),
{
    lemma_transfer_globals(ls);
    assert(t.published[2] == (t.aux)(0, transfer::aux_start(0)));
    assert(t.published[4] == (t.aux)(0, transfer::aux_start(1)));
    assert(t.published[6] == (t.aux)(0, transfer::aux_start(2)));
    assert forall|i: int| 0 <= i < ls.len() implies #[trigger] gadget::argument_relation(
        ls,
        i,
        t,
    ) by {
        soundness::lemma_generated_horner(ls, t, i);
        if ls[i].kind is Global {
            assert(i == 0 || i == 1 || i == 2 || i == 3 || i == 10 || i == 11 || i == 18 || i
                == 19) by {
                assert(ls[4].kind is Local && ls[5].kind is Local && ls[6].kind is Local
                    && ls[7].kind is Local && ls[8].kind is Local && ls[9].kind is Local);
                assert(ls[12].kind is Local && ls[13].kind is Local && ls[14].kind is Local
                    && ls[15].kind is Local && ls[16].kind is Local && ls[17].kind is Local);
                assert(ls[20].kind is Local && ls[21].kind is Local && ls[22].kind is Local
                    && ls[23].kind is Local && ls[24].kind is Local && ls[25].kind is Local);
            }
        }
    }
    lemma_key_evaluations(ls, t, z);
    lemma_ct_evaluations(ls, t, z, 0, "eval:c1:before"@, "eval:c2:before"@);
    lemma_ct_evaluations(ls, t, z, 1, "eval:c1:delta"@, "eval:c2:delta"@);
    lemma_ct_evaluations(ls, t, z, 2, "eval:c1:after"@, "eval:c2:after"@);
    assert(t.randomness[0] == z);
    lemma_ct_identities(t, delta, z, 0);
    lemma_ct_identities(t, delta, z, 1);
    lemma_ct_identities(t, delta, z, 2);
    lemma_ct_columns(params, t.base, pk, st, w, delta, z, 0);
    lemma_ct_columns(params, t.base, pk, st, w, delta, z, 1);
    lemma_ct_columns(params, t.base, pk, st, w, delta, z, 2);
    transfer::law_chain_closes_iff_conservation(
        w.before@.m,
        w.delta@.m,
        w.after@.m,
        params.n as int,
    );
    lemma_honest_adder(t.base, pk, st, w);
}

} // verus!
