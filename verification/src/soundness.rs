//! What a satisfied encryption trace means, and that honest traces satisfy the
//! constraints.

use crate::air;
use crate::correctness;
use crate::dft;
use crate::ext;
use crate::ext::Ext;
use crate::field;
use crate::gadget;
use crate::gadget::Lookup;
use crate::params::RegevParams;
use crate::poly;
use crate::regev;
use crate::regev::{CiphertextModel, KeyModel, WitnessModel};
use crate::sums;
use crate::symbolic::{BaseTables, Tables};
use vstd::prelude::*;

verus! {

/// The defect of a ring identity, a polynomial of degree below `2n`:
/// `p*r + e + mask - c - (X^n + 1)*k`.
pub open spec fn defect(
    p: Seq<int>,
    r: Seq<int>,
    e: Seq<int>,
    mask: Seq<int>,
    c: Seq<int>,
    k: Seq<int>,
) -> Seq<int> {
    Seq::new(
        2 * p.len(),
        |i: int|
            poly::conv(p, r, i) + poly::at(e, i) + poly::at(mask, i) - poly::at(c, i)
                - correctness::times_cyclotomic(k, p.len() as int, i),
    )
}

/// `x` times the number `d`.
pub open spec fn scaled(x: Seq<int>, d: int) -> Seq<int> {
    Seq::new(x.len(), |i: int| d * x[i])
}

/// The value of the defect is the defect of the values.
proof fn lemma_defect_value(
    p: Seq<int>,
    r: Seq<int>,
    e: Seq<int>,
    mask: Seq<int>,
    c: Seq<int>,
    k: Seq<int>,
    z: Ext,
)
    requires
        r.len() == p.len(),
        e.len() == p.len(),
        mask.len() == p.len(),
        c.len() == p.len(),
        k.len() == p.len(),
    ensures
        poly::eval(defect(p, r, e, mask, c, k), z) == poly::eval(p, z).times(
            poly::eval(r, z),
        ).plus(poly::eval(e, z)).plus(poly::eval(mask, z)).minus(poly::eval(c, z)).minus(
            z.pow(p.len()).plus(Ext::of(1)).times(poly::eval(k, z)),
        ),
{
    let n = p.len() as int;
    let len = (2 * n) as nat;
    let prod = poly::product(p, r);
    let pe = dft::padded(e, len);
    let pm = dft::padded(mask, len);
    let pc = dft::padded(c, len);
    let cyc = Seq::new(len, |i: int| correctness::times_cyclotomic(k, n, i));
    let s1 = Seq::new(len, |i: int| prod[i] + 1 * pe[i]);
    let s2 = Seq::new(len, |i: int| s1[i] + 1 * pm[i]);
    let s3 = Seq::new(len, |i: int| s2[i] + (-1) * pc[i]);
    let s4 = Seq::new(len, |i: int| s3[i] + (-1) * cyc[i]);
    poly::lemma_eval_product(p, r, z);
    poly::lemma_eval_padded(e, pe, z);
    poly::lemma_eval_padded(mask, pm, z);
    poly::lemma_eval_padded(c, pc, z);
    poly::lemma_eval_add(prod, pe, s1, 1, z);
    poly::lemma_eval_add(s1, pm, s2, 1, z);
    poly::lemma_eval_add(s2, pc, s3, -1, z);
    poly::lemma_eval_add(s3, cyc, s4, -1, z);
    assert(s4 =~= defect(p, r, e, mask, c, k));
    // (X^n + 1) * k
    let low = dft::padded(k, len);
    let high = Seq::new(len, |i: int| poly::at(k, i - n));
    poly::lemma_eval_padded(k, low, z);
    poly::lemma_eval_add(low, high, cyc, 1, z);
    poly::lemma_eval_shift(k, 2 * n, n, z);
    let f = |i: int| z.pow(i as nat).scaled(high[i]);
    let g = |i: int| z.pow(i as nat).scaled(poly::at(k, i - n));
    ext::lemma_esum_eq(0, 2 * n, f, g);
    let kz = poly::eval(k, z);
    let zn = z.pow(n as nat);
    ext::lemma_times_comm(kz, zn);
    ext::lemma_times_dist(zn, Ext::of(1), kz);
    ext::lemma_times_of(kz, 1);
}

/// The polynomials in the columns of an encryption trace.
pub open spec fn trace_noise(t: BaseTables, u: int, v: int) -> Seq<int> {
    Seq::new(t.height as nat, |i: int| (t.main)(i, u) - (t.main)(i, v))
}

/// All arguments use the same challenge.
pub open spec fn shared_challenge(t: Tables, count: int, z: Ext) -> bool {
    forall|i: int| 0 <= i < count ==> #[trigger] t.randomness[i] == z
}

/// An argument on one column puts the value of that column's polynomial into
/// the first row.
pub proof fn lemma_column_argument(ls: Seq<Lookup>, i: int, t: Tables, col: usize, z: Ext)
    requires
        t.base.height > 0,
        0 <= i < ls.len(),
        ls[i].wf(),
        ls[i].expr() == air::column_expr(col as int),
        t.randomness[ls[i].column()] == z,
        gadget::argument_relation(ls, i, t),
    ensures
        (t.aux)(0, ls[i].column()).cong(poly::eval(t.base.column(col as int), z)),
{
    let e = ls[i].expr();
    gadget::law_horner_gives_value(e, ls[i].column(), t);
    let p = Seq::new(t.base.height as nat, |row: int| e.value(t.base, row));
    assert forall|row: int| 0 <= row < t.base.height implies p[row] == #[trigger] t.base.column(
        col as int,
    )[row] by {
        air::lemma_column_value(t.base, row, col, col);
    }
    assert(p =~= t.base.column(col as int));
}

/// The same for the difference of two columns.
pub proof fn lemma_difference_argument(
    ls: Seq<Lookup>,
    i: int,
    t: Tables,
    u: usize,
    v: usize,
    z: Ext,
)
    requires
        t.base.height > 0,
        0 <= i < ls.len(),
        ls[i].wf(),
        ls[i].expr() == air::difference_expr(u as int, v as int),
        t.randomness[ls[i].column()] == z,
        gadget::argument_relation(ls, i, t),
    ensures
        (t.aux)(0, ls[i].column()).cong(poly::eval(trace_noise(t.base, u as int, v as int), z)),
{
    let e = ls[i].expr();
    gadget::law_horner_gives_value(e, ls[i].column(), t);
    let p = Seq::new(t.base.height as nat, |row: int| e.value(t.base, row));
    let d = trace_noise(t.base, u as int, v as int);
    assert forall|row: int| 0 <= row < t.base.height implies p[row] == #[trigger] d[row] by {
        air::lemma_column_value(t.base, row, u, v);
    }
    assert(p =~= d);
}

/// Congruent evaluations give a congruent identity residue.
proof fn lemma_residue_cong(
    a: Ext,
    a2: Ext,
    r: Ext,
    r2: Ext,
    e: Ext,
    e2: Ext,
    m: Ext,
    m2: Ext,
    c: Ext,
    c2: Ext,
    k: Ext,
    k2: Ext,
    w: Ext,
)
    requires
        a.cong(a2),
        r.cong(r2),
        e.cong(e2),
        m.cong(m2),
        c.cong(c2),
        k.cong(k2),
    ensures
        a.times(r).plus(e).plus(m).minus(c).minus(w.times(k)).cong(
            a2.times(r2).plus(e2).plus(m2).minus(c2).minus(w.times(k2)),
        ),
{
    ext::lemma_ext_cong_times(a, a2, r, r2);
    ext::lemma_ext_cong_times(w, w, k, k2);
    let p = a.times(r);
    let p2 = a2.times(r2);
    let q = w.times(k);
    let q2 = w.times(k2);
    lemma_linear_cong(p.c0, p2.c0, e.c0, e2.c0, m.c0, m2.c0, c.c0, c2.c0, q.c0, q2.c0);
    lemma_linear_cong(p.c1, p2.c1, e.c1, e2.c1, m.c1, m2.c1, c.c1, c2.c1, q.c1, q2.c1);
    lemma_linear_cong(p.c2, p2.c2, e.c2, e2.c2, m.c2, m2.c2, c.c2, c2.c2, q.c2, q2.c2);
    lemma_linear_cong(p.c3, p2.c3, e.c3, e2.c3, m.c3, m2.c3, c.c3, c2.c3, q.c3, q2.c3);
}

proof fn lemma_linear_cong(
    p: int,
    p2: int,
    e: int,
    e2: int,
    m: int,
    m2: int,
    c: int,
    c2: int,
    q: int,
    q2: int,
)
    requires
        sums::cong(p, p2),
        sums::cong(e, e2),
        sums::cong(m, m2),
        sums::cong(c, c2),
        sums::cong(q, q2),
    ensures
        sums::cong(p + e + m - c - q, p2 + e2 + m2 - c2 - q2),
{
}

/// The value of `d * x` is `d` times the value of `x`.
proof fn lemma_eval_scaled(x: Seq<int>, d: int, z: Ext)
    ensures
        poly::eval(scaled(x, d), z) == poly::eval(x, z).scaled(d),
{
    let zero = Seq::new(x.len(), |i: int| 0int);
    poly::lemma_eval_add(zero, x, scaled(x, d), d, z);
    let f = |i: int| z.pow(i as nat).scaled(zero[i]);
    assert forall|i: int| 0 <= i < x.len() implies #[trigger] f(i) == Ext::of(0) by {}
    ext::lemma_esum_zero(0, x.len() as int, f);
}

/// The zero polynomial has value zero.
proof fn lemma_eval_zero(n: nat, z: Ext)
    ensures
        poly::eval(Seq::new(n, |i: int| 0int), z) == Ext::of(0),
{
    let zero = Seq::new(n, |i: int| 0int);
    let f = |i: int| z.pow(i as nat).scaled(zero[i]);
    assert forall|i: int| 0 <= i < n implies #[trigger] f(i) == Ext::of(0) by {}
    ext::lemma_esum_zero(0, n as int, f);
}

/// The first ring identity at `z` says that `z` is a root of its defect.
pub proof fn lemma_first_identity_root(
    t: Tables,
    n: int,
    z: Ext,
    ia: int,
    ir: int,
    ie: int,
    ic: int,
    ik: int,
    a: Seq<int>,
    r: Seq<int>,
    e: Seq<int>,
    c: Seq<int>,
    k: Seq<int>,
)
    requires
        n > 0,
        t.randomness[0] == z,
        a.len() == n,
        r.len() == n,
        e.len() == n,
        c.len() == n,
        k.len() == n,
        (t.aux)(0, ia).cong(poly::eval(a, z)),
        (t.aux)(0, ir).cong(poly::eval(r, z)),
        (t.aux)(0, ie).cong(poly::eval(e, z)),
        (t.aux)(0, ic).cong(poly::eval(c, z)),
        (t.aux)(0, ik).cong(poly::eval(k, z)),
    ensures
        air::first_identity(t, n, ia, ir, ie, ic, ik) <==> poly::eval(
            defect(a, r, e, Seq::new(n as nat, |i: int| 0int), c, k),
            z,
        ).cong(Ext::of(0)),
{
    let zero = Seq::new(n as nat, |i: int| 0int);
    lemma_defect_value(a, r, e, zero, c, k, z);
    lemma_eval_zero(n as nat, z);
    let w = z.pow(n as nat).plus(Ext::of(1));
    lemma_residue_cong(
        (t.aux)(0, ia),
        poly::eval(a, z),
        (t.aux)(0, ir),
        poly::eval(r, z),
        (t.aux)(0, ie),
        poly::eval(e, z),
        Ext::of(0),
        Ext::of(0),
        (t.aux)(0, ic),
        poly::eval(c, z),
        (t.aux)(0, ik),
        poly::eval(k, z),
        w,
    );
    let x = air::identity_residue(t, n, ia, ir, ie, Ext::of(0), ic, ik);
    let y = poly::eval(defect(a, r, e, zero, c, k), z);
    assert(x.cong(y));
    ext::lemma_cong_reduced(x, y);
    ext::lemma_cong_reduced(x, Ext::of(0));
    ext::lemma_cong_reduced(y, Ext::of(0));
}

/// The second ring identity at `z` says that `z` is a root of its defect.
pub proof fn lemma_second_identity_root(
    t: Tables,
    n: int,
    delta: int,
    z: Ext,
    ib: int,
    ir: int,
    ie: int,
    im: int,
    ic: int,
    ik: int,
    b: Seq<int>,
    r: Seq<int>,
    e: Seq<int>,
    m: Seq<int>,
    c: Seq<int>,
    k: Seq<int>,
)
    requires
        n > 0,
        t.randomness[0] == z,
        b.len() == n,
        r.len() == n,
        e.len() == n,
        m.len() == n,
        c.len() == n,
        k.len() == n,
        (t.aux)(0, ib).cong(poly::eval(b, z)),
        (t.aux)(0, ir).cong(poly::eval(r, z)),
        (t.aux)(0, ie).cong(poly::eval(e, z)),
        (t.aux)(0, im).cong(poly::eval(m, z)),
        (t.aux)(0, ic).cong(poly::eval(c, z)),
        (t.aux)(0, ik).cong(poly::eval(k, z)),
    ensures
        air::second_identity(t, n, delta, ib, ir, ie, im, ic, ik) <==> poly::eval(
            defect(b, r, e, scaled(m, delta), c, k),
            z,
        ).cong(Ext::of(0)),
{
    let dm = scaled(m, delta);
    lemma_defect_value(b, r, e, dm, c, k, z);
    lemma_eval_scaled(m, delta, z);
    let w = z.pow(n as nat).plus(Ext::of(1));
    ext::lemma_ext_cong_scaled((t.aux)(0, im), poly::eval(m, z), delta, delta);
    lemma_residue_cong(
        (t.aux)(0, ib),
        poly::eval(b, z),
        (t.aux)(0, ir),
        poly::eval(r, z),
        (t.aux)(0, ie),
        poly::eval(e, z),
        (t.aux)(0, im).scaled(delta),
        poly::eval(m, z).scaled(delta),
        (t.aux)(0, ic),
        poly::eval(c, z),
        (t.aux)(0, ik),
        poly::eval(k, z),
        w,
    );
    let x = air::identity_residue(t, n, ib, ir, ie, (t.aux)(0, im).scaled(delta), ic, ik);
    let y = poly::eval(defect(b, r, e, dm, c, k), z);
    assert(x.cong(y));
    ext::lemma_cong_reduced(x, y);
    ext::lemma_cong_reduced(x, Ext::of(0));
    ext::lemma_cong_reduced(y, Ext::of(0));
}

// ---------------------------------------------------------------------------
// Soundness.
// ---------------------------------------------------------------------------
/// The defect of `c1 = a*r + e1` in the columns of a trace.
pub open spec fn first_trace_defect(t: BaseTables) -> Seq<int> {
    defect(
        t.column(air::COL_A as int),
        t.column(air::COL_R as int),
        trace_noise(t, air::COL_E1U as int, air::COL_E1V as int),
        Seq::new(t.height as nat, |i: int| 0int),
        t.column(air::COL_C1 as int),
        t.column(air::COL_K1 as int),
    )
}

/// The defect of `c2 = b*r + e2 + D*m` in the columns of a trace.
pub open spec fn second_trace_defect(t: BaseTables, delta: int) -> Seq<int> {
    defect(
        t.column(air::COL_B as int),
        t.column(air::COL_R as int),
        trace_noise(t, air::COL_E2U as int, air::COL_E2V as int),
        scaled(t.column(air::COL_M as int), delta),
        t.column(air::COL_C2 as int),
        t.column(air::COL_K2 as int),
    )
}

/// The first four arguments are the published ones.
pub proof fn lemma_enc_globals(ls: Seq<Lookup>)
    requires
        air::is_enc_lookups(ls),
    ensures
        gadget::globals_before(ls, 0) == 0,
        gadget::globals_before(ls, 1) == 1,
        gadget::globals_before(ls, 2) == 2,
        gadget::globals_before(ls, 3) == 3,
        gadget::globals_before(ls, 4) == 4,
        gadget::globals_before(ls, 10) == 4,
{
    reveal_with_fuel(gadget::globals_before, 12);
}

/// The auxiliary columns of a satisfied encryption trace start with the values
/// of the column polynomials.
proof fn lemma_enc_evaluations(ls: Seq<Lookup>, t: Tables, z: Ext)
    requires
        t.base.height > 0,
        air::is_enc_lookups(ls),
        shared_challenge(t, 10, z),
        gadget::arguments_relation(ls, t),
    ensures
        (t.aux)(0, 0).cong(poly::eval(t.base.column(air::COL_A as int), z)),
        (t.aux)(0, 1).cong(poly::eval(t.base.column(air::COL_B as int), z)),
        (t.aux)(0, 2).cong(poly::eval(t.base.column(air::COL_C1 as int), z)),
        (t.aux)(0, 3).cong(poly::eval(t.base.column(air::COL_C2 as int), z)),
        (t.aux)(0, 4).cong(poly::eval(t.base.column(air::COL_R as int), z)),
        (t.aux)(0, 5).cong(
            poly::eval(trace_noise(t.base, air::COL_E1U as int, air::COL_E1V as int), z),
        ),
        (t.aux)(0, 6).cong(
            poly::eval(trace_noise(t.base, air::COL_E2U as int, air::COL_E2V as int), z),
        ),
        (t.aux)(0, 7).cong(poly::eval(t.base.column(air::COL_M as int), z)),
        (t.aux)(0, 8).cong(poly::eval(t.base.column(air::COL_K1 as int), z)),
        (t.aux)(0, 9).cong(poly::eval(t.base.column(air::COL_K2 as int), z)),
{
    assert forall|i: int| 0 <= i < 10 implies #[trigger] gadget::argument_relation(ls, i, t)
        && ls[i].wf() && ls[i].column() == i && t.randomness[i] == z by {}
    assert(gadget::argument_relation(ls, 0, t));
    lemma_column_argument(ls, 0, t, air::COL_A, z);
    assert(gadget::argument_relation(ls, 1, t));
    lemma_column_argument(ls, 1, t, air::COL_B, z);
    assert(gadget::argument_relation(ls, 2, t));
    lemma_column_argument(ls, 2, t, air::COL_C1, z);
    assert(gadget::argument_relation(ls, 3, t));
    lemma_column_argument(ls, 3, t, air::COL_C2, z);
    assert(gadget::argument_relation(ls, 4, t));
    lemma_column_argument(ls, 4, t, air::COL_R, z);
    assert(gadget::argument_relation(ls, 5, t));
    lemma_difference_argument(ls, 5, t, air::COL_E1U, air::COL_E1V, z);
    assert(gadget::argument_relation(ls, 6, t));
    lemma_difference_argument(ls, 6, t, air::COL_E2U, air::COL_E2V, z);
    assert(gadget::argument_relation(ls, 7, t));
    lemma_column_argument(ls, 7, t, air::COL_M, z);
    assert(gadget::argument_relation(ls, 8, t));
    lemma_column_argument(ls, 8, t, air::COL_K1, z);
    assert(gadget::argument_relation(ls, 9, t));
    lemma_column_argument(ls, 9, t, air::COL_K2, z);
}

/// What a satisfied encryption trace of height `n` at the challenge `z` means:
/// `r` is ternary, the noise halves lie in `{0, 1, 2}`, `m` is binary, `z` is a
/// root of the defects of both ring identities, and the published values are
/// the values at `z` of the `a`, `b`, `c1` and `c2` columns.
pub proof fn law_satisfied_encryption_trace(ls: Seq<Lookup>, t: Tables, delta: int, z: Ext)
    requires
        t.base.height > 0,
        air::is_enc_lookups(ls),
        shared_challenge(t, 10, z),
        air::enc_relation(t.base.height, delta, t),
        gadget::arguments_relation(ls, t),
    ensures
        air::small_columns(
            t.base,
            air::COL_R as int,
            air::COL_E1U as int,
            air::COL_E1V as int,
            air::COL_E2U as int,
            air::COL_E2V as int,
            air::COL_M as int,
        ),
        poly::eval(first_trace_defect(t.base), z).cong(Ext::of(0)),
        poly::eval(second_trace_defect(t.base, delta), z).cong(Ext::of(0)),
        t.published[0].cong(poly::eval(t.base.column(air::COL_A as int), z)),
        t.published[1].cong(poly::eval(t.base.column(air::COL_B as int), z)),
        t.published[2].cong(poly::eval(t.base.column(air::COL_C1 as int), z)),
        t.published[3].cong(poly::eval(t.base.column(air::COL_C2 as int), z)),
{
    lemma_enc_evaluations(ls, t, z);
    lemma_enc_globals(ls);
    let n = t.base.height;
    assert(t.randomness[0] == z);
    lemma_first_identity_root(
        t,
        n,
        z,
        0,
        4,
        5,
        2,
        8,
        t.base.column(air::COL_A as int),
        t.base.column(air::COL_R as int),
        trace_noise(t.base, air::COL_E1U as int, air::COL_E1V as int),
        t.base.column(air::COL_C1 as int),
        t.base.column(air::COL_K1 as int),
    );
    lemma_second_identity_root(
        t,
        n,
        delta,
        z,
        1,
        4,
        6,
        7,
        3,
        9,
        t.base.column(air::COL_B as int),
        t.base.column(air::COL_R as int),
        trace_noise(t.base, air::COL_E2U as int, air::COL_E2V as int),
        t.base.column(air::COL_M as int),
        t.base.column(air::COL_C2 as int),
        t.base.column(air::COL_K2 as int),
    );
    lemma_published(ls, t, 0, poly::eval(t.base.column(air::COL_A as int), z));
    lemma_published(ls, t, 1, poly::eval(t.base.column(air::COL_B as int), z));
    lemma_published(ls, t, 2, poly::eval(t.base.column(air::COL_C1 as int), z));
    lemma_published(ls, t, 3, poly::eval(t.base.column(air::COL_C2 as int), z));
}

/// A published value is congruent to what its column holds.
pub proof fn lemma_published(ls: Seq<Lookup>, t: Tables, i: int, v: Ext)
    requires
        0 <= i < ls.len(),
        gadget::arguments_relation(ls, t),
        ls[i].kind is Global,
        ls[i].column() == i,
        (t.aux)(0, i).cong(v),
    ensures
        t.published[gadget::globals_before(ls, i)].cong(v),
{
    assert(gadget::argument_relation(ls, i, t));
    let p = t.published[gadget::globals_before(ls, i)];
    let x = (t.aux)(0, i);
    ext::lemma_cong_reduced(x, p);
    ext::lemma_cong_reduced(x, v);
    ext::lemma_cong_reduced(p, v);
}

// ---------------------------------------------------------------------------
// Completeness.
// ---------------------------------------------------------------------------
/// The auxiliary table is the one that the gadget generates for `ls`.
pub open spec fn generated_aux(ls: Seq<Lookup>, t: Tables) -> bool {
    forall|row: int, col: int|
        #![trigger (t.aux)(row, col)]
        0 <= row < t.base.height && 0 <= col < ls.len() ==> (t.aux)(row, col) == gadget::aux_cell(
            ls,
            ls.len() as int,
            t.base,
            t.randomness,
            row,
            col,
        )
}

/// Argument `i` owns column `i` if columns are numbered in order.
proof fn lemma_owner(ls: Seq<Lookup>, upto: int, i: int)
    requires
        0 <= i < upto <= ls.len(),
        forall|j: int| 0 <= j < ls.len() ==> (#[trigger] ls[j]).column() == j,
    ensures
        gadget::column_owner(ls, upto, i) == i,
    decreases upto,
{
    assert(ls[upto - 1].column() == upto - 1);
    if upto - 1 != i {
        lemma_owner(ls, upto - 1, i);
    }
}

/// A generated auxiliary table satisfies the Horner recurrences, and its first
/// row holds the values of the argument polynomials.
pub proof fn lemma_generated_horner(ls: Seq<Lookup>, t: Tables, i: int)
    requires
        t.base.height > 0,
        0 <= i < ls.len(),
        forall|j: int| 0 <= j < ls.len() ==> (#[trigger] ls[j]).column() == j,
        generated_aux(ls, t),
    ensures
        gadget::horner_relation(ls[i].expr(), i, t),
        (t.aux)(0, i) == poly::eval(ls[i].coefficients(t.base), t.randomness[i]).reduced(),
{
    lemma_owner(ls, ls.len() as int, i);
    let p = ls[i].coefficients(t.base);
    let z = t.randomness[i];
    let h = t.base.height;
    assert forall|row: int| 0 <= row < h implies #[trigger] (t.aux)(row, i) == poly::horner(
        p,
        row,
        z,
    ).reduced() by {}
    assert forall|row: int|
        #![trigger (t.aux)(row, i)]
        0 <= row < h - 1 implies (t.aux)(row, i).cong(
        Ext::of(ls[i].expr().value(t.base, row)).plus(z.times((t.aux)(row + 1, i))),
    ) by {
        let next = poly::horner(p, row + 1, z);
        let here = Ext::of(p[row]).plus(z.times(next));
        assert(poly::horner(p, row, z) == here);
        ext::lemma_reduced_cong(here);
        ext::lemma_reduced_cong(next);
        ext::lemma_ext_cong_times(z, z, next, next.reduced());
        let other = Ext::of(p[row]).plus(z.times(next.reduced()));
        assert((t.aux)(row + 1, i) == next.reduced());
        ext::lemma_cong_reduced(here, other);
        ext::lemma_cong_reduced(here.reduced(), other);
        assert(here.cong(other));
        assert(here.reduced().cong(here));
        ext::lemma_cong_reduced(here.reduced(), here);
    }
    let last = poly::horner(p, h - 1, z);
    assert(poly::horner(p, h, z) == Ext::of(0));
    ext::lemma_times_of(z, 0);
    assert(last == Ext::of(p[h - 1]).plus(z.times(Ext::of(0))));
    assert(last == Ext::of(p[h - 1]));
    ext::lemma_reduced_cong(last);
    poly::lemma_horner_eval(p, z);
}

proof fn lemma_at_cong(x: Seq<int>, y: Seq<int>, i: int)
    requires
        poly::cong_seq(x, y),
    ensures
        sums::cong(poly::at(x, i), poly::at(y, i)),
{
    if 0 <= i < x.len() {
        assert(sums::cong(x[i], y[i]));
    }
}

/// Congruent polynomials have congruent defects.
proof fn lemma_defect_cong(
    p: Seq<int>,
    p2: Seq<int>,
    r: Seq<int>,
    r2: Seq<int>,
    e: Seq<int>,
    e2: Seq<int>,
    m: Seq<int>,
    m2: Seq<int>,
    c: Seq<int>,
    c2: Seq<int>,
    k: Seq<int>,
    k2: Seq<int>,
    i: int,
)
    requires
        poly::cong_seq(p, p2),
        poly::cong_seq(r, r2),
        poly::cong_seq(e, e2),
        poly::cong_seq(m, m2),
        poly::cong_seq(c, c2),
        poly::cong_seq(k, k2),
        0 <= i < 2 * p.len(),
    ensures
        sums::cong(defect(p, r, e, m, c, k)[i], defect(p2, r2, e2, m2, c2, k2)[i]),
{
    let n = p.len() as int;
    poly::lemma_conv_cong(p, p2, r, r2, i);
    lemma_at_cong(e, e2, i);
    lemma_at_cong(m, m2, i);
    lemma_at_cong(c, c2, i);
    lemma_at_cong(k, k2, i);
    lemma_at_cong(k, k2, i - n);
    let q = correctness::times_cyclotomic(k, n, i);
    let q2 = correctness::times_cyclotomic(k2, n, i);
    assert(sums::cong(q, q2));
    lemma_linear_cong(
        poly::conv(p, r, i),
        poly::conv(p2, r2, i),
        poly::at(e, i),
        poly::at(e2, i),
        poly::at(m, i),
        poly::at(m2, i),
        poly::at(c, i),
        poly::at(c2, i),
        q,
        q2,
    );
}

/// A polynomial that is zero modulo `q` has value zero.
proof fn lemma_eval_vanishing(x: Seq<int>, z: Ext)
    requires
        forall|i: int| 0 <= i < x.len() ==> sums::cong(#[trigger] x[i], 0),
    ensures
        poly::eval(x, z).cong(Ext::of(0)),
{
    let zero = Seq::new(x.len(), |i: int| 0int);
    assert(poly::cong_seq(x, zero));
    poly::lemma_eval_cong(x, zero, z);
    lemma_eval_zero(x.len(), z);
}

/// The witness columns hold what an honest encryption put there.
pub open spec fn honest_columns(
    params: RegevParams,
    pk: KeyModel,
    ct: CiphertextModel,
    w: WitnessModel,
) -> bool {
    &&& pk.sized(params.n as int)
    &&& w.sized(params.n as int)
    &&& w.small()
    &&& w.k1 == regev::quotient(pk.a, w.r)
    &&& w.k2 == regev::quotient(pk.b, w.r)
    &&& ct == regev::encryption(params, pk, w)
}

/// With honest polynomials in (congruent) columns, both defects vanish.
pub proof fn lemma_honest_defects(
    params: RegevParams,
    pk: KeyModel,
    ct: CiphertextModel,
    w: WitnessModel,
    delta: int,
    a: Seq<int>,
    b: Seq<int>,
    c1: Seq<int>,
    c2: Seq<int>,
    r: Seq<int>,
    e1: Seq<int>,
    e2: Seq<int>,
    m: Seq<int>,
    k1: Seq<int>,
    k2: Seq<int>,
    z: Ext,
)
    requires
        params.n > 0,
        honest_columns(params, pk, ct, w),
        sums::cong(delta, params.scale()),
        poly::cong_seq(a, pk.a),
        poly::cong_seq(b, pk.b),
        poly::cong_seq(c1, ct.c1),
        poly::cong_seq(c2, ct.c2),
        poly::cong_seq(r, w.r),
        poly::cong_seq(e1, w.e1()),
        poly::cong_seq(e2, w.e2()),
        poly::cong_seq(m, w.m),
        poly::cong_seq(k1, w.k1),
        poly::cong_seq(k2, w.k2),
    ensures
        poly::eval(
            defect(a, r, e1, Seq::new(params.n as nat, |i: int| 0int), c1, k1),
            z,
        ).cong(Ext::of(0)),
        poly::eval(defect(b, r, e2, scaled(m, delta), c2, k2), z).cong(Ext::of(0)),
{
    let n = params.n as int;
    let zero = Seq::new(n as nat, |i: int| 0int);
    let dm = scaled(m, delta);
    let dw = scaled(w.m, params.scale());
    assert forall|i: int| 0 <= i < n implies sums::cong(#[trigger] dm[i], dw[i]) by {
        assert(sums::cong(m[i], w.m[i]));
        sums::lemma_cong_mul(delta, params.scale(), m[i], w.m[i]);
    }
    assert(poly::cong_seq(zero, zero));
    let d1 = defect(a, r, e1, zero, c1, k1);
    let d2 = defect(b, r, e2, dm, c2, k2);
    let h1 = defect(pk.a, w.r, w.e1(), zero, ct.c1, w.k1);
    let h2 = defect(pk.b, w.r, w.e2(), dw, ct.c2, w.k2);
    assert forall|i: int| 0 <= i < 2 * n implies sums::cong(#[trigger] d1[i], 0) by {
        lemma_defect_cong(a, pk.a, r, w.r, e1, w.e1(), zero, zero, c1, ct.c1, k1, w.k1, i);
        correctness::law_witness_ring_identities(params, pk, w, i);
        let lhs = poly::conv(pk.a, w.r, i) + poly::at(w.e1(), i);
        let rhs = poly::at(ct.c1, i) + correctness::times_cyclotomic(w.k1, n, i);
        assert(h1[i] == lhs - rhs);
        sums::lemma_cong_trans(d1[i], h1[i], 0);
    }
    assert forall|i: int| 0 <= i < 2 * n implies sums::cong(#[trigger] d2[i], 0) by {
        lemma_defect_cong(b, pk.b, r, w.r, e2, w.e2(), dm, dw, c2, ct.c2, k2, w.k2, i);
        correctness::law_witness_ring_identities(params, pk, w, i);
        let s = params.scale();
        assert(poly::at(dw, i) == s * poly::at(w.m, i)) by {
            if !(0 <= i < n) {
                assert(s * 0 == 0) by (nonlinear_arith);
            }
        }
        let lhs = poly::conv(pk.b, w.r, i) + poly::at(w.e2(), i) + s * poly::at(w.m, i);
        let rhs = poly::at(ct.c2, i) + correctness::times_cyclotomic(w.k2, n, i);
        assert(h2[i] == lhs - rhs);
        sums::lemma_cong_trans(d2[i], h2[i], 0);
    }
    lemma_eval_vanishing(d1, z);
    lemma_eval_vanishing(d2, z);
}

/// The main table is the trace of an encryption.
pub open spec fn is_trace(
    t: BaseTables,
    pk: KeyModel,
    ct: CiphertextModel,
    w: WitnessModel,
) -> bool {
    forall|i: int, col: int|
        #![trigger (t.main)(i, col)]
        0 <= i < t.height && 0 <= col < 12 ==> (t.main)(i, col) == air::trace_entry(
            pk,
            ct,
            w,
            i,
            col,
        ) % field::q()
}

/// Honest traces satisfy the constraints at every challenge: the trace of an
/// encryption, with the generated auxiliary table and its published first-row
/// values, meets the encryption constraints and the evaluation arguments.
pub proof fn law_honest_encryption_trace(
    params: RegevParams,
    pk: KeyModel,
    ct: CiphertextModel,
    w: WitnessModel,
    delta: int,
    ls: Seq<Lookup>,
    t: Tables,
    z: Ext,
)
    requires
        params.n > 0,
        t.base.height == params.n,
        honest_columns(params, pk, ct, w),
        sums::cong(delta, params.scale()),
        is_trace(t.base, pk, ct, w),
        air::is_enc_lookups(ls),
        shared_challenge(t, 10, z),
        generated_aux(ls, t),
        forall|j: int| 0 <= j < 4 ==> #[trigger] t.published[j] == (t.aux)(0, j),
    ensures
        air::enc_relation(params.n as int, delta, t),
        gadget::arguments_relation(ls, t),
{
    let n = params.n as int;
    let b = t.base;
    lemma_enc_globals(ls);
    assert forall|i: int| 0 <= i < ls.len() implies #[trigger] gadget::argument_relation(
        ls,
        i,
        t,
    ) by {
        lemma_generated_horner(ls, t, i);
        if i < 4 {
            assert(t.published[i] == (t.aux)(0, i));
            assert(gadget::globals_before(ls, i) == i);
        }
    }
    lemma_enc_evaluations(ls, t, z);
    let ca = b.column(air::COL_A as int);
    let cb = b.column(air::COL_B as int);
    let cc1 = b.column(air::COL_C1 as int);
    let cc2 = b.column(air::COL_C2 as int);
    let cr = b.column(air::COL_R as int);
    let ce1 = trace_noise(b, air::COL_E1U as int, air::COL_E1V as int);
    let ce2 = trace_noise(b, air::COL_E2U as int, air::COL_E2V as int);
    let cm = b.column(air::COL_M as int);
    let ck1 = b.column(air::COL_K1 as int);
    let ck2 = b.column(air::COL_K2 as int);
    assert(poly::cong_seq(ca, pk.a));
    assert(poly::cong_seq(cb, pk.b));
    assert(poly::cong_seq(cc1, ct.c1));
    assert(poly::cong_seq(cc2, ct.c2));
    assert(poly::cong_seq(cr, w.r));
    assert(poly::cong_seq(cm, w.m));
    assert(poly::cong_seq(ck1, w.k1));
    assert(poly::cong_seq(ck2, w.k2));
    assert(poly::cong_seq(ce1, w.e1())) by {
        assert forall|i: int| 0 <= i < n implies sums::cong(#[trigger] ce1[i], w.e1()[i]) by {
            sums::lemma_mod_sub2(w.e1u[i], w.e1v[i]);
        }
    }
    assert(poly::cong_seq(ce2, w.e2())) by {
        assert forall|i: int| 0 <= i < n implies sums::cong(#[trigger] ce2[i], w.e2()[i]) by {
            sums::lemma_mod_sub2(w.e2u[i], w.e2v[i]);
        }
    }
    lemma_honest_defects(
        params,
        pk,
        ct,
        w,
        delta,
        ca,
        cb,
        cc1,
        cc2,
        cr,
        ce1,
        ce2,
        cm,
        ck1,
        ck2,
        z,
    );
    assert(t.randomness[0] == z);
    lemma_first_identity_root(t, n, z, 0, 4, 5, 2, 8, ca, cr, ce1, cc1, ck1);
    lemma_second_identity_root(t, n, delta, z, 1, 4, 6, 7, 3, 9, cb, cr, ce2, cm, cc2, ck2);
    lemma_trits(b, air::COL_R as int, w.r);
    lemma_halves(b, air::COL_E1U as int, w.e1u);
    lemma_halves(b, air::COL_E1V as int, w.e1v);
    lemma_halves(b, air::COL_E2U as int, w.e2u);
    lemma_halves(b, air::COL_E2V as int, w.e2v);
    lemma_bits(b, air::COL_M as int, w.m);
}

pub proof fn lemma_trits(t: BaseTables, col: int, x: Seq<int>)
    requires
        x.len() == t.height,
        regev::within(x, -1, 1),
        forall|i: int|
            #![trigger (t.main)(i, col)]
            0 <= i < t.height ==> (t.main)(i, col) == x[i] % field::q(),
    ensures
        air::trits(t, col),
{
    assert forall|i: int|
        #![trigger (t.main)(i, col)]
        0 <= i < t.height implies air::is_trit((t.main)(i, col)) by {
        assert(-1 <= x[i] <= 1);
        sums::lemma_cong_mod(x[i]);
    }
}

pub proof fn lemma_halves(t: BaseTables, col: int, x: Seq<int>)
    requires
        x.len() == t.height,
        regev::within(x, 0, 2),
        forall|i: int|
            #![trigger (t.main)(i, col)]
            0 <= i < t.height ==> (t.main)(i, col) == x[i] % field::q(),
    ensures
        air::halves(t, col),
{
    assert forall|i: int|
        #![trigger (t.main)(i, col)]
        0 <= i < t.height implies air::is_half((t.main)(i, col)) by {
        assert(0 <= x[i] <= 2);
        sums::lemma_cong_mod(x[i]);
    }
}

pub proof fn lemma_bits(t: BaseTables, col: int, x: Seq<int>)
    requires
        x.len() == t.height,
        regev::within(x, 0, 1),
        forall|i: int|
            #![trigger (t.main)(i, col)]
            0 <= i < t.height ==> (t.main)(i, col) == x[i] % field::q(),
    ensures
        air::bits(t, col),
{
    assert forall|i: int|
        #![trigger (t.main)(i, col)]
        0 <= i < t.height implies air::is_bit((t.main)(i, col)) by {
        assert(0 <= x[i] <= 1);
        sums::lemma_cong_mod(x[i]);
    }
}

} // verus!
