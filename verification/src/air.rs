//! The constraint system proving that a Regev ciphertext is well formed:
//!
//! ```text
//! c1 = a*r + e1                 in Z_q[x]/(x^n + 1)
//! c2 = b*r + e2 + D*m           in Z_q[x]/(x^n + 1)
//! r  ternary, e1, e2 in CBD(2), m binary
//! ```
//!
//! One trace = one ciphertext, with one row per polynomial coefficient
//! (height = ring dimension `n`). Multiple ciphertexts batch as multiple
//! instances, sharing commitments and FRI.
//!
//! # Layout
//!
//! Main (base field) columns:
//!
//! | col | meaning                                  | constraint            |
//! |-----|------------------------------------------|-----------------------|
//! | a, b, c1, c2 | the public statement            | eval exposed at `z`   |
//! | r            | encryption randomness           | `r(r-1)(r+1) = 0`     |
//! | e1u, e1v     | CBD halves of `e1 = e1u - e1v`  | `x(x-1)(x-2) = 0`     |
//! | e2u, e2v     | CBD halves of `e2`              | `x(x-1)(x-2) = 0`     |
//! | m            | message bits                    | `m(m-1) = 0`          |
//! | k1, k2       | quotients by `x^n + 1`          | free                  |
//!
//! Auxiliary (extension field) columns: one Horner running-evaluation
//! column per polynomial (see [`crate::gadget`]), at the challenge `z`
//! sampled after the main trace is committed.
//!
//! The multiplication is verified at the single random point `z`
//! (Schwartz-Zippel), via two first-row constraints over the running
//! evaluations:
//!
//! ```text
//! A*R + E1          - C1 - (z^n + 1)*K1 = 0
//! B*R + E2 + D*M    - C2 - (z^n + 1)*K2 = 0
//! ```
//!
//! Only `A, B, C1, C2` (evaluations of public polynomials) are published;
//! the witness evaluations stay inside the auxiliary trace.

use crate::dft;
use crate::ext;
use crate::ext::Ext;
use crate::field;
use crate::field::F;
use crate::gadget::{Kind, Lookup};
use crate::ntt::log2_exact;
use crate::prime;
use crate::regev;
use crate::regev::{centered_to_field, Ciphertext, EncryptionWitness, PublicKey};
use crate::sums;
use crate::symbolic;
use crate::symbolic::{BaseTables, Body, Constraint, Expr, ExtExpr, Matrix, Tables, When};
use vstd::arithmetic::power2::*;
use vstd::prelude::*;

verus! {

// Main trace column indices.
pub const COL_A: usize = 0;

pub const COL_B: usize = 1;

pub const COL_C1: usize = 2;

pub const COL_C2: usize = 3;

pub const COL_R: usize = 4;

pub const COL_E1U: usize = 5;

pub const COL_E1V: usize = 6;

pub const COL_E2U: usize = 7;

pub const COL_E2V: usize = 8;

pub const COL_M: usize = 9;

pub const COL_K1: usize = 10;

pub const COL_K2: usize = 11;

pub const NUM_COLS: usize = 12;

// Auxiliary column indices: one evaluation argument each. The first four are
// exposed; the verifier recomputes them from the statement. The rest stay
// hidden.
pub const AUX_A: usize = 0;

pub const AUX_B: usize = 1;

pub const AUX_C1: usize = 2;

pub const AUX_C2: usize = 3;

pub const AUX_R: usize = 4;

pub const AUX_E1: usize = 5;

pub const AUX_E2: usize = 6;

pub const AUX_M: usize = 7;

pub const AUX_K1: usize = 8;

pub const AUX_K2: usize = 9;

pub const NUM_AUX: usize = 10;

// ---------------------------------------------------------------------------
// Smallness.
// ---------------------------------------------------------------------------
/// `x` is -1, 0 or 1 modulo `q`.
pub open spec fn is_trit(x: int) -> bool {
    sums::cong(x, -1) || sums::cong(x, 0) || sums::cong(x, 1)
}

/// `x` is 0, 1 or 2 modulo `q`.
pub open spec fn is_half(x: int) -> bool {
    sums::cong(x, 0) || sums::cong(x, 1) || sums::cong(x, 2)
}

/// `x` is 0 or 1 modulo `q`.
pub open spec fn is_bit(x: int) -> bool {
    sums::cong(x, 0) || sums::cong(x, 1)
}

proof fn lemma_factor(x: int, a: int)
    ensures
        sums::cong(x - a, 0) <==> sums::cong(x, a),
{
}

/// `x * (x - a)` vanishes exactly if `x` is 0 or `a`.
pub proof fn lemma_vanish2(x: int, a: int)
    ensures
        sums::cong(x * (x - a), 0) <==> sums::cong(x, 0) || sums::cong(x, a),
{
    lemma_factor(x, a);
    if sums::cong(x * (x - a), 0) {
        prime::lemma_zero_product(x, x - a);
    }
    if sums::cong(x, 0) {
        sums::lemma_cong_mul(x, 0, x - a, x - a);
        assert(0 * (x - a) == 0);
    }
    if sums::cong(x, a) {
        sums::lemma_cong_mul(x, x, x - a, 0);
        assert(x * 0 == 0);
    }
}

/// `x * (x - a) * (x - b)` vanishes exactly if `x` is 0, `a` or `b`.
pub proof fn lemma_vanish3(x: int, a: int, b: int)
    ensures
        sums::cong(x * (x - a) * (x - b), 0) <==> sums::cong(x, 0) || sums::cong(x, a)
            || sums::cong(x, b),
{
    lemma_vanish2(x, a);
    lemma_factor(x, b);
    let p = x * (x - a);
    if sums::cong(p * (x - b), 0) {
        prime::lemma_zero_product(p, x - b);
    }
    if sums::cong(p, 0) {
        sums::lemma_cong_mul(p, 0, x - b, x - b);
        assert(0 * (x - b) == 0);
    }
    if sums::cong(x, b) {
        sums::lemma_cong_mul(p, p, x - b, 0);
        assert(p * 0 == 0);
    }
}

/// Column `col` at the current row.
pub open spec fn column_expr(col: int) -> Expr {
    Expr::Main { offset: 0, index: col as usize }
}

/// The difference of two columns at the current row.
pub open spec fn difference_expr(u: int, v: int) -> Expr {
    Expr::Sub(Box::new(column_expr(u)), Box::new(column_expr(v)))
}

pub fn local(col: usize) -> (r: Expr)
    ensures
        r == column_expr(col as int),
{
    Expr::Main { offset: 0, index: col }
}

/// What single columns and differences of columns stand for.
pub proof fn lemma_column_value(t: BaseTables, row: int, u: usize, v: usize)
    requires
        0 <= row < t.height,
    ensures
        column_expr(u as int).value(t, row) == (t.main)(row, u as int),
        difference_expr(u as int, v as int).value(t, row) == (t.main)(row, u as int) - (t.main)(
            row,
            v as int,
        ),
{
    vstd::arithmetic::div_mod::lemma_small_mod(row as nat, t.height as nat);
    reveal_with_fuel(Expr::value, 3);
}

/// `x(x-1)(x+1) = 0` is asked of column `col` on every row.
pub open spec fn asserts_trit(c: Constraint, col: int) -> bool {
    c.asserts_base(
        When::Always,
        |t: BaseTables, row: int|
            (t.main)(row, col) * ((t.main)(row, col) - 1) * ((t.main)(row, col) + 1),
    )
}

/// `x(x-1)(x-2) = 0` is asked of column `col` on every row.
pub open spec fn asserts_half(c: Constraint, col: int) -> bool {
    c.asserts_base(
        When::Always,
        |t: BaseTables, row: int|
            (t.main)(row, col) * ((t.main)(row, col) - 1) * ((t.main)(row, col) - 2),
    )
}

/// `x(x-1) = 0` is asked of column `col` on every row.
pub open spec fn asserts_bit(c: Constraint, col: int) -> bool {
    c.asserts_base(
        When::Always,
        |t: BaseTables, row: int| (t.main)(row, col) * ((t.main)(row, col) - 1),
    )
}

/// A constraint on one column that holds on every row exactly if the entry is
/// as `p` says.
pub open spec fn checks_column(c: Constraint, col: usize, p: spec_fn(int) -> bool) -> bool {
    &&& forall|t: Tables|
        t.base.height > 0 ==> (#[trigger] c.on_rows(t) <==> forall|row: int|
            #![trigger (t.base.main)(row, col as int)]
            0 <= row < t.base.height ==> p((t.base.main)(row, col as int)))
    &&& c.when == When::Always
    &&& forall|w: int, pv: int, a: int, r: int, o: int, rows: int|
        #![trigger c.readable(w, pv, a, r, o, rows)]
        col < w && rows <= usize::MAX ==> c.readable(w, pv, a, r, o, rows)
}

/// A constraint whose value at a row is a function of one entry checks that
/// column.
proof fn lemma_checks_column(
    c: Constraint,
    e: Expr,
    col: usize,
    v: spec_fn(int) -> int,
    p: spec_fn(int) -> bool,
)
    requires
        c.when == When::Always,
        c.body == Body::Base(e),
        forall|t: BaseTables, row: int|
            0 <= row < t.height ==> #[trigger] e.value(t, row) == v((t.main)(row, col as int)),
        forall|x: int| #[trigger] p(x) <==> sums::cong(v(x), 0),
        forall|w: int, pv: int, row: int|
            col < w && row <= usize::MAX ==> #[trigger] e.fits(w, pv, row),
    ensures
        checks_column(c, col, p),
{
    assert forall|t: Tables, row: int| 0 <= row < t.base.height implies (#[trigger] c.holds(
        t,
        row,
    ) <==> p((t.base.main)(row, col as int))) by {
        assert(e.value(t.base, row) == v((t.base.main)(row, col as int)));
    }
    assert forall|t: Tables| t.base.height > 0 implies (#[trigger] c.on_rows(t) <==> forall|
        row: int,
    |
        #![trigger (t.base.main)(row, col as int)]
        0 <= row < t.base.height ==> p((t.base.main)(row, col as int))) by {
        if c.on_rows(t) {
            assert forall|row: int|
                #![trigger (t.base.main)(row, col as int)]
                0 <= row < t.base.height implies p((t.base.main)(row, col as int)) by {
                assert(c.holds(t, row));
            }
        }
    }
}

/// `x(x-1)(x+1) = 0` on every row.
pub fn ternary_constraint(col: usize) -> (c: Constraint)
    ensures
        checks_column(c, col, |x: int| is_trit(x)),
        asserts_trit(c, col as int),
        !c.reads_next_main(),
        c.body_degree() == 3,
{
    let minus = Expr::Sub(Box::new(local(col)), Box::new(Expr::Constant(1)));
    let plus = Expr::Add(Box::new(local(col)), Box::new(Expr::Constant(1)));
    let e = Expr::Mul(
        Box::new(Expr::Mul(Box::new(local(col)), Box::new(minus))),
        Box::new(plus),
    );
    let ghost g = e;
    let c = Constraint { when: When::Always, body: Body::Base(e) };
    proof {
        reveal_with_fuel(Expr::value, 5);
        reveal_with_fuel(Expr::degree, 5);
        reveal_with_fuel(Expr::fits, 5);
        reveal_with_fuel(Expr::reads_next, 5);
        assert forall|x: int| #[trigger] is_trit(x) <==> sums::cong(
            x * (x - 1) * (x - (-1)),
            0,
        ) by {
            lemma_vanish3(x, 1, -1);
        }
        assert forall|t: BaseTables, row: int| 0 <= row < t.height implies #[trigger] g.value(
            t,
            row,
        ) == (|x: int| x * (x - 1) * (x - (-1)))((t.main)(row, col as int)) by {
            lemma_column_value(t, row, col, col);
        }
        lemma_checks_column(
            c,
            g,
            col,
            |x: int| x * (x - 1) * (x - (-1)),
            |x: int| is_trit(x),
        );
    }
    c
}

/// `x(x-1)(x-2) = 0` on every row.
pub fn cbd_half_constraint(col: usize) -> (c: Constraint)
    ensures
        checks_column(c, col, |x: int| is_half(x)),
        asserts_half(c, col as int),
        !c.reads_next_main(),
        c.body_degree() == 3,
{
    let minus1 = Expr::Sub(Box::new(local(col)), Box::new(Expr::Constant(1)));
    let minus2 = Expr::Sub(Box::new(local(col)), Box::new(Expr::Constant(2)));
    let e = Expr::Mul(
        Box::new(Expr::Mul(Box::new(local(col)), Box::new(minus1))),
        Box::new(minus2),
    );
    let ghost g = e;
    let c = Constraint { when: When::Always, body: Body::Base(e) };
    proof {
        reveal_with_fuel(Expr::value, 5);
        reveal_with_fuel(Expr::degree, 5);
        reveal_with_fuel(Expr::fits, 5);
        reveal_with_fuel(Expr::reads_next, 5);
        assert forall|x: int| #[trigger] is_half(x) <==> sums::cong(x * (x - 1) * (x - 2), 0) by {
            lemma_vanish3(x, 1, 2);
        }
        assert forall|t: BaseTables, row: int| 0 <= row < t.height implies #[trigger] g.value(
            t,
            row,
        ) == (|x: int| x * (x - 1) * (x - 2))((t.main)(row, col as int)) by {
            lemma_column_value(t, row, col, col);
        }
        lemma_checks_column(c, g, col, |x: int| x * (x - 1) * (x - 2), |x: int| is_half(x));
    }
    c
}

/// `x(x-1) = 0` on every row.
pub fn bit_constraint(col: usize) -> (c: Constraint)
    ensures
        checks_column(c, col, |x: int| is_bit(x)),
        asserts_bit(c, col as int),
        !c.reads_next_main(),
        c.body_degree() == 2,
{
    let minus1 = Expr::Sub(Box::new(local(col)), Box::new(Expr::Constant(1)));
    let e = Expr::Mul(Box::new(local(col)), Box::new(minus1));
    let ghost g = e;
    let c = Constraint { when: When::Always, body: Body::Base(e) };
    proof {
        reveal_with_fuel(Expr::value, 4);
        reveal_with_fuel(Expr::degree, 4);
        reveal_with_fuel(Expr::fits, 4);
        reveal_with_fuel(Expr::reads_next, 4);
        assert forall|x: int| #[trigger] is_bit(x) <==> sums::cong(x * (x - 1), 0) by {
            lemma_vanish2(x, 1);
        }
        assert forall|t: BaseTables, row: int| 0 <= row < t.height implies #[trigger] g.value(
            t,
            row,
        ) == (|x: int| x * (x - 1))((t.main)(row, col as int)) by {
            lemma_column_value(t, row, col, col);
        }
        lemma_checks_column(c, g, col, |x: int| x * (x - 1), |x: int| is_bit(x));
    }
    c
}

// ---------------------------------------------------------------------------
// Ring identities.
// ---------------------------------------------------------------------------
/// `p*R + E + mask - C - (z^n + 1)*K`, over one row of the auxiliary columns
/// `p`, `r`, `e`, `c` and `k`.
pub open spec fn identity_at(
    t: Tables,
    row: int,
    n: int,
    p: int,
    r: int,
    e: int,
    mask: Ext,
    c: int,
    k: int,
) -> Ext {
    let zn1 = t.randomness[0].pow(n as nat).plus(Ext::of(1));
    (t.aux)(row, p).times((t.aux)(row, r)).plus((t.aux)(row, e)).plus(mask).minus(
        (t.aux)(row, c),
    ).minus(zn1.times((t.aux)(row, k)))
}

/// The identity's left-hand side on the first row.
pub open spec fn identity_residue(
    t: Tables,
    n: int,
    p: int,
    r: int,
    e: int,
    mask: Ext,
    c: int,
    k: int,
) -> Ext {
    identity_at(t, 0, n, p, r, e, mask, c, k)
}

/// `A*R + E1 - C1 - (z^n + 1)*K1 = 0` is asked on the first row.
pub open spec fn asserts_first_identity(
    out: Constraint,
    n: int,
    a: int,
    r: int,
    e: int,
    c: int,
    k: int,
) -> bool {
    out.asserts_ext(
        When::FirstRow,
        |t: Tables, row: int| identity_at(t, row, n, a, r, e, Ext::of(0), c, k),
    )
}

/// `B*R + E2 + D*M - C2 - (z^n + 1)*K2 = 0` is asked on the first row.
pub open spec fn asserts_second_identity(
    out: Constraint,
    n: int,
    delta: int,
    b: int,
    r: int,
    e: int,
    m: int,
    c: int,
    k: int,
) -> bool {
    out.asserts_ext(
        When::FirstRow,
        |t: Tables, row: int|
            identity_at(t, row, n, b, r, e, (t.aux)(row, m).scaled(delta), c, k),
    )
}

/// `A*R + E1 - C1 - (z^n + 1)*K1 = 0`.
pub open spec fn first_identity(t: Tables, n: int, a: int, r: int, e: int, c: int, k: int) -> bool {
    identity_residue(t, n, a, r, e, Ext::of(0), c, k).cong(Ext::of(0))
}

/// `B*R + E2 + D*M - C2 - (z^n + 1)*K2 = 0`.
pub open spec fn second_identity(
    t: Tables,
    n: int,
    delta: int,
    b: int,
    r: int,
    e: int,
    m: int,
    c: int,
    k: int,
) -> bool {
    identity_residue(t, n, b, r, e, (t.aux)(0, m).scaled(delta), c, k).cong(Ext::of(0))
}

/// A constraint on the first row only.
pub open spec fn checks_first_row(c: Constraint, p: spec_fn(Tables) -> bool) -> bool {
    &&& forall|t: Tables| t.base.height > 0 ==> (#[trigger] c.on_rows(t) <==> p(t))
    &&& c.when == When::FirstRow
}

fn aux(index: usize) -> (r: ExtExpr)
    ensures
        r == (ExtExpr::Aux { offset: 0, index }),
{
    ExtExpr::Aux { offset: 0, index }
}

/// `z^n + 1` by repeated squaring (`n` is a power of two).
fn cyclotomic(n: usize) -> (r: ExtExpr)
    requires
        dft::is_pow2(n as int),
    ensures
        forall|t: Tables, row: int|
            #[trigger] r.value(t, row) == t.randomness[0].pow(n as nat).plus(Ext::of(1)),
        r.degree() == 0,
        forall|col: int| !#[trigger] r.reads_next(col),
        forall|w: int, p: int, a: int, c: int, o: int, row: int|
            0 < c ==> #[trigger] r.fits(w, p, a, c, o, row),
{
    let bits: usize = log2_exact(n);
    let mut zn = ExtExpr::Randomness(0);
    let mut i: usize = 0;
    proof {
        lemma2_to64();
        reveal_with_fuel(ExtExpr::value, 2);
        reveal_with_fuel(ExtExpr::degree, 2);
        reveal_with_fuel(ExtExpr::fits, 2);
        assert forall|t: Tables, row: int| #[trigger] zn.value(t, row) == t.randomness[0].pow(
            pow2(0),
        ) by {
            let z = t.randomness[0];
            ext::lemma_times_of(z, 1);
            assert(z.pow(1) == z.times(z.pow(0)));
        }
    }
    while i < bits
        invariant
            i <= bits,
            forall|t: Tables, row: int|
                #[trigger] zn.value(t, row) == t.randomness[0].pow(pow2(i as nat)),
            zn.degree() == 0,
            forall|col: int| !#[trigger] zn.reads_next(col),
            forall|w: int, p: int, a: int, c: int, o: int, row: int|
                0 < c ==> #[trigger] zn.fits(w, p, a, c, o, row),
        decreases bits - i,
    {
        let ghost prev = zn;
        zn = ExtExpr::Square(Box::new(zn));
        proof {
            dft::lemma_pow2_step(i as nat);
            assert forall|t: Tables, row: int| #[trigger] zn.value(t, row) == t.randomness[0].pow(
                pow2(i as nat + 1),
            ) by {
                let h = pow2(i as nat);
                ext::lemma_pow_add(t.randomness[0], h, h);
                assert(zn.value(t, row) == prev.value(t, row).times(prev.value(t, row)));
            }
            assert forall|col: int| !#[trigger] zn.reads_next(col) by {
                assert(!prev.reads_next(col));
            }
            assert forall|w: int, p: int, a: int, c: int, o: int, row: int|
                0 < c implies #[trigger] zn.fits(w, p, a, c, o, row) by {
                assert(prev.fits(w, p, a, c, o, row));
            }
        }
        i = i + 1;
    }
    let ghost power = zn;
    let r = ExtExpr::Add(Box::new(zn), Box::new(ExtExpr::Base(Expr::Constant(1))));
    proof {
        reveal_with_fuel(ExtExpr::value, 2);
        reveal_with_fuel(ExtExpr::degree, 2);
        reveal_with_fuel(ExtExpr::fits, 2);
        assert forall|t: Tables, row: int| #[trigger] r.value(t, row) == t.randomness[0].pow(
            n as nat,
        ).plus(Ext::of(1)) by {
            assert(power.value(t, row) == t.randomness[0].pow(n as nat));
        }
        reveal_with_fuel(ExtExpr::reads_next, 2);
        assert forall|col: int| !#[trigger] r.reads_next(col) by {
            assert(!power.reads_next(col));
        }
        assert forall|w: int, p: int, a: int, c: int, o: int, row: int|
            0 < c implies #[trigger] r.fits(w, p, a, c, o, row) by {
            assert(power.fits(w, p, a, c, o, row));
        }
    }
    r
}

/// `A*R + E1 - C1 - (z^n + 1)*K1 = 0` on the first row.
pub fn first_identity_constraint(n: usize, a: usize, r: usize, e: usize, c: usize, k: usize) -> (
    out: Constraint)
    requires
        dft::is_pow2(n as int),
    ensures
        checks_first_row(
            out,
            |t: Tables|
                first_identity(t, n as int, a as int, r as int, e as int, c as int, k as int),
        ),
        asserts_first_identity(
            out,
            n as int,
            a as int,
            r as int,
            e as int,
            c as int,
            k as int,
        ),
        !out.reads_next_main(),
        out.body_degree() == 2,
        forall|w: int, pv: int, aw: int, rw: int, o: int, rows: int|
            #![trigger out.readable(w, pv, aw, rw, o, rows)]
            a < aw && r < aw && e < aw && c < aw && k < aw && 0 < rw && rows <= usize::MAX
                ==> out.readable(w, pv, aw, rw, o, rows),
{
    let zn1 = cyclotomic(n);
    let ghost z1 = zn1;
    let product = ExtExpr::Mul(Box::new(aux(a)), Box::new(aux(r)));
    let sum = ExtExpr::Add(Box::new(product), Box::new(aux(e)));
    let diff = ExtExpr::Sub(Box::new(sum), Box::new(aux(c)));
    let wrap = ExtExpr::Mul(Box::new(zn1), Box::new(aux(k)));
    let body = ExtExpr::Sub(Box::new(diff), Box::new(wrap));
    let ghost g = body;
    let out = Constraint { when: When::FirstRow, body: Body::Ext(body) };
    proof {
        let p = |t: Tables|
            first_identity(t, n as int, a as int, r as int, e as int, c as int, k as int);
        reveal_with_fuel(ExtExpr::value, 5);
        reveal_with_fuel(ExtExpr::degree, 5);
        reveal_with_fuel(ExtExpr::fits, 5);
        reveal_with_fuel(ExtExpr::reads_next, 5);
        assert forall|t: Tables, row: int| 0 <= row < t.base.height implies #[trigger] out.residue(
            t,
            row,
        ) == identity_at(
            t,
            row,
            n as int,
            a as int,
            r as int,
            e as int,
            Ext::of(0),
            c as int,
            k as int,
        ) by {
            vstd::arithmetic::div_mod::lemma_small_mod(row as nat, t.base.height as nat);
            assert(z1.value(t, row) == t.randomness[0].pow(n as nat).plus(Ext::of(1)));
            assert(g.value(t, row) == out.residue(t, row));
        }
        assert forall|t: Tables| t.base.height > 0 implies (#[trigger] out.on_rows(t) <==> p(
            t,
        )) by {
            let x = identity_residue(
                t,
                n as int,
                a as int,
                r as int,
                e as int,
                Ext::of(0),
                c as int,
                k as int,
            );
            assert(out.residue(t, 0) == x);
            assert(out.holds(t, 0) <==> x.cong(Ext::of(0)));
        }
        assert forall|col: int| !#[trigger] out.reads_next(col) by {
            assert(!z1.reads_next(col));
        }
        assert forall|w: int, pv: int, aw: int, rw: int, o: int, rows: int|
            #![trigger out.readable(w, pv, aw, rw, o, rows)]
            a < aw && r < aw && e < aw && c < aw && k < aw && 0 < rw && rows
                <= usize::MAX implies out.readable(w, pv, aw, rw, o, rows) by {
            assert forall|row: int| 0 <= row < rows implies #[trigger] out.fits(
                w,
                pv,
                aw,
                rw,
                o,
                row,
            ) by {
                assert(z1.fits(w, pv, aw, rw, o, row));
            }
        }
    }
    out
}

/// `B*R + E2 + D*M - C2 - (z^n + 1)*K2 = 0` on the first row.
pub fn second_identity_constraint(
    n: usize,
    delta: F,
    b: usize,
    r: usize,
    e: usize,
    m: usize,
    c: usize,
    k: usize,
) -> (out: Constraint)
    requires
        dft::is_pow2(n as int),
    ensures
        checks_first_row(
            out,
            |t: Tables|
                second_identity(
                    t,
                    n as int,
                    delta@,
                    b as int,
                    r as int,
                    e as int,
                    m as int,
                    c as int,
                    k as int,
                ),
        ),
        asserts_second_identity(
            out,
            n as int,
            delta@,
            b as int,
            r as int,
            e as int,
            m as int,
            c as int,
            k as int,
        ),
        !out.reads_next_main(),
        out.body_degree() == 2,
        forall|w: int, pv: int, aw: int, rw: int, o: int, rows: int|
            #![trigger out.readable(w, pv, aw, rw, o, rows)]
            b < aw && r < aw && e < aw && m < aw && c < aw && k < aw && 0 < rw && rows
                <= usize::MAX ==> out.readable(w, pv, aw, rw, o, rows),
{
    let zn1 = cyclotomic(n);
    let ghost z1 = zn1;
    let scale: u32 = delta.as_canonical_u32();
    let product = ExtExpr::Mul(Box::new(aux(b)), Box::new(aux(r)));
    let sum = ExtExpr::Add(Box::new(product), Box::new(aux(e)));
    let dm = ExtExpr::Mul(Box::new(aux(m)), Box::new(ExtExpr::Base(Expr::Constant(scale))));
    let masked = ExtExpr::Add(Box::new(sum), Box::new(dm));
    let diff = ExtExpr::Sub(Box::new(masked), Box::new(aux(c)));
    let wrap = ExtExpr::Mul(Box::new(zn1), Box::new(aux(k)));
    let body = ExtExpr::Sub(Box::new(diff), Box::new(wrap));
    let ghost g = body;
    let out = Constraint { when: When::FirstRow, body: Body::Ext(body) };
    proof {
        let p = |t: Tables|
            second_identity(
                t,
                n as int,
                delta@,
                b as int,
                r as int,
                e as int,
                m as int,
                c as int,
                k as int,
            );
        reveal_with_fuel(ExtExpr::value, 6);
        reveal_with_fuel(ExtExpr::degree, 6);
        reveal_with_fuel(ExtExpr::fits, 6);
        reveal_with_fuel(ExtExpr::reads_next, 6);
        assert forall|t: Tables, row: int| 0 <= row < t.base.height implies #[trigger] out.residue(
            t,
            row,
        ) == identity_at(
            t,
            row,
            n as int,
            b as int,
            r as int,
            e as int,
            (t.aux)(row, m as int).scaled(delta@),
            c as int,
            k as int,
        ) by {
            vstd::arithmetic::div_mod::lemma_small_mod(row as nat, t.base.height as nat);
            assert(z1.value(t, row) == t.randomness[0].pow(n as nat).plus(Ext::of(1)));
            ext::lemma_times_of((t.aux)(row, m as int), delta@);
            assert(g.value(t, row) == out.residue(t, row));
        }
        assert forall|t: Tables| t.base.height > 0 implies (#[trigger] out.on_rows(t) <==> p(
            t,
        )) by {
            let x = identity_residue(
                t,
                n as int,
                b as int,
                r as int,
                e as int,
                (t.aux)(0, m as int).scaled(delta@),
                c as int,
                k as int,
            );
            assert(out.residue(t, 0) == x);
            assert(out.holds(t, 0) <==> x.cong(Ext::of(0)));
        }
        assert forall|col: int| !#[trigger] out.reads_next(col) by {
            assert(!z1.reads_next(col));
        }
        assert forall|w: int, pv: int, aw: int, rw: int, o: int, rows: int|
            #![trigger out.readable(w, pv, aw, rw, o, rows)]
            b < aw && r < aw && e < aw && m < aw && c < aw && k < aw && 0 < rw && rows
                <= usize::MAX implies out.readable(w, pv, aw, rw, o, rows) by {
            assert forall|row: int| 0 <= row < rows implies #[trigger] out.fits(
                w,
                pv,
                aw,
                rw,
                o,
                row,
            ) by {
                assert(z1.fits(w, pv, aw, rw, o, row));
            }
        }
    }
    out
}

// ---------------------------------------------------------------------------
// Constraint lists.
// ---------------------------------------------------------------------------
/// Every entry of the column is -1, 0 or 1.
pub open spec fn trits(t: BaseTables, col: int) -> bool {
    forall|row: int|
        #![trigger (t.main)(row, col)]
        0 <= row < t.height ==> is_trit((t.main)(row, col))
}

/// Every entry of the column is 0, 1 or 2.
pub open spec fn halves(t: BaseTables, col: int) -> bool {
    forall|row: int|
        #![trigger (t.main)(row, col)]
        0 <= row < t.height ==> is_half((t.main)(row, col))
}

/// Every entry of the column is 0 or 1.
pub open spec fn bits(t: BaseTables, col: int) -> bool {
    forall|row: int|
        #![trigger (t.main)(row, col)]
        0 <= row < t.height ==> is_bit((t.main)(row, col))
}

/// The smallness of one ciphertext's witness columns.
pub open spec fn small_columns(
    t: BaseTables,
    r: int,
    e1u: int,
    e1v: int,
    e2u: int,
    e2v: int,
    m: int,
) -> bool {
    &&& trits(t, r)
    &&& halves(t, e1u)
    &&& halves(t, e1v)
    &&& halves(t, e2u)
    &&& halves(t, e2v)
    &&& bits(t, m)
}

/// The smallness of one row of one ciphertext's witness columns.
pub open spec fn small_row(
    t: BaseTables,
    row: int,
    r: int,
    e1u: int,
    e1v: int,
    e2u: int,
    e2v: int,
    m: int,
) -> bool {
    &&& is_trit((t.main)(row, r))
    &&& is_half((t.main)(row, e1u))
    &&& is_half((t.main)(row, e1v))
    &&& is_half((t.main)(row, e2u))
    &&& is_half((t.main)(row, e2v))
    &&& is_bit((t.main)(row, m))
}

/// The six constraints from position `at` on ask for the smallness of one
/// ciphertext's witness columns.
pub open spec fn asserts_smallness(
    cs: Seq<Constraint>,
    at: int,
    r: int,
    e1u: int,
    e1v: int,
    e2u: int,
    e2v: int,
    m: int,
) -> bool {
    &&& asserts_trit(cs[at], r)
    &&& asserts_half(cs[at + 1], e1u)
    &&& asserts_half(cs[at + 2], e1v)
    &&& asserts_half(cs[at + 3], e2u)
    &&& asserts_half(cs[at + 4], e2v)
    &&& asserts_bit(cs[at + 5], m)
}

/// What a smallness constraint asks of one row.
proof fn lemma_small_holds(c: Constraint, col: int, t: Tables, row: int)
    requires
        0 <= row < t.base.height,
    ensures
        asserts_trit(c, col) ==> (c.holds(t, row) <==> is_trit((t.base.main)(row, col))),
        asserts_half(c, col) ==> (c.holds(t, row) <==> is_half((t.base.main)(row, col))),
        asserts_bit(c, col) ==> (c.holds(t, row) <==> is_bit((t.base.main)(row, col))),
{
    let x = (t.base.main)(row, col);
    let v = c.residue(t, row);
    lemma_vanish3(x, 1, -1);
    lemma_vanish3(x, 1, 2);
    lemma_vanish2(x, 1);
}

/// Every constraint has degree at most 3, row selector included.
pub open spec fn low_degree(cs: Seq<Constraint>) -> bool {
    forall|i: int|
        0 <= i < cs.len() ==> (#[trigger] cs[i]).when.degree() + cs[i].body_degree() <= 3
}

/// Appends a constraint.
pub fn push_constraint(cs: &mut Vec<Constraint>, c: Constraint)
    ensures
        final(cs)@ == old(cs)@.push(c),
        forall|t: Tables|
            #[trigger] symbolic::satisfied(final(cs)@, t) <==> symbolic::satisfied(old(cs)@, t)
                && c.on_rows(t),
        low_degree(old(cs)@) && c.when.degree() + c.body_degree() <= 3 ==> low_degree(final(cs)@),
        forall|w: int, p: int, a: int, r: int, o: int, rows: int|
            #![trigger symbolic::all_readable(final(cs)@, w, p, a, r, o, rows)]
            symbolic::all_readable(old(cs)@, w, p, a, r, o, rows) && c.readable(
                w,
                p,
                a,
                r,
                o,
                rows,
            ) ==> symbolic::all_readable(final(cs)@, w, p, a, r, o, rows),
{
    let ghost before = cs@;
    let ghost added = c;
    cs.push(c);
    proof {
        assert forall|t: Tables| #[trigger] symbolic::satisfied(cs@, t) <==> symbolic::satisfied(
            before,
            t,
        ) && added.on_rows(t) by {
            symbolic::lemma_satisfied_push(before, added, t);
        }
    }
}

/// Appends the smallness constraints of one ciphertext's witness columns.
pub fn push_smallness(
    cs: &mut Vec<Constraint>,
    r: usize,
    e1u: usize,
    e1v: usize,
    e2u: usize,
    e2v: usize,
    m: usize,
)
    ensures
        forall|t: Tables|
            t.base.height > 0 ==> (#[trigger] symbolic::satisfied(final(cs)@, t)
                <==> symbolic::satisfied(old(cs)@, t) && small_columns(
                t.base,
                r as int,
                e1u as int,
                e1v as int,
                e2u as int,
                e2v as int,
                m as int,
            )),
        low_degree(old(cs)@) ==> low_degree(final(cs)@),
        forall|w: int, p: int, a: int, c: int, o: int, rows: int|
            #![trigger symbolic::all_readable(final(cs)@, w, p, a, c, o, rows)]
            symbolic::all_readable(old(cs)@, w, p, a, c, o, rows) && r < w && e1u < w && e1v < w
                && e2u < w && e2v < w && m < w && rows <= usize::MAX ==> symbolic::all_readable(
                final(cs)@,
                w,
                p,
                a,
                c,
                o,
                rows,
            ),
        final(cs)@.len() == old(cs)@.len() + 6,
        forall|i: int| 0 <= i < old(cs)@.len() ==> #[trigger] final(cs)@[i] == old(cs)@[i],
        asserts_smallness(
            final(cs)@,
            old(cs)@.len() as int,
            r as int,
            e1u as int,
            e1v as int,
            e2u as int,
            e2v as int,
            m as int,
        ),
        forall|i: int|
            old(cs)@.len() <= i < final(cs)@.len() ==> !(
            #[trigger] final(cs)@[i]).reads_next_main(),
{
    let ghost s0 = cs@;
    let c1 = ternary_constraint(r);
    let ghost g1 = c1;
    push_constraint(cs, c1);
    let ghost s1 = cs@;
    let c2 = cbd_half_constraint(e1u);
    let ghost g2 = c2;
    push_constraint(cs, c2);
    let ghost s2 = cs@;
    let c3 = cbd_half_constraint(e1v);
    let ghost g3 = c3;
    push_constraint(cs, c3);
    let ghost s3 = cs@;
    let c4 = cbd_half_constraint(e2u);
    let ghost g4 = c4;
    push_constraint(cs, c4);
    let ghost s4 = cs@;
    let c5 = cbd_half_constraint(e2v);
    let ghost g5 = c5;
    push_constraint(cs, c5);
    let ghost s5 = cs@;
    let c6 = bit_constraint(m);
    let ghost g6 = c6;
    push_constraint(cs, c6);
    proof {
        assert forall|t: Tables| t.base.height > 0 implies (#[trigger] symbolic::satisfied(
            cs@,
            t,
        ) <==> symbolic::satisfied(s0, t) && small_columns(
            t.base,
            r as int,
            e1u as int,
            e1v as int,
            e2u as int,
            e2v as int,
            m as int,
        )) by {
            assert(symbolic::satisfied(cs@, t) <==> symbolic::satisfied(s5, t) && g6.on_rows(t));
            assert(symbolic::satisfied(s5, t) <==> symbolic::satisfied(s4, t) && g5.on_rows(t));
            assert(symbolic::satisfied(s4, t) <==> symbolic::satisfied(s3, t) && g4.on_rows(t));
            assert(symbolic::satisfied(s3, t) <==> symbolic::satisfied(s2, t) && g3.on_rows(t));
            assert(symbolic::satisfied(s2, t) <==> symbolic::satisfied(s1, t) && g2.on_rows(t));
            assert(symbolic::satisfied(s1, t) <==> symbolic::satisfied(s0, t) && g1.on_rows(t));
            assert(g1.on_rows(t) <==> trits(t.base, r as int));
            assert(g2.on_rows(t) <==> halves(t.base, e1u as int));
            assert(g3.on_rows(t) <==> halves(t.base, e1v as int));
            assert(g4.on_rows(t) <==> halves(t.base, e2u as int));
            assert(g5.on_rows(t) <==> halves(t.base, e2v as int));
            assert(g6.on_rows(t) <==> bits(t.base, m as int));
        }
        assert forall|w: int, p: int, a: int, c: int, o: int, rows: int|
            #![trigger symbolic::all_readable(cs@, w, p, a, c, o, rows)]
            symbolic::all_readable(s0, w, p, a, c, o, rows) && r < w && e1u < w && e1v < w && e2u
                < w && e2v < w && m < w && rows <= usize::MAX implies symbolic::all_readable(
            cs@,
            w,
            p,
            a,
            c,
            o,
            rows,
        ) by {
            assert(g1.readable(w, p, a, c, o, rows));
            assert(g2.readable(w, p, a, c, o, rows));
            assert(g3.readable(w, p, a, c, o, rows));
            assert(g4.readable(w, p, a, c, o, rows));
            assert(g5.readable(w, p, a, c, o, rows));
            assert(g6.readable(w, p, a, c, o, rows));
            assert(symbolic::all_readable(s1, w, p, a, c, o, rows));
            assert(symbolic::all_readable(s2, w, p, a, c, o, rows));
            assert(symbolic::all_readable(s3, w, p, a, c, o, rows));
            assert(symbolic::all_readable(s4, w, p, a, c, o, rows));
            assert(symbolic::all_readable(s5, w, p, a, c, o, rows));
        }
    }
}

/// An evaluation argument.
pub fn evaluation(kind: Kind, expr: Expr, column: usize) -> (r: Lookup)
    ensures
        r.wf(),
        r.kind == kind,
        r.expr() == expr,
        r.column() == column,
        r.columns@.len() == 1,
{
    let mut inner: Vec<Expr> = Vec::new();
    inner.push(expr);
    let mut exprs: Vec<Vec<Expr>> = Vec::new();
    exprs.push(inner);
    let mut columns: Vec<usize> = Vec::new();
    columns.push(column);
    Lookup { kind, element_exprs: exprs, multiplicities_exprs: Vec::new(), columns }
}

pub fn difference(u: usize, v: usize) -> (r: Expr)
    ensures
        r == difference_expr(u as int, v as int),
{
    Expr::Sub(Box::new(local(u)), Box::new(local(v)))
}

/// The interaction is published under `name`.
pub open spec fn published_as(kind: Kind, name: Seq<char>) -> bool {
    kind matches Kind::Global(s) && s@ == name
}

pub fn exposed(name: &str) -> (r: Kind)
    ensures
        published_as(r, name@),
{
    Kind::Global(name.to_owned())
}

// ---------------------------------------------------------------------------
// The encryption constraint system.
// ---------------------------------------------------------------------------
/// Constraint system for one Regev encryption. `n` is the ring dimension
/// (= trace height) and `delta` the message scaling `D`.
#[derive(Clone, Debug)]
pub struct RegevEncAir {
    pub n: usize,
    pub delta: F,
}

/// The evaluation arguments of an encryption, in auxiliary-column order.
pub open spec fn is_enc_lookups(ls: Seq<Lookup>) -> bool {
    &&& ls.len() == NUM_AUX
    &&& forall|i: int|
        0 <= i < ls.len() ==> (#[trigger] ls[i]).wf() && ls[i].columns@.len() == 1 && ls[i].column()
            == i
    &&& ls[0].expr() == column_expr(COL_A as int)
    &&& ls[1].expr() == column_expr(COL_B as int)
    &&& ls[2].expr() == column_expr(COL_C1 as int)
    &&& ls[3].expr() == column_expr(COL_C2 as int)
    &&& ls[4].expr() == column_expr(COL_R as int)
    &&& ls[5].expr() == difference_expr(COL_E1U as int, COL_E1V as int)
    &&& ls[6].expr() == difference_expr(COL_E2U as int, COL_E2V as int)
    &&& ls[7].expr() == column_expr(COL_M as int)
    &&& ls[8].expr() == column_expr(COL_K1 as int)
    &&& ls[9].expr() == column_expr(COL_K2 as int)
    &&& published_as(ls[0].kind, "eval:a"@)
    &&& published_as(ls[1].kind, "eval:b"@)
    &&& published_as(ls[2].kind, "eval:c1"@)
    &&& published_as(ls[3].kind, "eval:c2"@)
    &&& forall|i: int| 4 <= i < ls.len() ==> (#[trigger] ls[i]).kind is Local
}

/// What the constraints of an encryption demand of the tables.
pub open spec fn enc_relation(n: int, delta: int, t: Tables) -> bool {
    &&& small_columns(
        t.base,
        COL_R as int,
        COL_E1U as int,
        COL_E1V as int,
        COL_E2U as int,
        COL_E2V as int,
        COL_M as int,
    )
    &&& first_identity(
        t,
        n,
        AUX_A as int,
        AUX_R as int,
        AUX_E1 as int,
        AUX_C1 as int,
        AUX_K1 as int,
    )
    &&& second_identity(
        t,
        n,
        delta,
        AUX_B as int,
        AUX_R as int,
        AUX_E2 as int,
        AUX_M as int,
        AUX_C2 as int,
        AUX_K2 as int,
    )
}

/// What the constraints of an encryption demand of one row: small entries, and
/// on the first row the two ring identities.
pub open spec fn enc_row_relation(n: int, delta: int, t: Tables, row: int) -> bool {
    &&& small_row(
        t.base,
        row,
        COL_R as int,
        COL_E1U as int,
        COL_E1V as int,
        COL_E2U as int,
        COL_E2V as int,
        COL_M as int,
    )
    &&& row == 0 ==> first_identity(
        t,
        n,
        AUX_A as int,
        AUX_R as int,
        AUX_E1 as int,
        AUX_C1 as int,
        AUX_K1 as int,
    )
    &&& row == 0 ==> second_identity(
        t,
        n,
        delta,
        AUX_B as int,
        AUX_R as int,
        AUX_E2 as int,
        AUX_M as int,
        AUX_C2 as int,
        AUX_K2 as int,
    )
}

/// The first eight constraints are those of an encryption, in order: six for
/// the smallness of the witness and two for the ring identities.
pub open spec fn are_enc_constraints(cs: Seq<Constraint>, n: int, delta: int) -> bool {
    &&& cs.len() >= 8
    &&& asserts_smallness(
        cs,
        0,
        COL_R as int,
        COL_E1U as int,
        COL_E1V as int,
        COL_E2U as int,
        COL_E2V as int,
        COL_M as int,
    )
    &&& asserts_first_identity(
        cs[6],
        n,
        AUX_A as int,
        AUX_R as int,
        AUX_E1 as int,
        AUX_C1 as int,
        AUX_K1 as int,
    )
    &&& asserts_second_identity(
        cs[7],
        n,
        delta,
        AUX_B as int,
        AUX_R as int,
        AUX_E2 as int,
        AUX_M as int,
        AUX_C2 as int,
        AUX_K2 as int,
    )
}

/// Row by row, the eight constraints of an encryption are its row relation.
proof fn lemma_enc_row(cs: Seq<Constraint>, n: int, delta: int, t: Tables, row: int)
    requires
        cs.len() == 8,
        are_enc_constraints(cs, n, delta),
        0 <= row < t.base.height,
    ensures
        (forall|i: int| 0 <= i < cs.len() ==> #[trigger] cs[i].holds(t, row)) <==> enc_row_relation(
            n,
            delta,
            t,
            row,
        ),
{
    lemma_small_holds(cs[0], COL_R as int, t, row);
    lemma_small_holds(cs[1], COL_E1U as int, t, row);
    lemma_small_holds(cs[2], COL_E1V as int, t, row);
    lemma_small_holds(cs[3], COL_E2U as int, t, row);
    lemma_small_holds(cs[4], COL_E2V as int, t, row);
    lemma_small_holds(cs[5], COL_M as int, t, row);
    let a = cs[6].residue(t, row);
    let b = cs[7].residue(t, row);
    if enc_row_relation(n, delta, t, row) {
        assert forall|i: int| 0 <= i < cs.len() implies #[trigger] cs[i].holds(t, row) by {
            assert(i == 0 || i == 1 || i == 2 || i == 3 || i == 4 || i == 5 || i == 6 || i == 7);
        }
    }
    if forall|i: int| 0 <= i < cs.len() ==> #[trigger] cs[i].holds(t, row) {
        assert(cs[6].holds(t, row));
        assert(cs[7].holds(t, row));
    }
}

impl RegevEncAir {
    pub fn new(n: usize, delta: F) -> (r: RegevEncAir)
        requires
            dft::is_pow2(n as int),
        ensures
            r.n == n,
            r.delta == delta,
    {
        RegevEncAir { n, delta }
    }

    pub fn width(&self) -> (r: usize)
        ensures
            r == 12,
    {
        NUM_COLS
    }

    /// `[a || b || c1 || c2]`, binding the statement into the transcript
    /// before the evaluation challenge `z` is sampled.
    pub fn num_public_values(&self) -> (r: usize)
        requires
            4 * self.n <= usize::MAX,
        ensures
            r == 4 * self.n,
    {
        4 * self.n
    }

    /// No constraint reads the next row of the main trace (only the
    /// auxiliary trace steps rows), so main columns open at one point only.
    pub fn main_next_row_columns(&self) -> (r: Vec<usize>)
        ensures
            r@.len() == 0,
    {
        Vec::new()
    }

    pub fn max_constraint_degree(&self) -> (r: Option<usize>)
        ensures
            r == Some(3usize),
    {
        Some(3)
    }

    /// The evaluation arguments: the statement polynomials published, the
    /// witness polynomials hidden.
    pub fn get_lookups(&self) -> (r: Vec<Lookup>)
        ensures
            is_enc_lookups(r@),
    {
        let mut ls: Vec<Lookup> = Vec::new();
        ls.push(evaluation(exposed("eval:a"), local(COL_A), AUX_A));
        ls.push(evaluation(exposed("eval:b"), local(COL_B), AUX_B));
        ls.push(evaluation(exposed("eval:c1"), local(COL_C1), AUX_C1));
        ls.push(evaluation(exposed("eval:c2"), local(COL_C2), AUX_C2));
        ls.push(evaluation(Kind::Local, local(COL_R), AUX_R));
        ls.push(evaluation(Kind::Local, difference(COL_E1U, COL_E1V), AUX_E1));
        ls.push(evaluation(Kind::Local, difference(COL_E2U, COL_E2V), AUX_E2));
        ls.push(evaluation(Kind::Local, local(COL_M), AUX_M));
        ls.push(evaluation(Kind::Local, local(COL_K1), AUX_K1));
        ls.push(evaluation(Kind::Local, local(COL_K2), AUX_K2));
        ls
    }

    /// The constraints: smallness of the witness, and the two ring identities
    /// at the random point. The Horner constraints themselves come from the
    /// gadget; here the running evaluations are consumed on the first row,
    /// where each auxiliary column holds `P(z)`.
    pub fn eval(&self) -> (cs: Vec<Constraint>)
        requires
            dft::is_pow2(self.n as int),
        ensures
            forall|t: Tables|
                t.base.height > 0 ==> (#[trigger] symbolic::satisfied(cs@, t) <==> enc_relation(
                    self.n as int,
                    self.delta@,
                    t,
                )),
            low_degree(cs@),
            forall|p: int, o: int, rows: int|
                #![trigger symbolic::all_readable(cs@, 12, p, 10, 10, o, rows)]
                rows <= usize::MAX ==> symbolic::all_readable(cs@, 12, p, 10, 10, o, rows),
            cs@.len() == 8,
            are_enc_constraints(cs@, self.n as int, self.delta@),
            forall|t: Tables, row: int|
                #![trigger enc_row_relation(self.n as int, self.delta@, t, row)]
                0 <= row < t.base.height ==> ((forall|i: int|
                    0 <= i < cs@.len() ==> #[trigger] cs@[i].holds(t, row)) <==> enc_row_relation(
                    self.n as int,
                    self.delta@,
                    t,
                    row,
                )),
            forall|i: int| 0 <= i < cs@.len() ==> !(#[trigger] cs@[i]).reads_next_main(),
    {
        let mut cs: Vec<Constraint> = Vec::new();
        proof {
            assert forall|t: Tables| #[trigger] symbolic::satisfied(cs@, t) by {
                symbolic::lemma_satisfied_empty(t);
            }
        }
        let ghost s0 = cs@;
        push_smallness(&mut cs, COL_R, COL_E1U, COL_E1V, COL_E2U, COL_E2V, COL_M);
        let ghost s1 = cs@;
        let i1 = first_identity_constraint(self.n, AUX_A, AUX_R, AUX_E1, AUX_C1, AUX_K1);
        let ghost g1 = i1;
        push_constraint(&mut cs, i1);
        let ghost s2 = cs@;
        let i2 = second_identity_constraint(
            self.n,
            self.delta,
            AUX_B,
            AUX_R,
            AUX_E2,
            AUX_M,
            AUX_C2,
            AUX_K2,
        );
        let ghost g2 = i2;
        push_constraint(&mut cs, i2);
        proof {
            assert forall|t: Tables| t.base.height > 0 implies (#[trigger] symbolic::satisfied(
                cs@,
                t,
            ) <==> enc_relation(self.n as int, self.delta@, t)) by {
                assert(symbolic::satisfied(cs@, t) <==> symbolic::satisfied(s2, t) && g2.on_rows(
                    t,
                ));
                assert(symbolic::satisfied(s2, t) <==> symbolic::satisfied(s1, t) && g1.on_rows(
                    t,
                ));
                assert(symbolic::satisfied(s0, t));
                assert(symbolic::satisfied(s1, t) <==> small_columns(
                    t.base,
                    COL_R as int,
                    COL_E1U as int,
                    COL_E1V as int,
                    COL_E2U as int,
                    COL_E2V as int,
                    COL_M as int,
                ));
            }
            assert forall|p: int, o: int, rows: int|
                #![trigger symbolic::all_readable(cs@, 12, p, 10, 10, o, rows)]
                rows <= usize::MAX implies symbolic::all_readable(cs@, 12, p, 10, 10, o, rows) by {
                assert(symbolic::all_readable(s0, 12, p, 10, 10, o, rows));
                assert(symbolic::all_readable(s1, 12, p, 10, 10, o, rows));
                assert(g1.readable(12, p, 10, 10, o, rows));
                assert(symbolic::all_readable(s2, 12, p, 10, 10, o, rows));
                assert(g2.readable(12, p, 10, 10, o, rows));
            }
            assert forall|i: int| 0 <= i < 6 implies #[trigger] cs@[i] == s1[i] by {}
            assert forall|t: Tables, row: int|
                #![trigger enc_row_relation(self.n as int, self.delta@, t, row)]
                0 <= row < t.base.height implies ((forall|i: int|
                0 <= i < cs@.len() ==> #[trigger] cs@[i].holds(t, row)) <==> enc_row_relation(
                self.n as int,
                self.delta@,
                t,
                row,
            )) by {
                lemma_enc_row(cs@, self.n as int, self.delta@, t, row);
            }
        }
        cs
    }
}

/// Entry (i, col) of the main trace of an encryption, modulo `q`.
pub open spec fn trace_entry(
    pk: regev::KeyModel,
    ct: regev::CiphertextModel,
    w: regev::WitnessModel,
    i: int,
    col: int,
) -> int {
    if col == COL_A {
        pk.a[i]
    } else if col == COL_B {
        pk.b[i]
    } else if col == COL_C1 {
        ct.c1[i]
    } else if col == COL_C2 {
        ct.c2[i]
    } else if col == COL_R {
        w.r[i]
    } else if col == COL_E1U {
        w.e1u[i]
    } else if col == COL_E1V {
        w.e1v[i]
    } else if col == COL_E2U {
        w.e2u[i]
    } else if col == COL_E2V {
        w.e2v[i]
    } else if col == COL_M {
        w.m[i]
    } else if col == COL_K1 {
        w.k1[i]
    } else {
        w.k2[i]
    }
}

/// Every polynomial of the statement and the witness reaches `n` coefficients.
pub open spec fn covers(
    pk: regev::KeyModel,
    ct: regev::CiphertextModel,
    w: regev::WitnessModel,
    n: int,
) -> bool {
    &&& pk.a.len() == n
    &&& pk.b.len() >= n
    &&& ct.c1.len() >= n
    &&& ct.c2.len() >= n
    &&& w.r.len() == n
    &&& w.e1u.len() >= n
    &&& w.e1v.len() >= n
    &&& w.e2u.len() >= n
    &&& w.e2v.len() >= n
    &&& w.m.len() >= n
    &&& w.k1.len() >= n
    &&& w.k2.len() >= n
}

/// Appends one row of the main trace.
pub(crate) fn push_row(
    values: &mut Vec<F>,
    pk: &PublicKey,
    ct: &Ciphertext,
    witness: &EncryptionWitness,
    i: usize,
)
    requires
        i < pk.a@.len(),
        covers(pk@, ct@, witness@, pk.a@.len() as int),
    ensures
        final(values)@.len() == old(values)@.len() + 12,
        forall|j: int|
            0 <= j < old(values)@.len() ==> #[trigger] final(values)@[j] == old(values)@[j],
        forall|col: int|
            0 <= col < 12 ==> #[trigger] final(values)@[old(values)@.len() + col]@ == trace_entry(
                pk@,
                ct@,
                witness@,
                i as int,
                col,
            ) % field::q(),
{
    broadcast use F::lemma_view_range;

    values.push(pk.a[i]);
    values.push(pk.b[i]);
    values.push(ct.c1[i]);
    values.push(ct.c2[i]);
    values.push(centered_to_field(witness.r[i] as i64));
    values.push(F::from_u8(witness.e1u[i]));
    values.push(F::from_u8(witness.e1v[i]));
    values.push(F::from_u8(witness.e2u[i]));
    values.push(F::from_u8(witness.e2v[i]));
    values.push(F::from_u8(witness.m[i]));
    values.push(witness.k1[i]);
    values.push(witness.k2[i]);
}

/// Build the main trace for one ciphertext.
pub fn generate_trace(pk: &PublicKey, ct: &Ciphertext, witness: &EncryptionWitness) -> (m: Matrix)
    requires
        covers(pk@, ct@, witness@, pk.a@.len() as int),
    ensures
        m.wf(),
        m.width == 12,
        m.rows() == pk.a@.len(),
        forall|i: int, col: int|
            #![trigger m.cell(i, col)]
            0 <= i < pk.a@.len() && 0 <= col < 12 ==> m.cell(i, col) == trace_entry(
                pk@,
                ct@,
                witness@,
                i,
                col,
            ) % field::q(),
{
    let n: usize = pk.a.len();
    let mut values: Vec<F> = Vec::new();
    let mut i: usize = 0;
    while i < n
        invariant
            i <= n,
            n == pk.a@.len(),
            covers(pk@, ct@, witness@, pk.a@.len() as int),
            values@.len() == i * 12,
            forall|r: int, col: int|
                #![trigger values@[r * 12 + col]]
                0 <= r < i && 0 <= col < 12 ==> values@[r * 12 + col]@ == trace_entry(
                    pk@,
                    ct@,
                    witness@,
                    r,
                    col,
                ) % field::q(),
        decreases n - i,
    {
        let ghost before = values@;
        push_row(&mut values, pk, ct, witness, i);
        proof {
            assert forall|r: int, col: int|
                #![trigger values@[r * 12 + col]]
                0 <= r < i + 1 && 0 <= col < 12 implies values@[r * 12 + col]@ == trace_entry(
                pk@,
                ct@,
                witness@,
                r,
                col,
            ) % field::q() by {
                if r < i {
                    assert(values@[r * 12 + col] == before[r * 12 + col]);
                } else {
                    assert(values@[before.len() + col]@ == trace_entry(
                        pk@,
                        ct@,
                        witness@,
                        i as int,
                        col,
                    ) % field::q());
                }
            }
        }
        i = i + 1;
    }
    let m = Matrix { values, width: NUM_COLS };
    proof {
        symbolic::lemma_rows(m.values@.len() as int, n as int, 12);
    }
    m
}

/// The public values for one instance: `[a || b || c1 || c2]`.
pub fn public_values(pk: &PublicKey, ct: &Ciphertext) -> (pv: Vec<F>)
    ensures
        pv@ == pk.a@ + pk.b@ + ct.c1@ + ct.c2@,
{
    let mut pv: Vec<F> = Vec::new();
    pv.extend_from_slice(&pk.a);
    pv.extend_from_slice(&pk.b);
    pv.extend_from_slice(&ct.c1);
    pv.extend_from_slice(&ct.c2);
    pv
}

} // verus!
