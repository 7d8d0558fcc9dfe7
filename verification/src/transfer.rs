//! Transfer constraint system: proves a value-level conservation law across
//! three ciphertexts in one STARK instance.
//!
//! # Statement
//!
//! Given three ciphertexts under the same public key `(a, b)`, `before`,
//! `delta` and `after`, the proof shows that each is a well-formed
//! encryption (same constraints as [`crate::air::RegevEncAir`]) and that
//! their plaintext values satisfy the conservation law
//!
//! ```text
//! before = after + delta        (as n-bit integers)
//! ```
//!
//! i.e. `delta = before - after` is exactly the amount removed from the
//! balance, with no underflow possible: `after` and `delta` are
//! committed bit vectors, hence non-negative, and the bit-addition is exact.
//!
//! # How
//!
//! The three message-bit columns are linked by a ripple-carry adder, one bit
//! per row, using a single carry column `c`:
//!
//! ```text
//! after[i] + delta[i] + c[i] = before[i] + 2*c[i+1]      (transition rows)
//! c[0] = 0                                               (first row)
//! after[n-1] + delta[n-1] + c[n-1] = before[n-1]         (last row: carry out 0)
//! c[i] in {0, 1}
//! ```
//!
//! All of degree at most 2. The last-row form forces the final carry to be
//! zero, so the equation holds over the integers (no wraparound mod `2^n`).
//!
//! # Layout
//!
//! One instance = one transfer, trace height `n`. Main columns: shared
//! `a, b`, then ten columns per ciphertext, then the carry:
//!
//! ```text
//! a b | c1 c2 r e1u e1v e2u e2v m k1 k2 |x3 (before, delta, after) | carry
//! ```
//!
//! Auxiliary columns: Horner evaluations of `a, b` (exposed) and, per
//! ciphertext, `c1, c2` (exposed) and `r, e1, e2, m, k1, k2` (hidden). The
//! verifier recomputes the 8 exposed evaluations from the claimed statement.

use crate::air;
use crate::air::{
    bit_constraint, difference, evaluation, exposed, first_identity_constraint, local,
    push_constraint, push_smallness, second_identity_constraint,
};
use crate::dft;
use crate::ext::Ext;
use crate::field;
use crate::field::F;
use crate::gadget::{Kind, Lookup};
use crate::regev;
use crate::regev::{
    centered_to_field, Ciphertext, CiphertextModel, EncryptionWitness, KeyModel, PublicKey,
    WitnessModel,
};
use crate::sums;
use crate::symbolic;
use crate::symbolic::{BaseTables, Body, Constraint, Expr, Matrix, Tables, When};
use vstd::arithmetic::power2::*;
use vstd::prelude::*;

verus! {

// Shared main columns.
pub const TCOL_A: usize = 0;

pub const TCOL_B: usize = 1;

/// Number of per-ciphertext main columns.
pub const CT_COLS: usize = 10;

// Per-ciphertext offsets, relative to `ct_base(j)`.
pub const OFF_C1: usize = 0;

pub const OFF_C2: usize = 1;

pub const OFF_R: usize = 2;

pub const OFF_E1U: usize = 3;

pub const OFF_E1V: usize = 4;

pub const OFF_E2U: usize = 5;

pub const OFF_E2V: usize = 6;

pub const OFF_M: usize = 7;

pub const OFF_K1: usize = 8;

pub const OFF_K2: usize = 9;

/// Carry column of the ripple-carry adder.
pub const TCOL_CARRY: usize = 32;

pub const TNUM_COLS: usize = 33;

/// Ciphertext roles, in column order.
pub const ROLE_BEFORE: usize = 0;

pub const ROLE_DELTA: usize = 1;

pub const ROLE_AFTER: usize = 2;

// Auxiliary columns: a, b exposed, then 8 per ciphertext
// (c1, c2 exposed; r, e1, e2, m, k1, k2 hidden).
pub const TAUX_A: usize = 0;

pub const TAUX_B: usize = 1;

pub const CT_AUX: usize = 8;

pub const AOFF_C1: usize = 0;

pub const AOFF_C2: usize = 1;

pub const AOFF_R: usize = 2;

pub const AOFF_E1: usize = 3;

pub const AOFF_E2: usize = 4;

pub const AOFF_M: usize = 5;

pub const AOFF_K1: usize = 6;

pub const AOFF_K2: usize = 7;

/// First main column of ciphertext `j`.
pub open spec fn ct_start(j: int) -> int {
    2 + j * 10
}

/// First auxiliary column of ciphertext `j`.
pub open spec fn aux_start(j: int) -> int {
    2 + j * 8
}

/// First main column of ciphertext `j`.
pub fn ct_base(j: usize) -> (r: usize)
    requires
        2 + j * 10 <= usize::MAX,
    ensures
        r == ct_start(j as int),
{
    2 + j * CT_COLS
}

/// First auxiliary column of ciphertext `j`.
pub fn aux_base(j: usize) -> (r: usize)
    requires
        2 + j * 8 <= usize::MAX,
    ensures
        r == aux_start(j as int),
{
    2 + j * CT_AUX
}

/// A transfer statement: three ciphertexts under the same public key whose
/// plaintext values satisfy `before = after + delta`.
#[derive(Clone, Debug)]
pub struct Transfer {
    pub before: Ciphertext,
    pub delta: Ciphertext,
    pub after: Ciphertext,
}

/// The prover's secret inputs for one transfer.
#[derive(Clone, Debug)]
pub struct TransferWitness {
    pub before: EncryptionWitness,
    pub delta: EncryptionWitness,
    pub after: EncryptionWitness,
}

impl Transfer {
    /// The ciphertext in role `j`.
    pub open spec fn role(self, j: int) -> CiphertextModel {
        if j == 0 {
            self.before@
        } else if j == 1 {
            self.delta@
        } else {
            self.after@
        }
    }
}

impl TransferWitness {
    /// The witness in role `j`.
    pub open spec fn role(self, j: int) -> WitnessModel {
        if j == 0 {
            self.before@
        } else if j == 1 {
            self.delta@
        } else {
            self.after@
        }
    }
}

// ---------------------------------------------------------------------------
// The carry chain.
// ---------------------------------------------------------------------------
/// The carry into bit `i` of the addition `after + delta`, given the sum
/// `before`.
pub open spec fn carry(before: Seq<int>, delta: Seq<int>, after: Seq<int>, i: int) -> int
    decreases i,
{
    if i <= 0 {
        0
    } else {
        (after[i - 1] + delta[i - 1] + carry(before, delta, after, i - 1) - before[i - 1]) / 2
    }
}

/// What is left of bit `i` for the next carry.
pub open spec fn carry_out(before: Seq<int>, delta: Seq<int>, after: Seq<int>, i: int) -> int {
    after[i] + delta[i] + carry(before, delta, after, i) - before[i]
}

/// The carry chain closes: every bit leaves 0 or 2, and nothing is carried out
/// of the last one.
pub open spec fn chain_closes(
    before: Seq<int>,
    delta: Seq<int>,
    after: Seq<int>,
    n: int,
) -> bool {
    &&& forall|i: int|
        0 <= i < n ==> #[trigger] carry_out(before, delta, after, i) == 0 || carry_out(
            before,
            delta,
            after,
            i,
        ) == 2
    &&& carry(before, delta, after, n) == 0
}

proof fn lemma_low_step(x: Seq<int>, k: int)
    requires
        0 <= k,
    ensures
        regev::low_value(x, k + 1) == regev::low_value(x, k) + x[k] * pow2(k as nat),
        regev::low_value(x, 0) == 0,
{
}

/// As far as the chain runs, it accounts for the difference of the values.
proof fn lemma_chain_value(
    before: Seq<int>,
    delta: Seq<int>,
    after: Seq<int>,
    c: spec_fn(int) -> int,
    k: int,
)
    requires
        0 <= k,
        c(0) == 0,
        forall|i: int|
            0 <= i < k ==> after[i] + delta[i] + #[trigger] c(i) - before[i] == 2 * c(i + 1),
    ensures
        regev::low_value(after, k) + regev::low_value(delta, k) == regev::low_value(before, k) + c(
            k,
        ) * pow2(k as nat),
    decreases k,
{
    if k == 0 {
        lemma_low_step(after, 0);
        lemma_low_step(delta, 0);
        lemma_low_step(before, 0);
    } else {
        let i = k - 1;
        lemma_chain_value(before, delta, after, c, i);
        lemma_low_step(after, i);
        lemma_low_step(delta, i);
        lemma_low_step(before, i);
        let p = pow2(i as nat) as int;
        dft::lemma_pow2_step(i as nat);
        let x = after[i];
        let y = delta[i];
        let z = before[i];
        let u = c(i);
        let v = c(k);
        assert(x + y + u - z == 2 * c(i + 1));
        assert(x * p + y * p + u * p - z * p == v * (2 * p)) by (nonlinear_arith)
            requires
                x + y + u - z == 2 * v,
        ;
        assert((i + 1) as nat == i as nat + 1);
    }
}

/// A closing carry chain means conservation: `before = after + delta` as
/// integers.
pub proof fn law_closing_chain_conserves(
    before: Seq<int>,
    delta: Seq<int>,
    after: Seq<int>,
    n: int,
)
    requires
        0 <= n,
        chain_closes(before, delta, after, n),
    ensures
        regev::low_value(before, n) == regev::low_value(after, n) + regev::low_value(delta, n),
{
    let c = |i: int| carry(before, delta, after, i);
    assert forall|i: int| 0 <= i < n implies after[i] + delta[i] + #[trigger] c(i) - before[i]
        == 2 * c(i + 1) by {
        let out = carry_out(before, delta, after, i);
        assert(out == 0 || out == 2);
        assert(c(i + 1) == out / 2);
    }
    lemma_chain_value(before, delta, after, c, n);
    assert(0 * pow2(n as nat) == 0);
}

/// The value of the digits from `k` on, in units of `2^k`.
spec fn high_value(x: Seq<int>, k: int, n: int) -> int
    decreases n - k,
{
    if k >= n {
        0
    } else {
        x[k] + 2 * high_value(x, k + 1, n)
    }
}

proof fn lemma_high_split(x: Seq<int>, k: int, n: int)
    requires
        0 <= k <= n,
    ensures
        regev::low_value(x, n) == regev::low_value(x, k) + high_value(x, k, n) * pow2(k as nat),
    decreases n - k,
{
    if k == n {
        assert(0 * pow2(k as nat) == 0);
    } else {
        lemma_high_split(x, k + 1, n);
        lemma_low_step(x, k);
        dft::lemma_pow2_step(k as nat);
        let p = pow2(k as nat) as int;
        let h = high_value(x, k + 1, n);
        let d = x[k];
        assert((d + 2 * h) * p == d * p + h * (2 * p)) by (nonlinear_arith);
        assert((k + 1) as nat == k as nat + 1);
    }
}

/// Conservation of binary values makes the carry chain close up to bit `k`.
proof fn lemma_chain_from_value(
    before: Seq<int>,
    delta: Seq<int>,
    after: Seq<int>,
    n: int,
    k: int,
)
    requires
        0 <= k <= n,
        before.len() == n,
        delta.len() == n,
        after.len() == n,
        regev::within(before, 0, 1),
        regev::within(delta, 0, 1),
        regev::within(after, 0, 1),
        regev::low_value(before, n) == regev::low_value(after, n) + regev::low_value(delta, n),
    ensures
        0 <= carry(before, delta, after, k) <= 1,
        forall|i: int|
            0 <= i < k ==> #[trigger] carry_out(before, delta, after, i) == 0 || carry_out(
                before,
                delta,
                after,
                i,
            ) == 2,
        high_value(after, k, n) + high_value(delta, k, n) + carry(before, delta, after, k)
            == high_value(before, k, n),
    decreases k,
{
    if k == 0 {
        lemma_high_split(before, 0, n);
        lemma_high_split(delta, 0, n);
        lemma_high_split(after, 0, n);
        lemma2_to64();
        lemma_low_step(before, 0);
        lemma_low_step(delta, 0);
        lemma_low_step(after, 0);
        let x = high_value(before, 0, n);
        let y = high_value(delta, 0, n);
        let z = high_value(after, 0, n);
        let p = pow2(0) as int;
        assert(x * p == x && y * p == y && z * p == z) by (nonlinear_arith)
            requires
                p == 1,
        ;
    } else {
        let i = k - 1;
        lemma_chain_from_value(before, delta, after, n, i);
        assert(0 <= before[i] <= 1);
        assert(0 <= delta[i] <= 1);
        assert(0 <= after[i] <= 1);
        let out = carry_out(before, delta, after, i);
        assert(out == 2 * (high_value(before, k, n) - high_value(after, k, n) - high_value(
            delta,
            k,
            n,
        )));
        assert(carry(before, delta, after, k) == out / 2);
    }
}

/// The carry chain of binary messages closes exactly if they conserve:
/// `before = after + delta` as `n`-bit integers.
pub proof fn law_chain_closes_iff_conservation(
    before: Seq<int>,
    delta: Seq<int>,
    after: Seq<int>,
    n: int,
)
    requires
        0 <= n,
        before.len() == n,
        delta.len() == n,
        after.len() == n,
        regev::within(before, 0, 1),
        regev::within(delta, 0, 1),
        regev::within(after, 0, 1),
    ensures
        chain_closes(before, delta, after, n) <==> regev::weighted(before) == regev::weighted(
            after,
        ) + regev::weighted(delta),
{
    assert(regev::low_value(before, n) == regev::weighted(before));
    assert(regev::low_value(delta, n) == regev::weighted(delta));
    assert(regev::low_value(after, n) == regev::weighted(after));
    if chain_closes(before, delta, after, n) {
        law_closing_chain_conserves(before, delta, after, n);
    }
    if regev::low_value(before, n) == regev::low_value(after, n) + regev::low_value(delta, n) {
        lemma_chain_from_value(before, delta, after, n, n);
    }
}

// ---------------------------------------------------------------------------
// The adder constraints.
// ---------------------------------------------------------------------------
/// `after + delta + carry - before` in a row of the main table.
pub open spec fn row_excess(t: BaseTables, row: int) -> int {
    (t.main)(row, ct_start(2) + 7) + (t.main)(row, ct_start(1) + 7) + (t.main)(row, 32) - (t.main)(
        row,
        ct_start(0) + 7,
    )
}

/// What the ripple-carry adder demands of the main table.
pub open spec fn adder_relation(t: BaseTables) -> bool {
    &&& air::bits(t, 32)
    &&& sums::cong((t.main)(0, 32), 0)
    &&& forall|row: int|
        #![trigger row_excess(t, row)]
        0 <= row < t.height - 1 ==> sums::cong(row_excess(t, row), 2 * (t.main)(row + 1, 32))
    &&& sums::cong(row_excess(t, t.height - 1), 0)
}

/// `c[0] = 0` is asked.
pub open spec fn asserts_carry_in(c: Constraint) -> bool {
    c.asserts_base(When::FirstRow, |t: BaseTables, row: int| (t.main)(row, 32))
}

/// `after[i] + delta[i] + c[i] - before[i] - 2*c[i+1] = 0` is asked on all rows
/// but the last.
pub open spec fn asserts_carry_step(c: Constraint) -> bool {
    c.asserts_base(
        When::Transition,
        |t: BaseTables, row: int|
            row_excess(t, row) - 2 * (t.main)(symbolic::next_row(t, row), 32),
    )
}

/// `after[i] + delta[i] + c[i] - before[i] = 0` is asked on the last row.
pub open spec fn asserts_carry_out(c: Constraint) -> bool {
    c.asserts_base(When::LastRow, |t: BaseTables, row: int| row_excess(t, row))
}

/// The expression `after + delta + carry - before`.
fn excess() -> (e: Expr)
    ensures
        forall|t: BaseTables, row: int|
            0 <= row < t.height ==> #[trigger] e.value(t, row) == row_excess(t, row),
        e.degree() == 1,
        forall|col: int| !#[trigger] e.reads_next(col),
        forall|w: int, p: int, row: int|
            33 <= w && row <= usize::MAX ==> #[trigger] e.fits(w, p, row),
{
    let m_after = local(29);
    let m_delta = local(19);
    let m_before = local(9);
    let sum = Expr::Add(Box::new(m_after), Box::new(m_delta));
    let with_carry = Expr::Add(Box::new(sum), Box::new(local(TCOL_CARRY)));
    let e = Expr::Sub(Box::new(with_carry), Box::new(m_before));
    proof {
        reveal_with_fuel(Expr::value, 5);
        reveal_with_fuel(Expr::degree, 5);
        reveal_with_fuel(Expr::fits, 5);
        reveal_with_fuel(Expr::reads_next, 5);
        assert forall|t: BaseTables, row: int| 0 <= row < t.height implies #[trigger] e.value(
            t,
            row,
        ) == row_excess(t, row) by {
            vstd::arithmetic::div_mod::lemma_small_mod(row as nat, t.height as nat);
        }
    }
    e
}

/// `c[0] = 0`.
fn carry_in_constraint() -> (c: Constraint)
    ensures
        forall|t: Tables|
            t.base.height > 0 ==> (#[trigger] c.on_rows(t) <==> sums::cong(
                (t.base.main)(0, 32),
                0,
            )),
        asserts_carry_in(c),
        !c.reads_next_main(),
        c.body_degree() == 1,
        forall|w: int, p: int, a: int, r: int, o: int, rows: int|
            #![trigger c.readable(w, p, a, r, o, rows)]
            33 <= w && rows <= usize::MAX ==> c.readable(w, p, a, r, o, rows),
{
    let c = Constraint { when: When::FirstRow, body: Body::Base(local(TCOL_CARRY)) };
    proof {
        reveal_with_fuel(Expr::value, 2);
        reveal_with_fuel(Expr::degree, 2);
        reveal_with_fuel(Expr::fits, 2);
        reveal_with_fuel(Expr::reads_next, 2);
        assert forall|t: Tables, row: int| 0 <= row < t.base.height implies #[trigger] c.residue(
            t,
            row,
        ) == Ext::of((t.base.main)(row, 32)) by {
            vstd::arithmetic::div_mod::lemma_small_mod(row as nat, t.base.height as nat);
        }
        assert forall|t: Tables| t.base.height > 0 implies (#[trigger] c.on_rows(t) <==> sums::cong(
            (t.base.main)(0, 32),
            0,
        )) by {
            assert(c.residue(t, 0) == Ext::of((t.base.main)(0, 32)));
            assert(c.holds(t, 0) <==> sums::cong((t.base.main)(0, 32), 0));
        }
    }
    c
}

/// `after[i] + delta[i] + c[i] - before[i] = 2*c[i+1]` on all rows but the last.
fn carry_step_constraint() -> (c: Constraint)
    ensures
        forall|t: Tables|
            t.base.height > 0 ==> (#[trigger] c.on_rows(t) <==> forall|row: int|
                #![trigger row_excess(t.base, row)]
                0 <= row < t.base.height - 1 ==> sums::cong(
                    row_excess(t.base, row),
                    2 * (t.base.main)(row + 1, 32),
                )),
        asserts_carry_step(c),
        forall|col: int| #[trigger] c.reads_next(col) ==> col == 32,
        c.body_degree() == 1,
        forall|w: int, p: int, a: int, r: int, o: int, rows: int|
            #![trigger c.readable(w, p, a, r, o, rows)]
            33 <= w && rows < usize::MAX ==> c.readable(w, p, a, r, o, rows),
{
    let e = excess();
    let ghost ge = e;
    let next = Expr::Main { offset: 1, index: TCOL_CARRY };
    let twice = Expr::Mul(Box::new(next), Box::new(Expr::Constant(2)));
    let body = Expr::Sub(Box::new(e), Box::new(twice));
    let ghost g = body;
    let c = Constraint { when: When::Transition, body: Body::Base(body) };
    proof {
        reveal_with_fuel(Expr::value, 4);
        reveal_with_fuel(Expr::degree, 4);
        reveal_with_fuel(Expr::fits, 4);
        reveal_with_fuel(Expr::reads_next, 4);
        assert forall|t: Tables, row: int| 0 <= row < t.base.height implies #[trigger] c.residue(
            t,
            row,
        ) == Ext::of(
            row_excess(t.base, row) - 2 * (t.base.main)(symbolic::next_row(t.base, row), 32),
        ) by {
            assert(ge.value(t.base, row) == row_excess(t.base, row));
            assert(g.value(t.base, row) == row_excess(t.base, row) - (t.base.main)(
                symbolic::next_row(t.base, row),
                32,
            ) * 2);
        }
        assert forall|col: int| #[trigger] c.reads_next(col) implies col == 32 by {
            assert(!ge.reads_next(col));
        }
        assert forall|t: Tables, row: int| 0 <= row < t.base.height - 1 implies (
        #[trigger] c.holds(t, row) <==> sums::cong(
            row_excess(t.base, row),
            2 * (t.base.main)(row + 1, 32),
        )) by {
            vstd::arithmetic::div_mod::lemma_small_mod((row + 1) as nat, t.base.height as nat);
            let x = row_excess(t.base, row);
            let y = 2 * (t.base.main)(row + 1, 32);
            assert(c.residue(t, row) == Ext::of(x - y));
            assert(c.holds(t, row) <==> sums::cong(x - y, 0));
        }
        assert forall|t: Tables| t.base.height > 0 implies (#[trigger] c.on_rows(t) <==> forall|
            row: int,
        |
            #![trigger row_excess(t.base, row)]
            0 <= row < t.base.height - 1 ==> sums::cong(
                row_excess(t.base, row),
                2 * (t.base.main)(row + 1, 32),
            )) by {
            if c.on_rows(t) {
                assert forall|row: int|
                    #![trigger row_excess(t.base, row)]
                    0 <= row < t.base.height - 1 implies sums::cong(
                    row_excess(t.base, row),
                    2 * (t.base.main)(row + 1, 32),
                ) by {
                    assert(c.holds(t, row));
                }
            }
        }
        assert forall|w: int, p: int, a: int, r: int, o: int, rows: int|
            #![trigger c.readable(w, p, a, r, o, rows)]
            33 <= w && rows < usize::MAX implies c.readable(w, p, a, r, o, rows) by {
            assert forall|row: int| 0 <= row < rows implies #[trigger] c.fits(
                w,
                p,
                a,
                r,
                o,
                row,
            ) by {
                assert(ge.fits(w, p, row));
            }
        }
    }
    c
}

/// Final carry zero: `after[n-1] + delta[n-1] + c[n-1] - before[n-1] = 0`.
fn carry_out_constraint() -> (c: Constraint)
    ensures
        forall|t: Tables|
            t.base.height > 0 ==> (#[trigger] c.on_rows(t) <==> sums::cong(
                row_excess(t.base, t.base.height - 1),
                0,
            )),
        asserts_carry_out(c),
        !c.reads_next_main(),
        c.body_degree() == 1,
        forall|w: int, p: int, a: int, r: int, o: int, rows: int|
            #![trigger c.readable(w, p, a, r, o, rows)]
            33 <= w && rows <= usize::MAX ==> c.readable(w, p, a, r, o, rows),
{
    let e = excess();
    let ghost ge = e;
    let c = Constraint { when: When::LastRow, body: Body::Base(e) };
    proof {
        assert forall|t: Tables, row: int| 0 <= row < t.base.height implies #[trigger] c.residue(
            t,
            row,
        ) == Ext::of(row_excess(t.base, row)) by {
            assert(ge.value(t.base, row) == row_excess(t.base, row));
        }
        assert forall|col: int| !#[trigger] c.reads_next(col) by {
            assert(!ge.reads_next(col));
        }
        assert forall|t: Tables| t.base.height > 0 implies (#[trigger] c.on_rows(t) <==> sums::cong(
            row_excess(t.base, t.base.height - 1),
            0,
        )) by {
            let row = t.base.height - 1;
            assert(ge.value(t.base, row) == row_excess(t.base, row));
            assert(c.holds(t, row) <==> sums::cong(row_excess(t.base, row), 0));
        }
        assert forall|w: int, p: int, a: int, r: int, o: int, rows: int|
            #![trigger c.readable(w, p, a, r, o, rows)]
            33 <= w && rows <= usize::MAX implies c.readable(w, p, a, r, o, rows) by {
            assert forall|row: int| 0 <= row < rows implies #[trigger] c.fits(
                w,
                p,
                a,
                r,
                o,
                row,
            ) by {
                assert(ge.fits(w, p, row));
            }
        }
    }
    c
}

/// Soundness of the adder: bits that satisfy it conserve, `before = after +
/// delta` over the integers, so `delta <= before`.
pub proof fn law_adder_conserves(t: BaseTables)
    requires
        t.height > 0,
        adder_relation(t),
        air::bits(t, ct_start(0) + 7),
        air::bits(t, ct_start(1) + 7),
        air::bits(t, ct_start(2) + 7),
    ensures
        regev::weighted(bit_values(t, ct_start(0) + 7)) == regev::weighted(
            bit_values(t, ct_start(2) + 7),
        ) + regev::weighted(bit_values(t, ct_start(1) + 7)),
        regev::weighted(bit_values(t, ct_start(1) + 7)) <= regev::weighted(
            bit_values(t, ct_start(0) + 7),
        ),
{
    let n = t.height;
    let before = bit_values(t, ct_start(0) + 7);
    let delta = bit_values(t, ct_start(1) + 7);
    let after = bit_values(t, ct_start(2) + 7);
    let c = |i: int| if i < n {
        (t.main)(i, 32) % field::q()
    } else {
        0
    };
    lemma_bit_values(t, ct_start(0) + 7);
    lemma_bit_values(t, ct_start(1) + 7);
    lemma_bit_values(t, ct_start(2) + 7);
    lemma_bit_values(t, 32);
    let cs = bit_values(t, 32);
    assert(c(0) == 0) by {
        assert(sums::cong((t.main)(0, 32), 0));
    }
    assert forall|i: int| 0 <= i < n implies after[i] + delta[i] + #[trigger] c(i) - before[i] == 2
        * c(i + 1) by {
        assert(0 <= before[i] <= 1);
        assert(0 <= delta[i] <= 1);
        assert(0 <= after[i] <= 1);
        assert(0 <= cs[i] <= 1);
        let s = after[i] + delta[i] + cs[i] - before[i];
        let x = row_excess(t, i);
        sums::lemma_cong_mod((t.main)(i, ct_start(0) + 7));
        sums::lemma_cong_mod((t.main)(i, ct_start(1) + 7));
        sums::lemma_cong_mod((t.main)(i, ct_start(2) + 7));
        sums::lemma_cong_mod((t.main)(i, 32));
        assert(sums::cong(s, x));
        if i < n - 1 {
            assert(0 <= cs[i + 1] <= 1);
            let y = (t.main)(i + 1, 32);
            assert(sums::cong(x, 2 * y));
            sums::lemma_cong_mod(y);
            assert(sums::cong(2 * y, 2 * (y % field::q())));
            sums::lemma_cong_trans(s, x, 2 * y);
            sums::lemma_cong_trans(s, 2 * y, 2 * (y % field::q()));
        } else {
            sums::lemma_cong_trans(s, x, 0);
        }
    }
    lemma_chain_value(before, delta, after, c, n);
    assert(0 * pow2(n as nat) == 0);
    assert(regev::low_value(before, n) == regev::weighted(before));
    assert(regev::low_value(delta, n) == regev::weighted(delta));
    assert(regev::low_value(after, n) == regev::weighted(after));
    regev::lemma_low_bound(after, n, 1);
}

/// The canonical entries of a column.
pub open spec fn bit_values(t: BaseTables, col: int) -> Seq<int> {
    Seq::new(t.height as nat, |i: int| (t.main)(i, col) % field::q())
}

proof fn lemma_bit_values(t: BaseTables, col: int)
    requires
        t.height >= 0,
        air::bits(t, col),
    ensures
        regev::within(bit_values(t, col), 0, 1),
{
    let x = bit_values(t, col);
    assert forall|i: int| 0 <= i < x.len() implies 0 <= #[trigger] x[i] <= 1 by {
        assert(air::is_bit((t.main)(i, col)));
    }
}

// ---------------------------------------------------------------------------
// The transfer constraint system.
// ---------------------------------------------------------------------------
/// Constraint system for one transfer (three well-formed encryptions and the
/// ripple-carry conservation `before = after + delta`).
#[derive(Clone, Debug)]
pub struct RegevTransferAir {
    pub n: usize,
    pub delta_scale: F,
}

/// The smallness and the ring identities of ciphertext `j`.
pub open spec fn ct_relation(n: int, delta: int, t: Tables, j: int) -> bool {
    let c = ct_start(j);
    let a = aux_start(j);
    &&& air::small_columns(t.base, c + 2, c + 3, c + 4, c + 5, c + 6, c + 7)
    &&& air::first_identity(t, n, 0, a + 2, a + 3, a + 0, a + 6)
    &&& air::second_identity(t, n, delta, 1, a + 2, a + 4, a + 5, a + 1, a + 7)
}

/// What the constraints of a transfer demand of the tables.
pub open spec fn transfer_relation(n: int, delta: int, t: Tables) -> bool {
    &&& ct_relation(n, delta, t, 0)
    &&& ct_relation(n, delta, t, 1)
    &&& ct_relation(n, delta, t, 2)
    &&& adder_relation(t.base)
}

/// The six constraints from position `at` on ask for the smallness of
/// ciphertext `j`.
pub open spec fn asserts_ct_smallness(cs: Seq<Constraint>, at: int, j: int) -> bool {
    let c = ct_start(j);
    air::asserts_smallness(cs, at, c + 2, c + 3, c + 4, c + 5, c + 6, c + 7)
}

/// The four constraints from position `at` on are the ripple-carry adder.
pub open spec fn asserts_adder(cs: Seq<Constraint>, at: int) -> bool {
    &&& air::asserts_bit(cs[at], 32)
    &&& asserts_carry_in(cs[at + 1])
    &&& asserts_carry_step(cs[at + 2])
    &&& asserts_carry_out(cs[at + 3])
}

/// The two constraints from position `at` on are the ring identities of
/// ciphertext `j`.
pub open spec fn asserts_ct_identities(
    cs: Seq<Constraint>,
    at: int,
    n: int,
    delta: int,
    j: int,
) -> bool {
    let a = aux_start(j);
    &&& air::asserts_first_identity(cs[at], n, 0, a + 2, a + 3, a + 0, a + 6)
    &&& air::asserts_second_identity(
        cs[at + 1],
        n,
        delta,
        1,
        a + 2,
        a + 4,
        a + 5,
        a + 1,
        a + 7,
    )
}

/// The constraints of a transfer, in order: the smallness of the three
/// ciphertexts, the adder, and the ring identities of the three ciphertexts.
pub open spec fn are_transfer_constraints(cs: Seq<Constraint>, n: int, delta: int) -> bool {
    &&& cs.len() == 28
    &&& asserts_ct_smallness(cs, 0, 0)
    &&& asserts_ct_smallness(cs, 6, 1)
    &&& asserts_ct_smallness(cs, 12, 2)
    &&& asserts_adder(cs, 18)
    &&& asserts_ct_identities(cs, 22, n, delta, 0)
    &&& asserts_ct_identities(cs, 24, n, delta, 1)
    &&& asserts_ct_identities(cs, 26, n, delta, 2)
}

/// The list starts with `old`, and of what follows only the carry column is
/// read on the next row.
spec fn extends(new: Seq<Constraint>, old: Seq<Constraint>) -> bool {
    &&& new.len() >= old.len()
    &&& forall|i: int| 0 <= i < old.len() ==> #[trigger] new[i] == old[i]
    &&& forall|i: int, col: int|
        old.len() <= i < new.len() && #[trigger] new[i].reads_next(col) ==> col == 32
}

/// The eight evaluation arguments of ciphertext `j`, in column order.
pub open spec fn is_ct_lookups(
    ls: Seq<Lookup>,
    j: int,
    c1_name: Seq<char>,
    c2_name: Seq<char>,
) -> bool {
    let a = aux_start(j);
    let c = ct_start(j);
    &&& published_lookup(ls[a], c, c1_name)
    &&& published_lookup(ls[a + 1], c + 1, c2_name)
    &&& hidden_lookup(ls[a + 2], air::column_expr(c + 2))
    &&& hidden_lookup(ls[a + 3], air::difference_expr(c + 3, c + 4))
    &&& hidden_lookup(ls[a + 4], air::difference_expr(c + 5, c + 6))
    &&& hidden_lookup(ls[a + 5], air::column_expr(c + 7))
    &&& hidden_lookup(ls[a + 6], air::column_expr(c + 8))
    &&& hidden_lookup(ls[a + 7], air::column_expr(c + 9))
}

/// An argument that publishes a column under a name.
pub open spec fn published_lookup(l: Lookup, col: int, name: Seq<char>) -> bool {
    l.expr() == air::column_expr(col) && air::published_as(l.kind, name)
}

/// An argument that publishes nothing.
pub open spec fn hidden_lookup(l: Lookup, e: Expr) -> bool {
    l.expr() == e && l.kind is Local
}

/// The evaluation arguments of a transfer, in auxiliary-column order.
pub open spec fn is_transfer_lookups(ls: Seq<Lookup>) -> bool {
    &&& ls.len() == 26
    &&& forall|i: int|
        0 <= i < ls.len() ==> (#[trigger] ls[i]).wf() && ls[i].columns@.len() == 1 && ls[i].column()
            == i
    &&& published_lookup(ls[0], 0, "eval:a"@)
    &&& published_lookup(ls[1], 1, "eval:b"@)
    &&& is_ct_lookups(ls, 0, "eval:c1:before"@, "eval:c2:before"@)
    &&& is_ct_lookups(ls, 1, "eval:c1:delta"@, "eval:c2:delta"@)
    &&& is_ct_lookups(ls, 2, "eval:c1:after"@, "eval:c2:after"@)
}

/// Appends the evaluation arguments of ciphertext `j`.
fn push_ct_lookups(ls: &mut Vec<Lookup>, j: usize, c1_name: &str, c2_name: &str)
    requires
        j < 3,
        old(ls)@.len() == aux_start(j as int),
        forall|i: int|
            0 <= i < old(ls)@.len() ==> (#[trigger] old(ls)@[i]).wf() && old(ls)@[i].columns@.len()
                == 1 && old(ls)@[i].column() == i,
    ensures
        final(ls)@.len() == aux_start(j as int) + 8,
        forall|i: int|
            0 <= i < final(ls)@.len() ==> (#[trigger] final(ls)@[i]).wf()
                && final(ls)@[i].columns@.len() == 1 && final(ls)@[i].column() == i,
        forall|i: int| 0 <= i < old(ls)@.len() ==> #[trigger] final(ls)@[i] == old(ls)@[i],
        is_ct_lookups(final(ls)@, j as int, c1_name@, c2_name@),
{
    let c: usize = ct_base(j);
    let a: usize = aux_base(j);
    ls.push(evaluation(exposed(c1_name), local(c + OFF_C1), a + AOFF_C1));
    ls.push(evaluation(exposed(c2_name), local(c + OFF_C2), a + AOFF_C2));
    ls.push(evaluation(Kind::Local, local(c + OFF_R), a + AOFF_R));
    ls.push(evaluation(Kind::Local, difference(c + OFF_E1U, c + OFF_E1V), a + AOFF_E1));
    ls.push(evaluation(Kind::Local, difference(c + OFF_E2U, c + OFF_E2V), a + AOFF_E2));
    ls.push(evaluation(Kind::Local, local(c + OFF_M), a + AOFF_M));
    ls.push(evaluation(Kind::Local, local(c + OFF_K1), a + AOFF_K1));
    ls.push(evaluation(Kind::Local, local(c + OFF_K2), a + AOFF_K2));
}

/// Appends the smallness constraints of ciphertext `j`.
fn push_ct_smallness(cs: &mut Vec<Constraint>, j: usize)
    requires
        j < 3,
    ensures
        forall|t: Tables|
            t.base.height > 0 ==> (#[trigger] symbolic::satisfied(final(cs)@, t)
                <==> symbolic::satisfied(old(cs)@, t) && air::small_columns(
                t.base,
                ct_start(j as int) + 2,
                ct_start(j as int) + 3,
                ct_start(j as int) + 4,
                ct_start(j as int) + 5,
                ct_start(j as int) + 6,
                ct_start(j as int) + 7,
            )),
        air::low_degree(old(cs)@) ==> air::low_degree(final(cs)@),
        forall|p: int, o: int, rows: int|
            #![trigger symbolic::all_readable(final(cs)@, 33, p, 26, 26, o, rows)]
            symbolic::all_readable(old(cs)@, 33, p, 26, 26, o, rows) && rows < usize::MAX
                ==> symbolic::all_readable(final(cs)@, 33, p, 26, 26, o, rows),
        final(cs)@.len() == old(cs)@.len() + 6,
        extends(final(cs)@, old(cs)@),
        asserts_ct_smallness(final(cs)@, old(cs)@.len() as int, j as int),
{
    let base: usize = ct_base(j);
    push_smallness(
        cs,
        base + OFF_R,
        base + OFF_E1U,
        base + OFF_E1V,
        base + OFF_E2U,
        base + OFF_E2V,
        base + OFF_M,
    );
}

/// Appends the ring identities of ciphertext `j`.
fn push_ct_identities(cs: &mut Vec<Constraint>, n: usize, delta: F, j: usize)
    requires
        j < 3,
        dft::is_pow2(n as int),
    ensures
        forall|t: Tables|
            t.base.height > 0 ==> (#[trigger] symbolic::satisfied(final(cs)@, t)
                <==> symbolic::satisfied(old(cs)@, t) && air::first_identity(
                t,
                n as int,
                0,
                aux_start(j as int) + 2,
                aux_start(j as int) + 3,
                aux_start(j as int) + 0,
                aux_start(j as int) + 6,
            ) && air::second_identity(
                t,
                n as int,
                delta@,
                1,
                aux_start(j as int) + 2,
                aux_start(j as int) + 4,
                aux_start(j as int) + 5,
                aux_start(j as int) + 1,
                aux_start(j as int) + 7,
            )),
        air::low_degree(old(cs)@) ==> air::low_degree(final(cs)@),
        forall|p: int, o: int, rows: int|
            #![trigger symbolic::all_readable(final(cs)@, 33, p, 26, 26, o, rows)]
            symbolic::all_readable(old(cs)@, 33, p, 26, 26, o, rows) && rows < usize::MAX
                ==> symbolic::all_readable(final(cs)@, 33, p, 26, 26, o, rows),
        final(cs)@.len() == old(cs)@.len() + 2,
        extends(final(cs)@, old(cs)@),
        asserts_ct_identities(
            final(cs)@,
            old(cs)@.len() as int,
            n as int,
            delta@,
            j as int,
        ),
{
    let ab: usize = aux_base(j);
    let ghost s0 = cs@;
    let i1 = first_identity_constraint(
        n,
        TAUX_A,
        ab + AOFF_R,
        ab + AOFF_E1,
        ab + AOFF_C1,
        ab + AOFF_K1,
    );
    let ghost g1 = i1;
    push_constraint(cs, i1);
    let ghost s1 = cs@;
    let i2 = second_identity_constraint(
        n,
        delta,
        TAUX_B,
        ab + AOFF_R,
        ab + AOFF_E2,
        ab + AOFF_M,
        ab + AOFF_C2,
        ab + AOFF_K2,
    );
    let ghost g2 = i2;
    push_constraint(cs, i2);
    proof {
        let a = aux_start(j as int);
        assert forall|t: Tables| t.base.height > 0 implies (#[trigger] symbolic::satisfied(
            cs@,
            t,
        ) <==> symbolic::satisfied(s0, t) && air::first_identity(
            t,
            n as int,
            0,
            a + 2,
            a + 3,
            a + 0,
            a + 6,
        ) && air::second_identity(t, n as int, delta@, 1, a + 2, a + 4, a + 5, a + 1, a + 7)) by {
            assert(symbolic::satisfied(cs@, t) <==> symbolic::satisfied(s1, t) && g2.on_rows(t));
            assert(symbolic::satisfied(s1, t) <==> symbolic::satisfied(s0, t) && g1.on_rows(t));
        }
        assert forall|p: int, o: int, rows: int|
            #![trigger symbolic::all_readable(cs@, 33, p, 26, 26, o, rows)]
            symbolic::all_readable(s0, 33, p, 26, 26, o, rows) && rows
                < usize::MAX implies symbolic::all_readable(cs@, 33, p, 26, 26, o, rows) by {
            assert(g1.readable(33, p, 26, 26, o, rows));
            assert(symbolic::all_readable(s1, 33, p, 26, 26, o, rows));
            assert(g2.readable(33, p, 26, 26, o, rows));
        }
    }
}

/// Appends the ripple-carry constraints.
fn push_adder(cs: &mut Vec<Constraint>)
    ensures
        forall|t: Tables|
            t.base.height > 0 ==> (#[trigger] symbolic::satisfied(final(cs)@, t)
                <==> symbolic::satisfied(old(cs)@, t) && adder_relation(t.base)),
        air::low_degree(old(cs)@) ==> air::low_degree(final(cs)@),
        forall|p: int, o: int, rows: int|
            #![trigger symbolic::all_readable(final(cs)@, 33, p, 26, 26, o, rows)]
            symbolic::all_readable(old(cs)@, 33, p, 26, 26, o, rows) && rows < usize::MAX
                ==> symbolic::all_readable(final(cs)@, 33, p, 26, 26, o, rows),
        final(cs)@.len() == old(cs)@.len() + 4,
        extends(final(cs)@, old(cs)@),
        asserts_adder(final(cs)@, old(cs)@.len() as int),
{
    let ghost s0 = cs@;
    let c1 = bit_constraint(TCOL_CARRY);
    let ghost g1 = c1;
    push_constraint(cs, c1);
    let ghost s1 = cs@;
    let c2 = carry_in_constraint();
    let ghost g2 = c2;
    push_constraint(cs, c2);
    let ghost s2 = cs@;
    let c3 = carry_step_constraint();
    let ghost g3 = c3;
    push_constraint(cs, c3);
    let ghost s3 = cs@;
    let c4 = carry_out_constraint();
    let ghost g4 = c4;
    push_constraint(cs, c4);
    proof {
        assert forall|t: Tables| t.base.height > 0 implies (#[trigger] symbolic::satisfied(
            cs@,
            t,
        ) <==> symbolic::satisfied(s0, t) && adder_relation(t.base)) by {
            assert(symbolic::satisfied(cs@, t) <==> symbolic::satisfied(s3, t) && g4.on_rows(t));
            assert(symbolic::satisfied(s3, t) <==> symbolic::satisfied(s2, t) && g3.on_rows(t));
            assert(symbolic::satisfied(s2, t) <==> symbolic::satisfied(s1, t) && g2.on_rows(t));
            assert(symbolic::satisfied(s1, t) <==> symbolic::satisfied(s0, t) && g1.on_rows(t));
            assert(g1.on_rows(t) <==> air::bits(t.base, 32));
        }
        assert forall|p: int, o: int, rows: int|
            #![trigger symbolic::all_readable(cs@, 33, p, 26, 26, o, rows)]
            symbolic::all_readable(s0, 33, p, 26, 26, o, rows) && rows
                < usize::MAX implies symbolic::all_readable(cs@, 33, p, 26, 26, o, rows) by {
            assert(g1.readable(33, p, 26, 26, o, rows));
            assert(symbolic::all_readable(s1, 33, p, 26, 26, o, rows));
            assert(g2.readable(33, p, 26, 26, o, rows));
            assert(symbolic::all_readable(s2, 33, p, 26, 26, o, rows));
            assert(g3.readable(33, p, 26, 26, o, rows));
            assert(symbolic::all_readable(s3, 33, p, 26, 26, o, rows));
            assert(g4.readable(33, p, 26, 26, o, rows));
        }
    }
}

impl RegevTransferAir {
    pub fn new(n: usize, delta_scale: F) -> (r: RegevTransferAir)
        requires
            dft::is_pow2(n as int),
        ensures
            r.n == n,
            r.delta_scale == delta_scale,
    {
        RegevTransferAir { n, delta_scale }
    }

    pub fn width(&self) -> (r: usize)
        ensures
            r == 33,
    {
        TNUM_COLS
    }

    /// `[a || b || c1,c2(before) || c1,c2(delta) || c1,c2(after)]`.
    pub fn num_public_values(&self) -> (r: usize)
        requires
            8 * self.n <= usize::MAX,
        ensures
            r == 8 * self.n,
    {
        8 * self.n
    }

    /// Only the carry column steps to the next row.
    pub fn main_next_row_columns(&self) -> (r: Vec<usize>)
        ensures
            r@ == seq![32usize],
    {
        let mut r: Vec<usize> = Vec::new();
        r.push(TCOL_CARRY);
        r
    }

    pub fn max_constraint_degree(&self) -> (r: Option<usize>)
        ensures
            r == Some(3usize),
    {
        Some(3)
    }

    /// The evaluation arguments: the statement polynomials published, the
    /// witness polynomials hidden.
    pub fn get_lookups(&self) -> (r: Vec<Lookup>)
        ensures
            is_transfer_lookups(r@),
    {
        let mut ls: Vec<Lookup> = Vec::new();
        ls.push(evaluation(exposed("eval:a"), local(TCOL_A), TAUX_A));
        ls.push(evaluation(exposed("eval:b"), local(TCOL_B), TAUX_B));
        push_ct_lookups(&mut ls, ROLE_BEFORE, "eval:c1:before", "eval:c2:before");
        push_ct_lookups(&mut ls, ROLE_DELTA, "eval:c1:delta", "eval:c2:delta");
        push_ct_lookups(&mut ls, ROLE_AFTER, "eval:c1:after", "eval:c2:after");
        ls
    }

    /// The constraints: smallness of the three witnesses, the ripple-carry
    /// conservation, and the ring identities at the random point.
    pub fn eval(&self) -> (cs: Vec<Constraint>)
        requires
            dft::is_pow2(self.n as int),
        ensures
            forall|t: Tables|
                t.base.height > 0 ==> (#[trigger] symbolic::satisfied(cs@, t)
                    <==> transfer_relation(self.n as int, self.delta_scale@, t)),
            air::low_degree(cs@),
            forall|p: int, o: int, rows: int|
                #![trigger symbolic::all_readable(cs@, 33, p, 26, 26, o, rows)]
                rows < usize::MAX ==> symbolic::all_readable(cs@, 33, p, 26, 26, o, rows),
            are_transfer_constraints(cs@, self.n as int, self.delta_scale@),
            symbolic::next_columns_within(cs@, set![32int]),
    {
        let mut cs: Vec<Constraint> = Vec::new();
        proof {
            assert forall|t: Tables| #[trigger] symbolic::satisfied(cs@, t) by {
                symbolic::lemma_satisfied_empty(t);
            }
        }
        let ghost s0 = cs@;
        push_ct_smallness(&mut cs, ROLE_BEFORE);
        let ghost s1 = cs@;
        push_ct_smallness(&mut cs, ROLE_DELTA);
        let ghost s2 = cs@;
        push_ct_smallness(&mut cs, ROLE_AFTER);
        let ghost s3 = cs@;
        push_adder(&mut cs);
        let ghost s4 = cs@;
        push_ct_identities(&mut cs, self.n, self.delta_scale, ROLE_BEFORE);
        let ghost s5 = cs@;
        push_ct_identities(&mut cs, self.n, self.delta_scale, ROLE_DELTA);
        let ghost s6 = cs@;
        push_ct_identities(&mut cs, self.n, self.delta_scale, ROLE_AFTER);
        proof {
            assert forall|t: Tables| t.base.height > 0 implies (#[trigger] symbolic::satisfied(
                cs@,
                t,
            ) <==> transfer_relation(self.n as int, self.delta_scale@, t)) by {
                assert(symbolic::satisfied(s0, t));
                assert(symbolic::satisfied(cs@, t) ==> symbolic::satisfied(s6, t));
                assert(symbolic::satisfied(s6, t) ==> symbolic::satisfied(s5, t));
                assert(symbolic::satisfied(s5, t) ==> symbolic::satisfied(s4, t));
                assert(symbolic::satisfied(s4, t) ==> symbolic::satisfied(s3, t));
                assert(symbolic::satisfied(s3, t) ==> symbolic::satisfied(s2, t));
                assert(symbolic::satisfied(s2, t) ==> symbolic::satisfied(s1, t));
            }
            assert forall|p: int, o: int, rows: int|
                #![trigger symbolic::all_readable(cs@, 33, p, 26, 26, o, rows)]
                rows < usize::MAX implies symbolic::all_readable(cs@, 33, p, 26, 26, o, rows) by {
                assert(symbolic::all_readable(s0, 33, p, 26, 26, o, rows));
                assert(symbolic::all_readable(s1, 33, p, 26, 26, o, rows));
                assert(symbolic::all_readable(s2, 33, p, 26, 26, o, rows));
                assert(symbolic::all_readable(s3, 33, p, 26, 26, o, rows));
                assert(symbolic::all_readable(s4, 33, p, 26, 26, o, rows));
                assert(symbolic::all_readable(s5, 33, p, 26, 26, o, rows));
                assert(symbolic::all_readable(s6, 33, p, 26, 26, o, rows));
            }
            assert(cs@.subrange(0, 26) =~= s6);
            assert(s6.subrange(0, 24) =~= s5);
            assert(s5.subrange(0, 22) =~= s4);
            assert(s4.subrange(0, 18) =~= s3);
            assert(s3.subrange(0, 12) =~= s2);
            assert(s2.subrange(0, 6) =~= s1);
        }
        cs
    }
}

// ---------------------------------------------------------------------------
// The trace.
// ---------------------------------------------------------------------------
/// Entry of ciphertext columns at offset `off`, modulo `q`.
pub open spec fn ct_entry(ct: CiphertextModel, w: WitnessModel, i: int, off: int) -> int {
    if off == 0 {
        ct.c1[i]
    } else if off == 1 {
        ct.c2[i]
    } else if off == 2 {
        w.r[i]
    } else if off == 3 {
        w.e1u[i]
    } else if off == 4 {
        w.e1v[i]
    } else if off == 5 {
        w.e2u[i]
    } else if off == 6 {
        w.e2v[i]
    } else if off == 7 {
        w.m[i]
    } else if off == 8 {
        w.k1[i]
    } else {
        w.k2[i]
    }
}

/// Entry (i, col) of the main trace of a transfer, modulo `q`.
pub open spec fn transfer_entry(
    pk: KeyModel,
    st: Transfer,
    w: TransferWitness,
    i: int,
    col: int,
) -> int {
    if col == 0 {
        pk.a[i]
    } else if col == 1 {
        pk.b[i]
    } else if col == 32 {
        carry(w.before@.m, w.delta@.m, w.after@.m, i)
    } else {
        ct_entry(st.role((col - 2) / 10), w.role((col - 2) / 10), i, (col - 2) % 10)
    }
}

/// Every polynomial of one ciphertext and its witness reaches `n` coefficients.
pub open spec fn ct_covers(ct: CiphertextModel, w: WitnessModel, n: int) -> bool {
    &&& ct.c1.len() >= n
    &&& ct.c2.len() >= n
    &&& w.r.len() >= n
    &&& w.e1u.len() >= n
    &&& w.e1v.len() >= n
    &&& w.e2u.len() >= n
    &&& w.e2v.len() >= n
    &&& w.m.len() >= n
    &&& w.k1.len() >= n
    &&& w.k2.len() >= n
}

/// Every polynomial of the transfer reaches `n` coefficients.
pub open spec fn transfer_covers(pk: KeyModel, st: Transfer, w: TransferWitness, n: int) -> bool {
    &&& pk.a.len() == n
    &&& pk.b.len() >= n
    &&& ct_covers(st.before@, w.before@, n)
    &&& ct_covers(st.delta@, w.delta@, n)
    &&& ct_covers(st.after@, w.after@, n)
}

/// The witnesses are consistent: the carry chain of their messages closes, and
/// no digit sum exceeds a byte.
pub open spec fn consistent(w: TransferWitness, n: int) -> bool {
    &&& chain_closes(w.before@.m, w.delta@.m, w.after@.m, n)
    &&& forall|i: int|
        0 <= i < n ==> #[trigger] digit_fits(w.before@.m, w.delta@.m, w.after@.m, i)
}

/// The digit sum at bit `i`, carry included, fits a byte.
pub open spec fn digit_fits(before: Seq<int>, delta: Seq<int>, after: Seq<int>, i: int) -> bool {
    after[i] + delta[i] + carry(before, delta, after, i) <= 255
}

/// Appends the ten entries of one ciphertext.
fn push_ct_row(values: &mut Vec<F>, ct: &Ciphertext, w: &EncryptionWitness, i: usize, Ghost(n): Ghost<
    int,
>)
    requires
        i < n,
        ct_covers(ct@, w@, n),
    ensures
        final(values)@.len() == old(values)@.len() + 10,
        forall|j: int|
            0 <= j < old(values)@.len() ==> #[trigger] final(values)@[j] == old(values)@[j],
        forall|off: int|
            0 <= off < 10 ==> #[trigger] final(values)@[old(values)@.len() + off]@ == ct_entry(
                ct@,
                w@,
                i as int,
                off,
            ) % field::q(),
{
    broadcast use F::lemma_view_range;

    values.push(ct.c1[i]);
    values.push(ct.c2[i]);
    values.push(centered_to_field(w.r[i] as i64));
    values.push(F::from_u8(w.e1u[i]));
    values.push(F::from_u8(w.e1v[i]));
    values.push(F::from_u8(w.e2u[i]));
    values.push(F::from_u8(w.e2v[i]));
    values.push(F::from_u8(w.m[i]));
    values.push(w.k1[i]);
    values.push(w.k2[i]);
}

/// Appends one row of the main trace.
fn push_transfer_row(
    values: &mut Vec<F>,
    pk: &PublicKey,
    witness: &TransferWitness,
    statement: &Transfer,
    i: usize,
    c: u8,
)
    requires
        i < pk.a@.len(),
        transfer_covers(pk@, *statement, *witness, pk.a@.len() as int),
        c == carry(witness.before@.m, witness.delta@.m, witness.after@.m, i as int),
    ensures
        final(values)@.len() == old(values)@.len() + 33,
        forall|j: int|
            0 <= j < old(values)@.len() ==> #[trigger] final(values)@[j] == old(values)@[j],
        forall|col: int|
            0 <= col < 33 ==> #[trigger] final(values)@[old(values)@.len() + col]@
                == transfer_entry(pk@, *statement, *witness, i as int, col) % field::q(),
{
    broadcast use F::lemma_view_range;

    let ghost n = pk.a@.len() as int;
    let ghost s0 = values@;
    values.push(pk.a[i]);
    values.push(pk.b[i]);
    let ghost s1 = values@;
    push_ct_row(values, &statement.before, &witness.before, i, Ghost(n));
    let ghost s2 = values@;
    push_ct_row(values, &statement.delta, &witness.delta, i, Ghost(n));
    let ghost s3 = values@;
    push_ct_row(values, &statement.after, &witness.after, i, Ghost(n));
    let ghost s4 = values@;
    values.push(F::from_u8(c));
    proof {
        assert forall|col: int| 0 <= col < 33 implies #[trigger] values@[s0.len() + col]@
            == transfer_entry(pk@, *statement, *witness, i as int, col) % field::q() by {
            let p = s0.len() + col;
            if col < 2 {
                assert(values@[p] == s4[p]);
                assert(s4[p] == s3[p]);
                assert(s3[p] == s2[p]);
                assert(s2[p] == s1[p]);
            } else if col < 12 {
                assert(values@[p] == s4[p]);
                assert(s4[p] == s3[p]);
                assert(s3[p] == s2[p]);
                assert((col - 2) / 10 == 0 && (col - 2) % 10 == col - 2);
                assert(s2[s1.len() + (col - 2)]@ == ct_entry(
                    statement.before@,
                    witness.before@,
                    i as int,
                    col - 2,
                ) % field::q());
            } else if col < 22 {
                assert(values@[p] == s4[p]);
                assert(s4[p] == s3[p]);
                assert((col - 2) / 10 == 1 && (col - 2) % 10 == col - 12);
                assert(s3[s2.len() + (col - 12)]@ == ct_entry(
                    statement.delta@,
                    witness.delta@,
                    i as int,
                    col - 12,
                ) % field::q());
            } else if col < 32 {
                assert(values@[p] == s4[p]);
                assert((col - 2) / 10 == 2 && (col - 2) % 10 == col - 22);
                assert(s4[s3.len() + (col - 22)]@ == ct_entry(
                    statement.after@,
                    witness.after@,
                    i as int,
                    col - 22,
                ) % field::q());
            }
        }
    }
}

/// Whether the witnesses satisfy `before = after + delta` bit by bit, so that
/// a trace can be built.
pub fn is_consistent(witness: &TransferWitness, n: usize) -> (r: bool)
    requires
        witness.before.m@.len() >= n,
        witness.delta.m@.len() >= n,
        witness.after.m@.len() >= n,
    ensures
        r == consistent(*witness, n as int),
{
    let ghost b = witness.before@.m;
    let ghost d = witness.delta@.m;
    let ghost a = witness.after@.m;
    let mut c: u32 = 0;
    let mut i: usize = 0;
    while i < n
        invariant
            i <= n,
            witness.before.m@.len() >= n,
            witness.delta.m@.len() >= n,
            witness.after.m@.len() >= n,
            b == witness.before@.m,
            d == witness.delta@.m,
            a == witness.after@.m,
            c == carry(b, d, a, i as int),
            c <= 1,
            forall|k: int|
                0 <= k < i ==> #[trigger] carry_out(b, d, a, k) == 0 || carry_out(b, d, a, k) == 2,
            forall|k: int| 0 <= k < i ==> #[trigger] digit_fits(b, d, a, k),
        decreases n - i,
    {
        let sum: u32 = witness.after.m[i] as u32 + witness.delta.m[i] as u32 + c;
        let low: u32 = witness.before.m[i] as u32;
        assert(carry_out(b, d, a, i as int) == sum - low);
        assert(digit_fits(b, d, a, i as int) <==> sum <= 255);
        if sum > 255 || !(sum == low || sum == low + 2) {
            return false;
        }
        c = (sum - low) / 2;
        i = i + 1;
    }
    c == 0
}

/// Build the trace for one transfer.
///
/// The witnesses must satisfy `before = after + delta` as n-bit integers (a
/// consistent witness is the prover's responsibility).
pub fn generate_transfer_trace(
    pk: &PublicKey,
    witness: &TransferWitness,
    statement: &Transfer,
) -> (m: Matrix)
    requires
        transfer_covers(pk@, *statement, *witness, pk.a@.len() as int),
        consistent(*witness, pk.a@.len() as int),
    ensures
        m.wf(),
        m.width == 33,
        m.rows() == pk.a@.len(),
        forall|i: int, col: int|
            #![trigger m.cell(i, col)]
            0 <= i < pk.a@.len() && 0 <= col < 33 ==> m.cell(i, col) == transfer_entry(
                pk@,
                *statement,
                *witness,
                i,
                col,
            ) % field::q(),
{
    let n: usize = pk.a.len();
    let ghost b = witness.before@.m;
    let ghost d = witness.delta@.m;
    let ghost a = witness.after@.m;
    let mut values: Vec<F> = Vec::new();
    let mut c: u8 = 0;
    let mut i: usize = 0;
    while i < n
        invariant
            i <= n,
            n == pk.a@.len(),
            transfer_covers(pk@, *statement, *witness, n as int),
            consistent(*witness, n as int),
            b == witness.before@.m,
            d == witness.delta@.m,
            a == witness.after@.m,
            c == carry(b, d, a, i as int),
            c <= 1,
            values@.len() == i * 33,
            forall|r: int, col: int|
                #![trigger values@[r * 33 + col]]
                0 <= r < i && 0 <= col < 33 ==> values@[r * 33 + col]@ == transfer_entry(
                    pk@,
                    *statement,
                    *witness,
                    r,
                    col,
                ) % field::q(),
        decreases n - i,
    {
        let ghost before = values@;
        push_transfer_row(&mut values, pk, witness, statement, i, c);
        proof {
            assert forall|r: int, col: int|
                #![trigger values@[r * 33 + col]]
                0 <= r < i + 1 && 0 <= col < 33 implies values@[r * 33 + col]@ == transfer_entry(
                pk@,
                *statement,
                *witness,
                r,
                col,
            ) % field::q() by {
                if r < i {
                    assert(values@[r * 33 + col] == before[r * 33 + col]);
                } else {
                    assert(values@[before.len() + col]@ == transfer_entry(
                        pk@,
                        *statement,
                        *witness,
                        i as int,
                        col,
                    ) % field::q());
                }
            }
            let out = carry_out(b, d, a, i as int);
            assert(out == 0 || out == 2);
            assert(digit_fits(b, d, a, i as int));
        }
        let sum: u8 = witness.after.m[i] + witness.delta.m[i] + c;
        c = (sum - witness.before.m[i]) / 2;
        i = i + 1;
    }
    let m = Matrix { values, width: TNUM_COLS };
    proof {
        symbolic::lemma_rows(m.values@.len() as int, n as int, 33);
    }
    m
}

/// Public values for one transfer instance:
/// `[a || b || c1,c2(before) || c1,c2(delta) || c1,c2(after)]`.
pub fn transfer_public_values(pk: &PublicKey, t: &Transfer) -> (pv: Vec<F>)
    ensures
        pv@ == pk.a@ + pk.b@ + t.before.c1@ + t.before.c2@ + t.delta.c1@ + t.delta.c2@ + t.after.c1@
            + t.after.c2@,
{
    let mut pv: Vec<F> = Vec::new();
    pv.extend_from_slice(&pk.a);
    pv.extend_from_slice(&pk.b);
    pv.extend_from_slice(&t.before.c1);
    pv.extend_from_slice(&t.before.c2);
    pv.extend_from_slice(&t.delta.c1);
    pv.extend_from_slice(&t.delta.c2);
    pv.extend_from_slice(&t.after.c1);
    pv.extend_from_slice(&t.after.c2);
    pv
}

} // verus!
