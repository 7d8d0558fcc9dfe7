//! A polynomial-evaluation ("Schwartz-Zippel") argument.
//!
//! Each registered [`Lookup`] is interpreted as one evaluation argument:
//! for a per-row expression `p_i` over the main trace, the gadget materialises
//! an auxiliary extension-field column `s` satisfying the Horner recurrence
//!
//! ```text
//! s[N-1] = p[N-1]
//! s[i]   = p[i] + z * s[i+1]
//! ```
//!
//! so that `s[0] = P(z)`, the value of the polynomial with coefficients `p_i`,
//! where `z` is a random extension-field challenge sampled after the main trace
//! is committed. This turns the check of a degree-`< N` polynomial identity into
//! O(N) constraints of degree at most 2: no NTT in the circuit, no quadratic
//! convolution.
//!
//! Exposure semantics follow the lookup [`Kind`]:
//! - [`Kind::Global`]: `s[0]` is published in the proof as the lookup's
//!   `expected_cumulated` value and pinned by a first-row constraint. Use this
//!   for public polynomials (the ciphertext and public key), whose evaluations
//!   the verifier recomputes and compares.
//! - [`Kind::Local`]: nothing is exposed. The running value is still
//!   available to constraints via the auxiliary trace (first row), which is how
//!   the secret polynomials (`r`, noise, message, quotients) enter the
//!   ring-identity constraints without leaking their evaluations.
//!
//! All evaluation arguments in a proof share a single challenge `z`, because
//! the ring identities relate several polynomials at the same point.

use crate::ext;
use crate::ext::{Challenge, Ext};
use crate::field;
use crate::field::F;
use crate::poly;
use crate::symbolic;
use crate::symbolic::{
    degree_multiple, duplicate, eval_symbolic_at_row, BaseTables, Body, Constraint, Expr, ExtExpr,
    ExtMatrix, Matrix, Tables, When,
};
use crate::transcript::Transcript;
use vstd::prelude::*;

verus! {

/// Whether an evaluation is published.
#[derive(Clone, Debug, PartialEq, Eq)]
pub enum Kind {
    /// Nothing is exposed.
    Local,
    /// The evaluation is published under an interaction name.
    Global(String),
}

/// One registered argument.
#[derive(Debug)]
pub struct Lookup {
    pub kind: Kind,
    pub element_exprs: Vec<Vec<Expr>>,
    pub multiplicities_exprs: Vec<Expr>,
    /// The auxiliary columns of this argument.
    pub columns: Vec<usize>,
}

/// A published evaluation.
#[derive(Clone, Debug, PartialEq, Eq)]
pub struct LookupData {
    pub name: String,
    /// The auxiliary column of the argument.
    pub aux_idx: usize,
    pub expected_cumulated: Challenge,
}

/// Why published values were rejected.
#[derive(Clone, Debug, PartialEq, Eq)]
pub enum LookupError {
    GlobalCumulativeMismatch(Option<String>),
}

/// The evaluation-argument gadget.
#[derive(Clone, Debug)]
pub struct EvalGadget;

impl Lookup {
    /// One expression, no multiplicities.
    pub open spec fn is_evaluation(self) -> bool {
        &&& self.element_exprs@.len() == 1
        &&& self.element_exprs@[0]@.len() == 1
        &&& self.multiplicities_exprs@.len() == 0
    }

    /// The per-row expression.
    pub open spec fn expr(self) -> Expr {
        self.element_exprs@[0]@[0]
    }

    /// The auxiliary column.
    pub open spec fn column(self) -> int {
        self.columns@[0] as int
    }

    /// An evaluation argument with its column.
    pub open spec fn wf(self) -> bool {
        self.is_evaluation() && self.columns@.len() >= 1
    }

    /// The polynomial that is evaluated: the expression at every row.
    pub open spec fn coefficients(self, t: BaseTables) -> Seq<int> {
        Seq::new(t.height as nat, |row: int| self.expr().value(t, row))
    }
}

/// The Horner recurrence of one argument holds in the auxiliary table.
pub open spec fn horner_relation(e: Expr, col: int, t: Tables) -> bool {
    &&& forall|row: int|
        #![trigger (t.aux)(row, col)]
        0 <= row < t.base.height - 1 ==> (t.aux)(row, col).cong(
            Ext::of(e.value(t.base, row)).plus(t.randomness[col].times((t.aux)(row + 1, col))),
        )
    &&& (t.aux)(t.base.height - 1, col).cong(Ext::of(e.value(t.base, t.base.height - 1)))
}

/// The number of global arguments among the first `upto`.
pub open spec fn globals_before(lookups: Seq<Lookup>, upto: int) -> int
    decreases upto,
{
    if upto <= 0 {
        0
    } else {
        globals_before(lookups, upto - 1) + if lookups[upto - 1].kind is Global {
            1int
        } else {
            0
        }
    }
}

/// What argument `i` demands of the tables: the Horner recurrence and, where
/// the evaluation is published, that it equals the published value.
pub open spec fn argument_relation(lookups: Seq<Lookup>, i: int, t: Tables) -> bool {
    &&& horner_relation(lookups[i].expr(), lookups[i].column(), t)
    &&& lookups[i].kind is Global ==> (t.aux)(0, lookups[i].column()).cong(
        t.published[globals_before(lookups, i)],
    )
}

/// What all arguments demand.
pub open spec fn arguments_relation(lookups: Seq<Lookup>, t: Tables) -> bool {
    forall|i: int| 0 <= i < lookups.len() ==> #[trigger] argument_relation(lookups, i, t)
}

/// A trace that satisfies the Horner recurrence holds `P(z)` in its first row.
pub proof fn law_horner_gives_value(e: Expr, col: int, t: Tables)
    requires
        t.base.height > 0,
        horner_relation(e, col, t),
    ensures
        (t.aux)(0, col).cong(
            poly::eval(
                Seq::new(t.base.height as nat, |row: int| e.value(t.base, row)),
                t.randomness[col],
            ),
        ),
{
    let p = Seq::new(t.base.height as nat, |row: int| e.value(t.base, row));
    let z = t.randomness[col];
    lemma_horner_rows(e, col, t, 0);
    poly::lemma_horner_eval(p, z);
}

proof fn lemma_horner_rows(e: Expr, col: int, t: Tables, row: int)
    requires
        0 <= row < t.base.height,
        horner_relation(e, col, t),
    ensures
        (t.aux)(row, col).cong(
            poly::horner(
                Seq::new(t.base.height as nat, |row: int| e.value(t.base, row)),
                row,
                t.randomness[col],
            ),
        ),
    decreases t.base.height - row,
{
    let p = Seq::new(t.base.height as nat, |row: int| e.value(t.base, row));
    let z = t.randomness[col];
    let rest = poly::horner(p, row + 1, z);
    if row == t.base.height - 1 {
        assert(rest == Ext::of(0));
        ext::lemma_times_of(z, 0);
    } else {
        lemma_horner_rows(e, col, t, row + 1);
        let s = (t.aux)(row, col);
        let next = (t.aux)(row + 1, col);
        ext::lemma_ext_cong_times(z, z, next, rest);
    }
}

/// `s[i] - p[i] - z*s[i+1] = 0` is asked on all rows but the last.
pub open spec fn asserts_step(c: Constraint, e: Expr, col: int) -> bool {
    c.asserts_ext(
        When::Transition,
        |t: Tables, row: int|
            (t.aux)(row, col).minus(Ext::of(e.value(t.base, row))).minus(
                t.randomness[col].times((t.aux)(symbolic::next_row(t.base, row), col)),
            ),
    )
}

/// `s[N-1] - p[N-1] = 0` is asked.
pub open spec fn asserts_anchor(c: Constraint, e: Expr, col: int) -> bool {
    c.asserts_ext(
        When::LastRow,
        |t: Tables, row: int| (t.aux)(row, col).minus(Ext::of(e.value(t.base, row))),
    )
}

/// `s[0] - expected = 0` is asked.
pub open spec fn asserts_exposed(c: Constraint, expected: ExtExpr, col: int) -> bool {
    c.asserts_ext(
        When::FirstRow,
        |t: Tables, row: int| (t.aux)(row, col).minus(expected.value(t, row)),
    )
}

/// The constraints of one argument: the Horner step, its anchor and, where a
/// value is expected, that the evaluation equals it. They read the next main
/// row only where the argument's own expressions do.
pub open spec fn are_horner_constraints(
    cs: Seq<Constraint>,
    e: Expr,
    col: int,
    expected: Option<ExtExpr>,
) -> bool {
    &&& cs.len() == if expected is Some {
        3int
    } else {
        2
    }
    &&& asserts_step(cs[0], e, col)
    &&& asserts_anchor(cs[1], e, col)
    &&& expected matches Some(x) ==> asserts_exposed(cs[2], x, col)
    &&& forall|c: int| #[trigger] cs[0].reads_next(c) ==> e.reads_next(c)
    &&& forall|c: int| #[trigger] cs[1].reads_next(c) ==> e.reads_next(c)
    &&& expected matches Some(x) ==> forall|c: int|
        #[trigger] cs[2].reads_next(c) ==> x.reads_next(c)
}

/// What argument `i` expects: the next published value where it is global.
pub open spec fn expected_value(lookups: Seq<Lookup>, i: int) -> Option<ExtExpr> {
    if lookups[i].kind is Global {
        Some(ExtExpr::Published(globals_before(lookups, i) as usize))
    } else {
        None
    }
}

/// Where the constraints of argument `i` start: two for every argument before
/// it, and one more for every global one.
pub open spec fn constraints_before(lookups: Seq<Lookup>, i: int) -> int {
    2 * i + globals_before(lookups, i)
}

/// The constraints of argument `i` stand in their place.
pub open spec fn argument_asserted(cs: Seq<Constraint>, lookups: Seq<Lookup>, i: int) -> bool {
    are_horner_constraints(
        cs.subrange(constraints_before(lookups, i), constraints_before(lookups, i + 1)),
        lookups[i].expr(),
        lookups[i].column(),
        expected_value(lookups, i),
    )
}

impl Default for EvalGadget {
    fn default() -> (r: EvalGadget)
        ensures
            r == EvalGadget,
    {
        EvalGadget
    }
}

impl EvalGadget {
    pub fn new() -> (r: EvalGadget)
        ensures
            r == EvalGadget,
    {
        EvalGadget
    }

    /// Auxiliary columns per argument.
    pub fn num_aux_cols(&self) -> (r: usize)
        ensures
            r == 1,
    {
        1
    }

    /// Challenges per argument.
    pub fn num_challenges(&self) -> (r: usize)
        ensures
            r == 1,
    {
        1
    }

    /// The single per-row expression of an evaluation argument.
    pub fn element_expr<'a>(context: &'a Lookup) -> (r: &'a Expr)
        requires
            context.is_evaluation(),
        ensures
            *r == context.expr(),
    {
        &context.element_exprs[0][0]
    }

    /// `s[i] - p[i] - z * s[i+1] = 0` on all rows but the last.
    fn horner_step(expr: &Expr, column: usize) -> (c: Constraint)
        ensures
            forall|t: Tables|
                t.base.height > 0 ==> (#[trigger] c.on_rows(t) <==> forall|row: int|
                    #![trigger (t.aux)(row, column as int)]
                    0 <= row < t.base.height - 1 ==> (t.aux)(row, column as int).cong(
                        Ext::of(expr.value(t.base, row)).plus(
                            t.randomness[column as int].times((t.aux)(row + 1, column as int)),
                        ),
                    )),
            asserts_step(c, *expr, column as int),
            forall|k: int| #[trigger] c.reads_next(k) ==> expr.reads_next(k),
            c.body_degree() <= 1 || c.body_degree() <= expr.degree(),
            forall|w: int, p: int, a: int, r: int, o: int, rows: int|
                #![trigger c.readable(w, p, a, r, o, rows)]
                column < a && column < r && rows < usize::MAX && (forall|row: int|
                    0 <= row < rows ==> #[trigger] expr.fits(w, p, row)) ==> c.readable(
                    w,
                    p,
                    a,
                    r,
                    o,
                    rows,
                ),
    {
        let s = ExtExpr::Aux { offset: 0, index: column };
        let p = ExtExpr::Base(duplicate(expr));
        let next = ExtExpr::Aux { offset: 1, index: column };
        let z = ExtExpr::Randomness(column);
        let zs = ExtExpr::Mul(Box::new(z), Box::new(next));
        let body = ExtExpr::Sub(Box::new(ExtExpr::Sub(Box::new(s), Box::new(p))), Box::new(zs));
        let c = Constraint { when: When::Transition, body: Body::Ext(body) };
        proof {
            reveal_with_fuel(ExtExpr::value, 4);
            reveal_with_fuel(ExtExpr::degree, 4);
            reveal_with_fuel(ExtExpr::fits, 4);
            reveal_with_fuel(ExtExpr::reads_next, 4);
            let col = column as int;
            assert forall|t: Tables, row: int|
                0 <= row < t.base.height implies #[trigger] c.residue(t, row) == (t.aux)(
                row,
                col,
            ).minus(Ext::of(expr.value(t.base, row))).minus(
                t.randomness[col].times((t.aux)(symbolic::next_row(t.base, row), col)),
            ) by {
                vstd::arithmetic::div_mod::lemma_small_mod(row as nat, t.base.height as nat);
            }
            assert forall|t: Tables, row: int| 0 <= row < t.base.height - 1 implies (
            #[trigger] c.holds(t, row) <==> (t.aux)(row, col).cong(
                Ext::of(expr.value(t.base, row)).plus(
                    t.randomness[col].times((t.aux)(row + 1, col)),
                ),
            )) by {
                vstd::arithmetic::div_mod::lemma_small_mod((row + 1) as nat, t.base.height as nat);
                let u = (t.aux)(row, col);
                let v = Ext::of(expr.value(t.base, row));
                let w = t.randomness[col].times((t.aux)(row + 1, col));
                assert(c.residue(t, row) == u.minus(v).minus(w));
                lemma_difference_zero(u, v, w);
            }
            assert forall|t: Tables| t.base.height > 0 implies (#[trigger] c.on_rows(t) <==> forall|
                row: int,
            |
                #![trigger (t.aux)(row, col)]
                0 <= row < t.base.height - 1 ==> (t.aux)(row, col).cong(
                    Ext::of(expr.value(t.base, row)).plus(
                        t.randomness[col].times((t.aux)(row + 1, col)),
                    ),
                )) by {
                if c.on_rows(t) {
                    assert forall|row: int|
                        #![trigger (t.aux)(row, col)]
                        0 <= row < t.base.height - 1 implies (t.aux)(row, col).cong(
                        Ext::of(expr.value(t.base, row)).plus(
                            t.randomness[col].times((t.aux)(row + 1, col)),
                        ),
                    ) by {
                        assert(c.holds(t, row));
                    }
                }
            }
        }
        c
    }

    /// `s[N-1] - p[N-1] = 0`.
    fn horner_anchor(expr: &Expr, column: usize) -> (c: Constraint)
        ensures
            forall|t: Tables|
                t.base.height > 0 ==> (#[trigger] c.on_rows(t) <==> (t.aux)(
                    t.base.height - 1,
                    column as int,
                ).cong(Ext::of(expr.value(t.base, t.base.height - 1)))),
            asserts_anchor(c, *expr, column as int),
            forall|k: int| #[trigger] c.reads_next(k) ==> expr.reads_next(k),
            c.body_degree() <= 1 || c.body_degree() <= expr.degree(),
            forall|w: int, p: int, a: int, r: int, o: int, rows: int|
                #![trigger c.readable(w, p, a, r, o, rows)]
                column < a && rows < usize::MAX && (forall|row: int|
                    0 <= row < rows ==> #[trigger] expr.fits(w, p, row)) ==> c.readable(
                    w,
                    p,
                    a,
                    r,
                    o,
                    rows,
                ),
    {
        let s = ExtExpr::Aux { offset: 0, index: column };
        let p = ExtExpr::Base(duplicate(expr));
        let body = ExtExpr::Sub(Box::new(s), Box::new(p));
        let c = Constraint { when: When::LastRow, body: Body::Ext(body) };
        proof {
            reveal_with_fuel(ExtExpr::value, 3);
            reveal_with_fuel(ExtExpr::degree, 3);
            reveal_with_fuel(ExtExpr::fits, 3);
            reveal_with_fuel(ExtExpr::reads_next, 3);
            let col = column as int;
            assert forall|t: Tables, row: int|
                0 <= row < t.base.height implies #[trigger] c.residue(t, row) == (t.aux)(
                row,
                col,
            ).minus(Ext::of(expr.value(t.base, row))) by {
                vstd::arithmetic::div_mod::lemma_small_mod(row as nat, t.base.height as nat);
            }
            assert forall|t: Tables| t.base.height > 0 implies (#[trigger] c.on_rows(t) <==> (
            t.aux)(t.base.height - 1, col).cong(
                Ext::of(expr.value(t.base, t.base.height - 1)),
            )) by {
                let row = t.base.height - 1;
                let u = (t.aux)(row, col);
                let v = Ext::of(expr.value(t.base, row));
                assert(c.residue(t, row) == u.minus(v));
                assert(c.holds(t, row) <==> u.minus(v).cong(Ext::of(0)));
                lemma_difference_zero(u, v, Ext::of(0));
            }
        }
        c
    }

    /// `s[0] - expected = 0`.
    fn horner_exposed(expected: ExtExpr, column: usize) -> (c: Constraint)
        ensures
            forall|t: Tables|
                t.base.height > 0 ==> (#[trigger] c.on_rows(t) <==> (t.aux)(
                    0,
                    column as int,
                ).cong(expected.value(t, 0))),
            asserts_exposed(c, expected, column as int),
            forall|k: int| #[trigger] c.reads_next(k) ==> expected.reads_next(k),
            c.body_degree() <= 1 || c.body_degree() <= expected.degree(),
            forall|w: int, p: int, a: int, r: int, o: int, rows: int|
                #![trigger c.readable(w, p, a, r, o, rows)]
                column < a && rows < usize::MAX && (forall|row: int|
                    0 <= row < rows ==> #[trigger] expected.fits(w, p, a, r, o, row))
                    ==> c.readable(w, p, a, r, o, rows),
    {
        let s = ExtExpr::Aux { offset: 0, index: column };
        let ghost e = expected;
        let body = ExtExpr::Sub(Box::new(s), Box::new(expected));
        let c = Constraint { when: When::FirstRow, body: Body::Ext(body) };
        proof {
            reveal_with_fuel(ExtExpr::value, 2);
            reveal_with_fuel(ExtExpr::degree, 2);
            reveal_with_fuel(ExtExpr::fits, 2);
            reveal_with_fuel(ExtExpr::reads_next, 2);
            let col = column as int;
            assert forall|t: Tables, row: int|
                0 <= row < t.base.height implies #[trigger] c.residue(t, row) == (t.aux)(
                row,
                col,
            ).minus(e.value(t, row)) by {
                vstd::arithmetic::div_mod::lemma_small_mod(row as nat, t.base.height as nat);
            }
            assert forall|t: Tables| t.base.height > 0 implies (#[trigger] c.on_rows(t) <==> (
            t.aux)(0, col).cong(e.value(t, 0))) by {
                let u = (t.aux)(0, col);
                let v = e.value(t, 0);
                assert(c.residue(t, 0) == u.minus(v));
                assert(c.holds(t, 0) <==> u.minus(v).cong(Ext::of(0)));
                lemma_difference_zero(u, v, Ext::of(0));
            }
            assert forall|w: int, p: int, a: int, r: int, o: int, rows: int|
                #![trigger c.readable(w, p, a, r, o, rows)]
                column < a && rows < usize::MAX && (forall|row: int|
                    0 <= row < rows ==> #[trigger] e.fits(w, p, a, r, o, row)) implies c.readable(
                w,
                p,
                a,
                r,
                o,
                rows,
            ) by {
                assert forall|row: int| 0 <= row < rows implies #[trigger] c.fits(
                    w,
                    p,
                    a,
                    r,
                    o,
                    row,
                ) by {
                    assert(e.fits(w, p, a, r, o, row));
                }
            }
        }
        c
    }
}

/// A difference vanishes exactly if its sides agree.
proof fn lemma_difference_zero(u: Ext, v: Ext, w: Ext)
    ensures
        u.minus(v).minus(w).cong(Ext::of(0)) <==> u.cong(v.plus(w)),
        u.minus(v).cong(Ext::of(0)) <==> u.cong(v),
{
}

impl EvalGadget {
    /// Shared constraint logic. `expected` is `Some` for exposed (global)
    /// arguments and `None` for hidden (local) ones.
    pub fn eval_horner(&self, context: &Lookup, expected: Option<ExtExpr>) -> (r: Vec<Constraint>)
        requires
            context.wf(),
        ensures
            forall|t: Tables|
                t.base.height > 0 ==> (#[trigger] symbolic::satisfied(r@, t) <==> horner_relation(
                    context.expr(),
                    context.column(),
                    t,
                ) && (expected matches Some(e) ==> (t.aux)(0, context.column()).cong(
                    e.value(t, 0),
                ))),
            forall|i: int|
                0 <= i < r@.len() ==> (#[trigger] r@[i]).body_degree() <= 1 || r@[i].body_degree()
                    <= context.expr().degree() || (expected matches Some(e) && r@[i].body_degree()
                    <= e.degree()),
            forall|w: int, p: int, a: int, c: int, o: int, rows: int|
                #![trigger symbolic::all_readable(r@, w, p, a, c, o, rows)]
                context.column() < a && context.column() < c && rows < usize::MAX && (forall|
                    row: int,
                |
                    0 <= row < rows ==> #[trigger] context.expr().fits(w, p, row)) && (
                expected matches Some(e) ==> forall|row: int|
                    0 <= row < rows ==> #[trigger] e.fits(w, p, a, c, o, row))
                    ==> symbolic::all_readable(r@, w, p, a, c, o, rows),
            are_horner_constraints(r@, context.expr(), context.column(), expected),
    {
        let expr = Self::element_expr(context);
        let column: usize = context.columns[0];
        let step = Self::horner_step(expr, column);
        let anchor = Self::horner_anchor(expr, column);
        let mut r: Vec<Constraint> = Vec::new();
        let ghost c0 = step;
        let ghost c1 = anchor;
        r.push(step);
        r.push(anchor);
        proof {
            assert forall|t: Tables| t.base.height > 0 implies (#[trigger] symbolic::satisfied(
                r@,
                t,
            ) <==> horner_relation(context.expr(), context.column(), t)) by {
                let s0 = Seq::<Constraint>::empty();
                let s1 = s0.push(c0);
                symbolic::lemma_satisfied_empty(t);
                symbolic::lemma_satisfied_push(s0, c0, t);
                symbolic::lemma_satisfied_push(s1, c1, t);
                assert(r@ =~= s1.push(c1));
            }
        }
        let ghost two = r@;
        match expected {
            Some(e) => {
                let exposed = Self::horner_exposed(e, column);
                let ghost c2 = exposed;
                r.push(exposed);
                proof {
                    assert forall|t: Tables| t.base.height > 0 implies (
                    #[trigger] symbolic::satisfied(r@, t) <==> horner_relation(
                        context.expr(),
                        context.column(),
                        t,
                    ) && (t.aux)(0, context.column()).cong(e.value(t, 0))) by {
                        symbolic::lemma_satisfied_push(two, c2, t);
                        assert(symbolic::satisfied(two, t) <==> horner_relation(
                            context.expr(),
                            context.column(),
                            t,
                        ));
                    }
                }
            },
            None => {},
        }
        r
    }

    /// The constraints of a hidden argument.
    pub fn eval_local_lookup(&self, context: &Lookup) -> (r: Vec<Constraint>)
        requires
            context.wf(),
        ensures
            forall|t: Tables|
                t.base.height > 0 ==> (#[trigger] symbolic::satisfied(r@, t) <==> horner_relation(
                    context.expr(),
                    context.column(),
                    t,
                )),
            are_horner_constraints(r@, context.expr(), context.column(), None),
    {
        self.eval_horner(context, None)
    }

    /// The constraints of an exposed argument.
    pub fn eval_global_update(&self, context: &Lookup, expected_cumulated: ExtExpr) -> (r: Vec<
        Constraint,
    >)
        requires
            context.wf(),
        ensures
            forall|t: Tables|
                t.base.height > 0 ==> (#[trigger] symbolic::satisfied(r@, t) <==> horner_relation(
                    context.expr(),
                    context.column(),
                    t,
                ) && (t.aux)(0, context.column()).cong(expected_cumulated.value(t, 0))),
            are_horner_constraints(
                r@,
                context.expr(),
                context.column(),
                Some(expected_cumulated),
            ),
    {
        self.eval_horner(context, Some(expected_cumulated))
    }

    /// The constraints of all arguments: the `k`-th global argument is pinned to
    /// the `k`-th published value.
    pub fn eval_lookups(&self, contexts: &[Lookup]) -> (r: Vec<Constraint>)
        requires
            forall|i: int| 0 <= i < contexts@.len() ==> (#[trigger] contexts@[i]).wf(),
        ensures
            forall|t: Tables|
                t.base.height > 0 ==> (#[trigger] symbolic::satisfied(r@, t)
                    <==> arguments_relation(contexts@, t)),
            forall|i: int|
                0 <= i < r@.len() ==> (#[trigger] r@[i]).body_degree() <= 1 || exists|j: int|
                    0 <= j < contexts@.len() && r@[i].body_degree() <= (
                    #[trigger] contexts@[j]).expr().degree(),
            forall|w: int, p: int, a: int, c: int, o: int, rows: int|
                #![trigger symbolic::all_readable(r@, w, p, a, c, o, rows)]
                readable_arguments(contexts@, w, p, a, c, o, rows) ==> symbolic::all_readable(
                    r@,
                    w,
                    p,
                    a,
                    c,
                    o,
                    rows,
                ),
            r@.len() == constraints_before(contexts@, contexts@.len() as int),
            forall|j: int|
                0 <= j < contexts@.len() ==> #[trigger] argument_asserted(r@, contexts@, j),
    {
        let mut r: Vec<Constraint> = Vec::new();
        let mut published: usize = 0;
        let mut i: usize = 0;
        proof {
            assert forall|t: Tables| #[trigger] symbolic::satisfied(r@, t) by {
                symbolic::lemma_satisfied_empty(t);
            }
        }
        while i < contexts.len()
            invariant
                i <= contexts@.len(),
                published == globals_before(contexts@, i as int),
                published <= i,
                r@.len() == constraints_before(contexts@, i as int),
                forall|j: int| 0 <= j < i ==> #[trigger] argument_asserted(r@, contexts@, j),
                forall|i: int| 0 <= i < contexts@.len() ==> (#[trigger] contexts@[i]).wf(),
                forall|t: Tables|
                    t.base.height > 0 ==> (#[trigger] symbolic::satisfied(r@, t) <==> forall|
                        j: int,
                    |
                        0 <= j < i ==> #[trigger] argument_relation(contexts@, j, t)),
                forall|k: int|
                    0 <= k < r@.len() ==> (#[trigger] r@[k]).body_degree() <= 1 || exists|j: int|
                        0 <= j < contexts@.len() && r@[k].body_degree() <= (
                        #[trigger] contexts@[j]).expr().degree(),
                forall|w: int, p: int, a: int, c: int, o: int, rows: int|
                    #![trigger symbolic::all_readable(r@, w, p, a, c, o, rows)]
                    readable_arguments(contexts@, w, p, a, c, o, rows) ==> symbolic::all_readable(
                        r@,
                        w,
                        p,
                        a,
                        c,
                        o,
                        rows,
                    ),
            decreases contexts@.len() - i,
        {
            let ghost before = r@;
            let ghost pub0 = published as int;
            let context = &contexts[i];
            let expected: Option<ExtExpr> = match &context.kind {
                Kind::Local => None,
                Kind::Global(_) => {
                    published = published + 1;
                    Some(ExtExpr::Published(published - 1))
                },
            };
            let mut more = self.eval_horner(context, expected);
            let ghost added = more@;
            r.append(&mut more);
            proof {
                assert(r@ =~= before + added);
                assert forall|j: int| 0 <= j < i + 1 implies #[trigger] argument_asserted(
                    r@,
                    contexts@,
                    j,
                ) by {
                    lemma_globals_range(contexts@, j, i as int);
                    let lo = constraints_before(contexts@, j);
                    let hi = constraints_before(contexts@, j + 1);
                    if j < i {
                        assert(argument_asserted(before, contexts@, j));
                        assert(r@.subrange(lo, hi) =~= before.subrange(lo, hi));
                    } else {
                        assert(r@.subrange(lo, hi) =~= added);
                    }
                }
                assert forall|t: Tables| t.base.height > 0 implies (#[trigger] symbolic::satisfied(
                    r@,
                    t,
                ) <==> forall|j: int|
                    0 <= j < i + 1 ==> #[trigger] argument_relation(contexts@, j, t)) by {
                    symbolic::lemma_satisfied_concat(before, added, t);
                    assert(symbolic::satisfied(added, t) <==> argument_relation(
                        contexts@,
                        i as int,
                        t,
                    ));
                    assert(symbolic::satisfied(before, t) <==> forall|j: int|
                        0 <= j < i ==> #[trigger] argument_relation(contexts@, j, t));
                    if symbolic::satisfied(r@, t) {
                        assert forall|j: int| 0 <= j < i + 1 implies #[trigger] argument_relation(
                            contexts@,
                            j,
                            t,
                        ) by {
                            if j < i {
                                assert(argument_relation(contexts@, j, t));
                            }
                        }
                    }
                    if forall|j: int|
                        0 <= j < i + 1 ==> #[trigger] argument_relation(contexts@, j, t) {
                        assert(argument_relation(contexts@, i as int, t));
                    }
                }
                assert forall|k: int| 0 <= k < r@.len() implies (#[trigger] r@[k]).body_degree()
                    <= 1 || exists|j: int|
                    0 <= j < contexts@.len() && r@[k].body_degree() <= (
                    #[trigger] contexts@[j]).expr().degree() by {
                    if k < before.len() {
                        assert(r@[k] == before[k]);
                    } else {
                        assert(r@[k] == added[k - before.len()]);
                        assert(contexts@[i as int].wf());
                    }
                }
                assert forall|w: int, p: int, a: int, c: int, o: int, rows: int|
                    #![trigger symbolic::all_readable(r@, w, p, a, c, o, rows)]
                    readable_arguments(
                        contexts@,
                        w,
                        p,
                        a,
                        c,
                        o,
                        rows,
                    ) implies symbolic::all_readable(r@, w, p, a, c, o, rows) by {
                    assert(symbolic::all_readable(before, w, p, a, c, o, rows));
                    assert(contexts@[i as int].column() < a && contexts@[i as int].column() < c);
                    if contexts@[i as int].kind is Global {
                        lemma_globals_monotone(contexts@, i + 1);
                    }
                    assert(symbolic::all_readable(added, w, p, a, c, o, rows));
                    assert forall|k: int| 0 <= k < r@.len() implies (#[trigger] r@[k]).readable(
                        w,
                        p,
                        a,
                        c,
                        o,
                        rows,
                    ) by {
                        if k < before.len() {
                            assert(r@[k] == before[k]);
                        } else {
                            assert(r@[k] == added[k - before.len()]);
                        }
                    }
                }
            }
            i = i + 1;
        }
        r
    }

    /// Evaluation arguments are verified outside the gadget: the verifier
    /// recomputes the public polynomials' evaluations at `z`, compares them
    /// against the published values, and relies on the in-circuit ring-identity
    /// constraints. Nothing to do here.
    pub fn verify_global_final_value(&self, all_expected_cumulated: &[Challenge]) -> (r: Result<
        (),
        LookupError,
    >)
        ensures
            r == Ok::<(), LookupError>(()),
    {
        Ok(())
    }

    /// The degree of the transition constraint:
    /// selector(1) * (s - p - z*s'), where deg(s) = deg(z*s') = 1.
    pub fn constraint_degree(&self, context: &Lookup) -> (r: usize)
        requires
            context.is_evaluation(),
            context.expr().degree() < usize::MAX,
        ensures
            context.expr().degree() >= 1 ==> r == 1 + context.expr().degree(),
            context.expr().degree() == 0 ==> r == 2,
    {
        let d: usize = degree_multiple(Self::element_expr(context));
        if d >= 1 {
            1 + d
        } else {
            2
        }
    }
}

/// Everything that the arguments read on rows below `rows` exists.
pub open spec fn readable_arguments(
    lookups: Seq<Lookup>,
    width: int,
    public: int,
    aux_width: int,
    randomness: int,
    published: int,
    rows: int,
) -> bool {
    &&& rows < usize::MAX
    &&& globals_before(lookups, lookups.len() as int) <= published
    &&& forall|i: int|
        0 <= i < lookups.len() ==> (#[trigger] lookups[i]).column() < aux_width
            && lookups[i].column() < randomness && (forall|row: int|
            0 <= row < rows ==> #[trigger] lookups[i].expr().fits(width, public, row))
}

/// The count of global arguments grows by at most one per argument.
proof fn lemma_globals_range(lookups: Seq<Lookup>, j: int, i: int)
    requires
        0 <= j <= i,
    ensures
        0 <= globals_before(lookups, j),
        j < i ==> globals_before(lookups, j) <= globals_before(lookups, j + 1) <= globals_before(
            lookups,
            i,
        ),
    decreases i,
{
    if i > 0 {
        if j < i {
            lemma_globals_range(lookups, j, i - 1);
        } else {
            lemma_globals_range(lookups, j - 1, i - 1);
        }
    }
}

proof fn lemma_globals_monotone(lookups: Seq<Lookup>, i: int)
    requires
        0 <= i <= lookups.len(),
    ensures
        globals_before(lookups, i) <= globals_before(lookups, lookups.len() as int),
    decreases lookups.len() - i,
{
    if i < lookups.len() {
        lemma_globals_monotone(lookups, i + 1);
    }
}

// ---------------------------------------------------------------------------
// The auxiliary trace.
// ---------------------------------------------------------------------------
/// The last of the first `upto` arguments that writes column `col`, or -1.
pub open spec fn column_owner(lookups: Seq<Lookup>, upto: int, col: int) -> int
    decreases upto,
{
    if upto <= 0 {
        -1
    } else if lookups[upto - 1].column() == col {
        upto - 1
    } else {
        column_owner(lookups, upto - 1, col)
    }
}

/// The first published entry at or after `from` that belongs to column `col`,
/// or -1.
pub open spec fn first_entry(data: Seq<LookupData>, from: int, col: int) -> int
    decreases data.len() - from,
{
    if from >= data.len() {
        -1
    } else if data[from].aux_idx == col {
        from
    } else {
        first_entry(data, from + 1, col)
    }
}

/// The last of the first `upto` arguments that publishes into entry `d`, or -1.
pub open spec fn entry_owner(
    lookups: Seq<Lookup>,
    data: Seq<LookupData>,
    upto: int,
    d: int,
) -> int
    decreases upto,
{
    if upto <= 0 {
        -1
    } else if lookups[upto - 1].kind is Global && first_entry(
        data,
        0,
        lookups[upto - 1].column(),
    ) == d {
        upto - 1
    } else {
        entry_owner(lookups, data, upto - 1, d)
    }
}

/// Entry (row, col) of the auxiliary table: the Horner sum from that row on of
/// the argument that owns the column, zero where there is none.
pub open spec fn aux_cell(
    lookups: Seq<Lookup>,
    upto: int,
    t: BaseTables,
    challenges: Seq<Ext>,
    row: int,
    col: int,
) -> Ext {
    let o = column_owner(lookups, upto, col);
    if o < 0 {
        Ext::of(0)
    } else {
        poly::horner(lookups[o].coefficients(t), row, challenges[col]).reduced()
    }
}

/// Only published values change, and each becomes the evaluation of the
/// argument that owns it.
pub open spec fn entries_published(
    lookups: Seq<Lookup>,
    upto: int,
    t: BaseTables,
    challenges: Seq<Ext>,
    before: Seq<LookupData>,
    after: Seq<LookupData>,
) -> bool {
    &&& after.len() == before.len()
    &&& forall|d: int|
        0 <= d < before.len() ==> {
            &&& (#[trigger] after[d]).name == before[d].name
            &&& after[d].aux_idx == before[d].aux_idx
            &&& entry_owner(lookups, before, upto, d) < 0 ==> after[d].expected_cumulated
                == before[d].expected_cumulated
            &&& entry_owner(lookups, before, upto, d) >= 0 ==> after[d].expected_cumulated@
                == poly::eval(
                lookups[entry_owner(lookups, before, upto, d)].coefficients(t),
                challenges[lookups[entry_owner(lookups, before, upto, d)].column()],
            ).reduced()
        }
}

/// One Horner step on reduced values.
pub proof fn lemma_horner_reduced(c: Seq<int>, row: int, z: Ext, acc: Ext, p: int, next: Ext)
    requires
        0 <= row < c.len(),
        acc == poly::horner(c, row + 1, z).reduced(),
        p == c[row] % field::q(),
        next == acc.times(z).reduced().plus(Ext::of(p)).reduced(),
    ensures
        next == poly::horner(c, row, z).reduced(),
{
    let h = poly::horner(c, row + 1, z);
    ext::lemma_reduced_cong(h);
    ext::lemma_ext_cong_times(acc, h, z, z);
    ext::lemma_times_comm(h, z);
    let a = acc.times(z);
    let b = z.times(h);
    ext::lemma_cong_reduced(a, b);
    ext::lemma_cong_reduced(a.reduced().plus(Ext::of(p)), Ext::of(c[row]).plus(b));
}

impl EvalGadget {
    /// The index of the first published entry of column `col`.
    fn find_entry(data: &[LookupData], col: usize) -> (d: usize)
        requires
            first_entry(data@, 0, col as int) >= 0,
        ensures
            d == first_entry(data@, 0, col as int),
            d < data@.len(),
    {
        let mut d: usize = 0;
        while data[d].aux_idx != col
            invariant
                d < data@.len(),
                first_entry(data@, d as int, col as int) == first_entry(data@, 0, col as int),
                first_entry(data@, 0, col as int) >= 0,
            decreases data@.len() - d,
        {
            proof {
                reveal_with_fuel(first_entry, 2);
                assert(first_entry(data@, d + 1, col as int) >= 0);
            }
            d = d + 1;
        }
        d
    }

    /// Horner from the bottom: `s[N-1] = p[N-1]`, `s[i] = p[i] + z*s[i+1]`,
    /// written to column `col`. Returns `s[0]`.
    fn fill_column(
        values: &mut Vec<Challenge>,
        width: usize,
        col: usize,
        expr: &Expr,
        main: &Matrix,
        public_values: &[F],
        z: Challenge,
    ) -> (acc: Challenge)
        requires
            main.wf(),
            col < width,
            old(values)@.len() == main.rows() * width,
            forall|row: int|
                0 <= row < main.rows() ==> #[trigger] expr.fits(
                    main.width as int,
                    public_values@.len() as int,
                    row,
                ),
        ensures
            final(values)@.len() == old(values)@.len(),
            forall|row: int, c: int|
                #![trigger final(values)@[row * width + c]]
                0 <= row < main.rows() && 0 <= c < width ==> if c == col {
                    final(values)@[row * width + c]@ == poly::horner(
                        Seq::new(
                            main.rows() as nat,
                            |r: int| expr.value(main.tables(field::vals(public_values@)), r),
                        ),
                        row,
                        z@,
                    ).reduced()
                } else {
                    final(values)@[row * width + c] == old(values)@[row * width + c]
                },
            acc@ == poly::eval(
                Seq::new(
                    main.rows() as nat,
                    |r: int| expr.value(main.tables(field::vals(public_values@)), r),
                ),
                z@,
            ).reduced(),
    {
        let ghost t = main.tables(field::vals(public_values@));
        let ghost p = Seq::new(main.rows() as nat, |r: int| expr.value(t, r));
        let ghost start = values@;
        let height: usize = main.height();
        let count: usize = values.len();
        let mut acc = Challenge::zero();
        let mut row: usize = height;
        assert(Ext::of(0).reduced() == Ext::of(0));
        while row > 0
            invariant
                row <= height,
                main.wf(),
                height == main.rows(),
                col < width,
                count == height * width,
                values@.len() == count,
                start.len() == count,
                t == main.tables(field::vals(public_values@)),
                p == Seq::new(main.rows() as nat, |r: int| expr.value(t, r)),
                forall|row: int|
                    0 <= row < main.rows() ==> #[trigger] expr.fits(
                        main.width as int,
                        public_values@.len() as int,
                        row,
                    ),
                acc@ == poly::horner(p, row as int, z@).reduced(),
                forall|r: int, c: int|
                    #![trigger values@[r * width + c]]
                    0 <= r < height && 0 <= c < width ==> if c == col && r >= row {
                        values@[r * width + c]@ == poly::horner(p, r, z@).reduced()
                    } else {
                        values@[r * width + c] == start[r * width + c]
                    },
            decreases row,
        {
            row = row - 1;
            let ghost acc0 = acc@;
            assert(expr.fits(main.width as int, public_values@.len() as int, row as int));
            let v = eval_symbolic_at_row(expr, main, public_values, row);
            acc = acc.mul(z).add(Challenge::from_base(v));
            proof {
                lemma_horner_reduced(p, row as int, z@, acc0, v@, acc@);
                symbolic::lemma_cell_index(row as int, col as int, width as int, height as int);
            }
            let ghost before = values@;
            let k: usize = row * width + col;
            values[k] = acc;
            proof {
                assert forall|r: int, c: int|
                    #![trigger values@[r * width + c]]
                    0 <= r < height && 0 <= c < width implies if c == col && r >= row {
                    values@[r * width + c]@ == poly::horner(p, r, z@).reduced()
                } else {
                    values@[r * width + c] == start[r * width + c]
                } by {
                    symbolic::lemma_cell_index(r, c, width as int, height as int);
                    if r * width + c == k {
                        symbolic::lemma_cell_distinct(
                            r,
                            c,
                            row as int,
                            col as int,
                            width as int,
                        );
                    } else {
                        assert(values@[r * width + c] == before[r * width + c]);
                    }
                }
            }
        }
        proof {
            poly::lemma_horner_eval(p, z@);
        }
        acc
    }

    /// The auxiliary trace of all arguments. The evaluations of the exposed
    /// (global) arguments are written into `lookup_data`.
    pub fn generate_permutation(
        &self,
        main: &Matrix,
        public_values: &[F],
        lookups: &[Lookup],
        lookup_data: &mut [LookupData],
        permutation_challenges: &[Challenge],
    ) -> (perm: ExtMatrix)
        requires
            main.wf(),
            main.rows() * lookups@.len() <= usize::MAX,
            permutation_challenges@.len() == lookups@.len(),
            forall|i: int|
                0 <= i < lookups@.len() ==> (#[trigger] lookups@[i]).wf() && lookups@[i].column()
                    < lookups@.len() && (forall|row: int|
                    0 <= row < main.rows() ==> #[trigger] lookups@[i].expr().fits(
                        main.width as int,
                        public_values@.len() as int,
                        row,
                    )) && (lookups@[i].kind is Global ==> first_entry(
                    old(lookup_data)@,
                    0,
                    lookups@[i].column(),
                ) >= 0),
        ensures
            perm.width == lookups@.len(),
            perm.values@.len() == main.rows() * lookups@.len(),
            lookups@.len() > 0 ==> perm.wf() && perm.rows() == main.rows(),
            forall|row: int, col: int|
                #![trigger perm.cell(row, col)]
                0 <= row < main.rows() && 0 <= col < perm.width ==> perm.cell(row, col) == aux_cell(
                    lookups@,
                    lookups@.len() as int,
                    main.tables(field::vals(public_values@)),
                    symbolic::exts(permutation_challenges@),
                    row,
                    col,
                ),
            entries_published(
                lookups@,
                lookups@.len() as int,
                main.tables(field::vals(public_values@)),
                symbolic::exts(permutation_challenges@),
                old(lookup_data)@,
                final(lookup_data)@,
            ),
    {
        let ghost t = main.tables(field::vals(public_values@));
        let ghost zs = symbolic::exts(permutation_challenges@);
        let ghost data0 = lookup_data@;
        let height: usize = main.height();
        let width: usize = lookups.len();
        let mut values: Vec<Challenge> = Vec::new();
        let total: usize = height * width;
        let mut k: usize = 0;
        while k < total
            invariant
                k <= total,
                values@.len() == k,
                forall|j: int| 0 <= j < k ==> #[trigger] values@[j]@ == Ext::of(0),
            decreases total - k,
        {
            values.push(Challenge::zero());
            k = k + 1;
        }
        let mut i: usize = 0;
        proof {
            assert forall|row: int, col: int|
                #![trigger values@[row * width + col]]
                0 <= row < height && 0 <= col < width implies values@[row * width + col]@
                == aux_cell(lookups@, 0, t, zs, row, col) by {
                symbolic::lemma_cell_index(row, col, width as int, height as int);
            }
        }
        while i < lookups.len()
            invariant
                i <= lookups@.len(),
                main.wf(),
                height == main.rows(),
                width == lookups@.len(),
                total == height * width,
                values@.len() == total,
                t == main.tables(field::vals(public_values@)),
                zs == symbolic::exts(permutation_challenges@),
                permutation_challenges@.len() == lookups@.len(),
                forall|i: int|
                    0 <= i < lookups@.len() ==> (#[trigger] lookups@[i]).wf()
                        && lookups@[i].column() < lookups@.len() && (forall|row: int|
                        0 <= row < main.rows() ==> #[trigger] lookups@[i].expr().fits(
                            main.width as int,
                            public_values@.len() as int,
                            row,
                        )) && (lookups@[i].kind is Global ==> first_entry(
                        data0,
                        0,
                        lookups@[i].column(),
                    ) >= 0),
                forall|row: int, col: int|
                    #![trigger values@[row * width + col]]
                    0 <= row < height && 0 <= col < width ==> values@[row * width + col]@
                        == aux_cell(lookups@, i as int, t, zs, row, col),
                entries_published(lookups@, i as int, t, zs, data0, lookup_data@),
            decreases lookups@.len() - i,
        {
            let lookup = &lookups[i];
            assert(lookups@[i as int].wf());
            let col: usize = lookup.columns[0];
            let expr = Self::element_expr(lookup);
            let z = permutation_challenges[col];
            let ghost before = values@;
            let acc = Self::fill_column(
                &mut values,
                width,
                col,
                expr,
                main,
                public_values,
                z,
            );
            proof {
                assert(lookup.coefficients(t) =~= Seq::new(
                    main.rows() as nat,
                    |r: int| expr.value(t, r),
                ));
                assert forall|row: int, c: int|
                    #![trigger values@[row * width + c]]
                    0 <= row < height && 0 <= c < width implies values@[row * width + c]@
                    == aux_cell(lookups@, i + 1, t, zs, row, c) by {
                    if c != col {
                        assert(before[row * width + c]@ == aux_cell(
                            lookups@,
                            i as int,
                            t,
                            zs,
                            row,
                            c,
                        ));
                    }
                }
            }
            let ghost data1 = lookup_data@;
            match &lookup.kind {
                Kind::Local => {
                    proof {
                        assert(entries_published(lookups@, i + 1, t, zs, data0, lookup_data@));
                    }
                },
                Kind::Global(_) => {
                    proof {
                        lemma_first_entry_same(data0, data1, 0, col as int);
                    }
                    let d: usize = Self::find_entry(lookup_data, col);
                    lookup_data[d].expected_cumulated = acc;
                    proof {
                        assert forall|e: int| 0 <= e < data0.len() implies {
                            &&& (#[trigger] lookup_data@[e]).name == data0[e].name
                            &&& lookup_data@[e].aux_idx == data0[e].aux_idx
                            &&& entry_owner(lookups@, data0, i + 1, e) < 0
                                ==> lookup_data@[e].expected_cumulated
                                == data0[e].expected_cumulated
                            &&& entry_owner(lookups@, data0, i + 1, e) >= 0
                                ==> lookup_data@[e].expected_cumulated@ == poly::eval(
                                lookups@[entry_owner(lookups@, data0, i + 1, e)].coefficients(t),
                                zs[lookups@[entry_owner(lookups@, data0, i + 1, e)].column()],
                            ).reduced()
                        } by {
                            assert(data1[e].name == data0[e].name);
                        }
                    }
                },
            }
            i = i + 1;
        }
        let perm = ExtMatrix { values, width };
        proof {
            if width > 0 {
                symbolic::lemma_rows(total as int, height as int, width as int);
            }
        }
        perm
    }
}

/// The search for an entry sees only the columns.
proof fn lemma_first_entry_same(x: Seq<LookupData>, y: Seq<LookupData>, from: int, col: int)
    requires
        0 <= from <= x.len(),
        x.len() == y.len(),
        forall|d: int| 0 <= d < x.len() ==> (#[trigger] y[d]).aux_idx == x[d].aux_idx,
    ensures
        first_entry(x, from, col) == first_entry(y, from, col),
    decreases x.len() - from,
{
    if from < x.len() {
        assert(y[from].aux_idx == x[from].aux_idx);
        lemma_first_entry_same(x, y, from + 1, col);
    }
}

/// Some instance has an argument.
pub open spec fn any_lookups(all_lookups: Seq<Vec<Lookup>>) -> bool {
    exists|i: int| 0 <= i < all_lookups.len() && (#[trigger] all_lookups[i])@.len() > 0
}

/// The challenge layout of a proof: one copy of the shared point for every
/// argument of every instance.
pub open spec fn is_challenge_layout(
    r: Seq<Vec<Challenge>>,
    all_lookups: Seq<Vec<Lookup>>,
    z: Ext,
) -> bool {
    &&& r.len() == all_lookups.len()
    &&& forall|i: int|
        0 <= i < r.len() ==> (#[trigger] r[i])@.len() == all_lookups[i]@.len() && forall|j: int|
            0 <= j < r[i]@.len() ==> (#[trigger] r[i]@[j])@ == z
}

/// Replicate the shared evaluation challenge into the per-instance layout.
pub fn replicate_challenge(z: Challenge, all_lookups: &[Vec<Lookup>]) -> (r: Vec<Vec<Challenge>>)
    ensures
        is_challenge_layout(r@, all_lookups@, z@),
{
    let mut r: Vec<Vec<Challenge>> = Vec::new();
    let mut i: usize = 0;
    while i < all_lookups.len()
        invariant
            i <= all_lookups@.len(),
            is_challenge_layout(r@, all_lookups@.take(i as int), z@),
        decreases all_lookups@.len() - i,
    {
        let mut row: Vec<Challenge> = Vec::new();
        let mut j: usize = 0;
        while j < all_lookups[i].len()
            invariant
                i < all_lookups@.len(),
                j <= all_lookups@[i as int]@.len(),
                row@.len() == j,
                forall|k: int| 0 <= k < j ==> (#[trigger] row@[k])@ == z@,
            decreases all_lookups@[i as int]@.len() - j,
        {
            row.push(z);
            j = j + 1;
        }
        r.push(row);
        i = i + 1;
    }
    assert(all_lookups@.take(i as int) =~= all_lookups@);
    r
}

/// Sample the shared evaluation challenge `z` and replicate it into the
/// per-instance challenge layout. The ring identities need every polynomial
/// evaluated at the *same* point, so one element is drawn for the whole proof;
/// none is drawn where there are no arguments.
pub fn sample_eval_challenges(
    challenger: &mut Transcript,
    all_lookups: &[Vec<Lookup>],
) -> (r: Vec<Vec<Challenge>>)
    ensures
        is_challenge_layout(r@, all_lookups@, old(challenger)@.element()),
        final(challenger)@ == if any_lookups(all_lookups@) {
            old(challenger)@.after(4)
        } else {
            old(challenger)@
        },
{
    let mut i: usize = 0;
    while i < all_lookups.len()
        invariant
            i <= all_lookups@.len(),
            *challenger == *old(challenger),
            forall|k: int| 0 <= k < i ==> (#[trigger] all_lookups@[k])@.len() == 0,
        decreases all_lookups@.len() - i,
    {
        if all_lookups[i].len() > 0 {
            assert(any_lookups(all_lookups@));
            let z = challenger.sample_algebra_element();
            return replicate_challenge(z, all_lookups);
        }
        i = i + 1;
    }
    replicate_challenge(Challenge::zero(), all_lookups)
}

} // verus!
