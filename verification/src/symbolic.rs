//! Constraint expressions over an execution trace.
//!
//! A trace has a main table over the base field and an auxiliary (permutation)
//! table over the extension field. Constraints are expression trees over one
//! row and the row after it (wrapping), restricted to some rows.

use crate::ext;
use crate::ext::{Challenge, Ext};
use crate::field;
use crate::field::F;
use crate::sums;
use vstd::arithmetic::div_mod::*;
use vstd::prelude::*;

verus! {

/// A base-field expression over the main table and the public values.
#[derive(Debug)]
pub enum Expr {
    Constant(u32),
    /// Column `index` of the main table, `offset` rows down.
    Main { offset: usize, index: usize },
    Public(usize),
    Add(Box<Expr>, Box<Expr>),
    Sub(Box<Expr>, Box<Expr>),
    Neg(Box<Expr>),
    Mul(Box<Expr>, Box<Expr>),
}

/// An extension-field expression, which may also read the auxiliary table, the
/// verifier's randomness and the published values.
#[derive(Debug)]
pub enum ExtExpr {
    Base(Expr),
    /// Column `index` of the auxiliary table, `offset` rows down.
    Aux { offset: usize, index: usize },
    Randomness(usize),
    Published(usize),
    Add(Box<ExtExpr>, Box<ExtExpr>),
    Sub(Box<ExtExpr>, Box<ExtExpr>),
    Mul(Box<ExtExpr>, Box<ExtExpr>),
    Square(Box<ExtExpr>),
}

/// The rows on which a constraint must hold.
#[derive(Clone, Copy, Debug, PartialEq, Eq, Structural)]
pub enum When {
    Always,
    FirstRow,
    LastRow,
    Transition,
}

#[derive(Debug)]
pub enum Body {
    Base(Expr),
    Ext(ExtExpr),
}

/// An expression that must be zero on the given rows.
#[derive(Debug)]
pub struct Constraint {
    pub when: When,
    pub body: Body,
}

/// A table over the base field, row by row.
#[derive(Clone, Debug, PartialEq, Eq)]
pub struct Matrix {
    pub values: Vec<F>,
    pub width: usize,
}

/// A table over the extension field, row by row.
#[derive(Clone, Debug, PartialEq, Eq)]
pub struct ExtMatrix {
    pub values: Vec<Challenge>,
    pub width: usize,
}

// ---------------------------------------------------------------------------
// Meaning.
// ---------------------------------------------------------------------------
/// What a base-field expression reads.
pub ghost struct BaseTables {
    pub height: int,
    /// Entry of the main table at (row, column).
    pub main: spec_fn(int, int) -> int,
    pub public: Seq<int>,
}

/// What an extension-field expression reads.
pub ghost struct Tables {
    pub base: BaseTables,
    /// Entry of the auxiliary table at (row, column).
    pub aux: spec_fn(int, int) -> Ext,
    pub randomness: Seq<Ext>,
    pub published: Seq<Ext>,
}

impl BaseTables {
    /// A column of the main table, as a polynomial.
    pub open spec fn column(self, col: int) -> Seq<int> {
        Seq::new(self.height as nat, |i: int| (self.main)(i, col))
    }
}

impl Expr {
    /// The integer that the expression stands for at a row, up to congruence
    /// modulo `q`.
    pub open spec fn value(self, t: BaseTables, row: int) -> int
        decreases self,
    {
        match self {
            Expr::Constant(c) => c as int,
            Expr::Main { offset, index } => (t.main)((row + offset) % t.height, index as int),
            Expr::Public(i) => t.public[i as int],
            Expr::Add(x, y) => x.value(t, row) + y.value(t, row),
            Expr::Sub(x, y) => x.value(t, row) - y.value(t, row),
            Expr::Neg(x) => -x.value(t, row),
            Expr::Mul(x, y) => x.value(t, row) * y.value(t, row),
        }
    }

    /// The degree of the expression in the trace columns.
    pub open spec fn degree(self) -> nat
        decreases self,
    {
        match self {
            Expr::Constant(_) => 0,
            Expr::Main { .. } => 1,
            Expr::Public(_) => 0,
            Expr::Add(x, y) => if x.degree() >= y.degree() {
                x.degree()
            } else {
                y.degree()
            },
            Expr::Sub(x, y) => if x.degree() >= y.degree() {
                x.degree()
            } else {
                y.degree()
            },
            Expr::Neg(x) => x.degree(),
            Expr::Mul(x, y) => x.degree() + y.degree(),
        }
    }

    /// Every column and public value that the expression reads exists, and no
    /// row index overflows.
    pub open spec fn fits(self, width: int, public: int, row: int) -> bool
        decreases self,
    {
        match self {
            Expr::Constant(_) => true,
            Expr::Main { offset, index } => index < width && row + offset <= usize::MAX,
            Expr::Public(i) => i < public,
            Expr::Add(x, y) => x.fits(width, public, row) && y.fits(width, public, row),
            Expr::Sub(x, y) => x.fits(width, public, row) && y.fits(width, public, row),
            Expr::Neg(x) => x.fits(width, public, row),
            Expr::Mul(x, y) => x.fits(width, public, row) && y.fits(width, public, row),
        }
    }

    /// The expression reads main column `col` on a row below the current one.
    pub open spec fn reads_next(self, col: int) -> bool
        decreases self,
    {
        match self {
            Expr::Constant(_) => false,
            Expr::Main { offset, index } => offset != 0 && index == col,
            Expr::Public(_) => false,
            Expr::Add(x, y) => x.reads_next(col) || y.reads_next(col),
            Expr::Sub(x, y) => x.reads_next(col) || y.reads_next(col),
            Expr::Neg(x) => x.reads_next(col),
            Expr::Mul(x, y) => x.reads_next(col) || y.reads_next(col),
        }
    }
}

impl ExtExpr {
    /// The extension element that the expression stands for at a row, up to
    /// congruence modulo `q`.
    pub open spec fn value(self, t: Tables, row: int) -> Ext
        decreases self,
    {
        match self {
            ExtExpr::Base(e) => Ext::of(e.value(t.base, row)),
            ExtExpr::Aux { offset, index } => (t.aux)(
                (row + offset) % t.base.height,
                index as int,
            ),
            ExtExpr::Randomness(i) => t.randomness[i as int],
            ExtExpr::Published(i) => t.published[i as int],
            ExtExpr::Add(x, y) => x.value(t, row).plus(y.value(t, row)),
            ExtExpr::Sub(x, y) => x.value(t, row).minus(y.value(t, row)),
            ExtExpr::Mul(x, y) => x.value(t, row).times(y.value(t, row)),
            ExtExpr::Square(x) => x.value(t, row).times(x.value(t, row)),
        }
    }

    /// The degree of the expression in the trace columns.
    pub open spec fn degree(self) -> nat
        decreases self,
    {
        match self {
            ExtExpr::Base(e) => e.degree(),
            ExtExpr::Aux { .. } => 1,
            ExtExpr::Randomness(_) => 0,
            ExtExpr::Published(_) => 0,
            ExtExpr::Add(x, y) => if x.degree() >= y.degree() {
                x.degree()
            } else {
                y.degree()
            },
            ExtExpr::Sub(x, y) => if x.degree() >= y.degree() {
                x.degree()
            } else {
                y.degree()
            },
            ExtExpr::Mul(x, y) => x.degree() + y.degree(),
            ExtExpr::Square(x) => 2 * x.degree(),
        }
    }

    /// Everything that the expression reads exists, and no row index overflows.
    pub open spec fn fits(
        self,
        width: int,
        public: int,
        aux_width: int,
        randomness: int,
        published: int,
        row: int,
    ) -> bool
        decreases self,
    {
        match self {
            ExtExpr::Base(e) => e.fits(width, public, row),
            ExtExpr::Aux { offset, index } => index < aux_width && row + offset <= usize::MAX,
            ExtExpr::Randomness(i) => i < randomness,
            ExtExpr::Published(i) => i < published,
            ExtExpr::Add(x, y) => x.fits(width, public, aux_width, randomness, published, row)
                && y.fits(width, public, aux_width, randomness, published, row),
            ExtExpr::Sub(x, y) => x.fits(width, public, aux_width, randomness, published, row)
                && y.fits(width, public, aux_width, randomness, published, row),
            ExtExpr::Mul(x, y) => x.fits(width, public, aux_width, randomness, published, row)
                && y.fits(width, public, aux_width, randomness, published, row),
            ExtExpr::Square(x) => x.fits(width, public, aux_width, randomness, published, row),
        }
    }

    /// The expression reads main column `col` on a row below the current one.
    pub open spec fn reads_next(self, col: int) -> bool
        decreases self,
    {
        match self {
            ExtExpr::Base(e) => e.reads_next(col),
            ExtExpr::Aux { .. } => false,
            ExtExpr::Randomness(_) => false,
            ExtExpr::Published(_) => false,
            ExtExpr::Add(x, y) => x.reads_next(col) || y.reads_next(col),
            ExtExpr::Sub(x, y) => x.reads_next(col) || y.reads_next(col),
            ExtExpr::Mul(x, y) => x.reads_next(col) || y.reads_next(col),
            ExtExpr::Square(x) => x.reads_next(col),
        }
    }
}

impl When {
    /// Whether the row is one of the selected rows.
    pub open spec fn selects(self, row: int, height: int) -> bool {
        match self {
            When::Always => true,
            When::FirstRow => row == 0,
            When::LastRow => row == height - 1,
            When::Transition => row != height - 1,
        }
    }

    /// The degree that the row selector adds.
    pub open spec fn degree(self) -> nat {
        match self {
            When::Always => 0,
            When::FirstRow => 1,
            When::LastRow => 1,
            When::Transition => 0,
        }
    }
}

impl Constraint {
    /// The element that must vanish.
    pub open spec fn residue(self, t: Tables, row: int) -> Ext {
        match self.body {
            Body::Base(e) => Ext::of(e.value(t.base, row)),
            Body::Ext(e) => e.value(t, row),
        }
    }

    /// The constraint holds at a row.
    pub open spec fn holds(self, t: Tables, row: int) -> bool {
        self.when.selects(row, t.base.height) ==> self.residue(t, row).cong(Ext::of(0))
    }

    /// The degree of the body in the trace columns.
    pub open spec fn body_degree(self) -> nat {
        match self.body {
            Body::Base(e) => e.degree(),
            Body::Ext(e) => e.degree(),
        }
    }

    /// Everything that the constraint reads at a row exists.
    pub open spec fn fits(
        self,
        width: int,
        public: int,
        aux_width: int,
        randomness: int,
        published: int,
        row: int,
    ) -> bool {
        match self.body {
            Body::Base(e) => e.fits(width, public, row),
            Body::Ext(e) => e.fits(width, public, aux_width, randomness, published, row),
        }
    }

    /// The constraint reads main column `col` on a row below the current one.
    pub open spec fn reads_next(self, col: int) -> bool {
        match self.body {
            Body::Base(e) => e.reads_next(col),
            Body::Ext(e) => e.reads_next(col),
        }
    }

    /// The constraint reads some main column on a row below the current one.
    pub open spec fn reads_next_main(self) -> bool {
        exists|col: int| #[trigger] self.reads_next(col)
    }

    /// On the rows `when`, the constraint asks that the base-field value `v`
    /// vanish.
    pub open spec fn asserts_base(self, when: When, v: spec_fn(BaseTables, int) -> int) -> bool {
        &&& self.when == when
        &&& forall|t: Tables, row: int|
            0 <= row < t.base.height ==> #[trigger] self.residue(t, row) == Ext::of(
                v(t.base, row),
            )
    }

    /// On the rows `when`, the constraint asks that the extension-field value
    /// `v` vanish.
    pub open spec fn asserts_ext(self, when: When, v: spec_fn(Tables, int) -> Ext) -> bool {
        &&& self.when == when
        &&& forall|t: Tables, row: int|
            0 <= row < t.base.height ==> #[trigger] self.residue(t, row) == v(t, row)
    }
}

impl Constraint {
    /// The constraint holds on every row.
    pub open spec fn on_rows(self, t: Tables) -> bool {
        forall|row: int| 0 <= row < t.base.height ==> #[trigger] self.holds(t, row)
    }

    /// Everything that the constraint reads on rows below `rows` exists.
    pub open spec fn readable(
        self,
        width: int,
        public: int,
        aux_width: int,
        randomness: int,
        published: int,
        rows: int,
    ) -> bool {
        forall|row: int|
            0 <= row < rows ==> #[trigger] self.fits(
                width,
                public,
                aux_width,
                randomness,
                published,
                row,
            )
    }
}

/// Every constraint holds on every row.
pub open spec fn satisfied(cs: Seq<Constraint>, t: Tables) -> bool {
    forall|i: int, row: int|
        #![trigger cs[i].holds(t, row)]
        0 <= i < cs.len() && 0 <= row < t.base.height ==> cs[i].holds(t, row)
}

/// The row after `row`, the first after the last.
pub open spec fn next_row(t: BaseTables, row: int) -> int {
    (row + 1) % t.height
}

/// Every main column that a constraint reads below its row is one of `cols`.
pub open spec fn next_columns_within(cs: Seq<Constraint>, cols: Set<int>) -> bool {
    forall|i: int, col: int|
        0 <= i < cs.len() && #[trigger] cs[i].reads_next(col) ==> cols.contains(col)
}

/// Everything that the constraints read on rows below `rows` exists.
pub open spec fn all_readable(
    cs: Seq<Constraint>,
    width: int,
    public: int,
    aux_width: int,
    randomness: int,
    published: int,
    rows: int,
) -> bool {
    forall|i: int|
        0 <= i < cs.len() ==> (#[trigger] cs[i]).readable(
            width,
            public,
            aux_width,
            randomness,
            published,
            rows,
        )
}

pub proof fn lemma_satisfied_empty(t: Tables)
    ensures
        satisfied(Seq::<Constraint>::empty(), t),
{
}

pub proof fn lemma_satisfied_push(cs: Seq<Constraint>, c: Constraint, t: Tables)
    ensures
        satisfied(cs.push(c), t) <==> satisfied(cs, t) && c.on_rows(t),
{
    let all = cs.push(c);
    if satisfied(all, t) {
        assert forall|i: int, row: int|
            #![trigger cs[i].holds(t, row)]
            0 <= i < cs.len() && 0 <= row < t.base.height implies cs[i].holds(t, row) by {
            assert(all[i].holds(t, row));
        }
        assert forall|row: int| 0 <= row < t.base.height implies #[trigger] c.holds(t, row) by {
            assert(all[cs.len() as int].holds(t, row));
        }
    }
}

pub proof fn lemma_satisfied_concat(a: Seq<Constraint>, b: Seq<Constraint>, t: Tables)
    ensures
        satisfied(a + b, t) <==> satisfied(a, t) && satisfied(b, t),
{
    let all = a + b;
    if satisfied(all, t) {
        assert forall|i: int, row: int|
            #![trigger a[i].holds(t, row)]
            0 <= i < a.len() && 0 <= row < t.base.height implies a[i].holds(t, row) by {
            assert(all[i].holds(t, row));
        }
        assert forall|i: int, row: int|
            #![trigger b[i].holds(t, row)]
            0 <= i < b.len() && 0 <= row < t.base.height implies b[i].holds(t, row) by {
            assert(all[a.len() + i].holds(t, row));
        }
    }
    if satisfied(a, t) && satisfied(b, t) {
        assert forall|i: int, row: int|
            #![trigger all[i].holds(t, row)]
            0 <= i < all.len() && 0 <= row < t.base.height implies all[i].holds(t, row) by {
            if i < a.len() {
                assert(a[i].holds(t, row));
            } else {
                assert(b[i - a.len()].holds(t, row));
            }
        }
    }
}

impl Matrix {
    pub open spec fn rows(self) -> int {
        if self.width == 0 {
            0
        } else {
            self.values@.len() as int / self.width as int
        }
    }

    /// The values fill whole rows.
    pub open spec fn wf(self) -> bool {
        self.width > 0 && self.values@.len() == self.rows() * self.width
    }

    pub open spec fn cell(self, row: int, col: int) -> int {
        self.values@[row * self.width + col]@
    }

    /// What base-field expressions read from this table.
    pub open spec fn tables(self, public: Seq<int>) -> BaseTables {
        BaseTables { height: self.rows(), main: |row: int, col: int| self.cell(row, col), public }
    }

    pub fn height(&self) -> (r: usize)
        ensures
            r == self.rows(),
    {
        if self.width == 0 {
            0
        } else {
            self.values.len() / self.width
        }
    }

    pub fn get(&self, row: usize, col: usize) -> (r: F)
        requires
            self.wf(),
            row < self.rows(),
            col < self.width,
        ensures
            r@ == self.cell(row as int, col as int),
    {
        let total: usize = self.values.len();
        proof {
            lemma_cell_index(row as int, col as int, self.width as int, self.rows());
        }
        assert(row * self.width + col < total);
        self.values[row * self.width + col]
    }
}

impl ExtMatrix {
    pub open spec fn rows(self) -> int {
        if self.width == 0 {
            0
        } else {
            self.values@.len() as int / self.width as int
        }
    }

    /// The values fill whole rows.
    pub open spec fn wf(self) -> bool {
        self.width > 0 && self.values@.len() == self.rows() * self.width
    }

    pub open spec fn cell(self, row: int, col: int) -> Ext {
        self.values@[row * self.width + col]@
    }

    pub fn height(&self) -> (r: usize)
        ensures
            r == self.rows(),
    {
        if self.width == 0 {
            0
        } else {
            self.values.len() / self.width
        }
    }

    pub fn get(&self, row: usize, col: usize) -> (r: Challenge)
        requires
            self.wf(),
            row < self.rows(),
            col < self.width,
        ensures
            r@ == self.cell(row as int, col as int),
    {
        let total: usize = self.values.len();
        proof {
            lemma_cell_index(row as int, col as int, self.width as int, self.rows());
        }
        assert(row * self.width + col < total);
        self.values[row * self.width + col]
    }
}

/// Positions in a row-major table are in range.
pub proof fn lemma_cell_index(row: int, col: int, width: int, rows: int)
    requires
        0 <= row < rows,
        0 <= col < width,
    ensures
        0 <= row * width,
        0 <= row * width + col < rows * width,
{
    assert(0 <= row * width && row * width + width <= rows * width) by (nonlinear_arith)
        requires
            0 <= row,
            row + 1 <= rows,
            width >= 0,
    ;
}

/// Distinct positions are distinct cells.
pub proof fn lemma_cell_distinct(row: int, col: int, row2: int, col2: int, width: int)
    requires
        0 <= col < width,
        0 <= col2 < width,
        row * width + col == row2 * width + col2,
    ensures
        row == row2,
        col == col2,
{
    if row < row2 {
        assert(row * width + width <= row2 * width) by (nonlinear_arith)
            requires
                row + 1 <= row2,
                width >= 0,
        ;
    } else if row2 < row {
        assert(row2 * width + width <= row * width) by (nonlinear_arith)
            requires
                row2 + 1 <= row,
                width >= 0,
        ;
    }
}

/// A table of `rows * width` values has `rows` rows.
pub proof fn lemma_rows(len: int, rows: int, width: int)
    requires
        width > 0,
        rows >= 0,
        len == rows * width,
    ensures
        len / width == rows,
{
    lemma_div_by_multiple(rows, width);
}

// ---------------------------------------------------------------------------
// Evaluation.
// ---------------------------------------------------------------------------
/// Evaluate a base-field expression at a given trace row.
pub fn eval_symbolic_at_row(expr: &Expr, main: &Matrix, public_values: &[F], row: usize) -> (r: F)
    requires
        main.wf(),
        main.rows() > 0,
        expr.fits(main.width as int, public_values@.len() as int, row as int),
    ensures
        r@ == expr.value(main.tables(field::vals(public_values@)), row as int) % field::q(),
    decreases expr,
{
    broadcast use F::lemma_view_range;

    let ghost t = main.tables(field::vals(public_values@));
    match expr {
        Expr::Constant(c) => F::from_u32(*c),
        Expr::Main { offset, index } => {
            let h: usize = main.height();
            main.get((row + *offset) % h, *index)
        },
        Expr::Public(i) => public_values[*i],
        Expr::Add(x, y) => {
            let a = eval_symbolic_at_row(x, main, public_values, row);
            let b = eval_symbolic_at_row(y, main, public_values, row);
            a.add(b)
        },
        Expr::Sub(x, y) => {
            let a = eval_symbolic_at_row(x, main, public_values, row);
            let b = eval_symbolic_at_row(y, main, public_values, row);
            a.sub(b)
        },
        Expr::Neg(x) => {
            let a = eval_symbolic_at_row(x, main, public_values, row);
            a.neg()
        },
        Expr::Mul(x, y) => {
            let a = eval_symbolic_at_row(x, main, public_values, row);
            let b = eval_symbolic_at_row(y, main, public_values, row);
            proof {
                sums::lemma_cong_mul(
                    a@,
                    x.value(t, row as int),
                    b@,
                    y.value(t, row as int),
                );
            }
            a.mul(b)
        },
    }
}

/// A copy of an expression.
pub fn duplicate(expr: &Expr) -> (r: Expr)
    ensures
        r == *expr,
    decreases expr,
{
    match expr {
        Expr::Constant(c) => Expr::Constant(*c),
        Expr::Main { offset, index } => Expr::Main { offset: *offset, index: *index },
        Expr::Public(i) => Expr::Public(*i),
        Expr::Add(x, y) => Expr::Add(Box::new(duplicate(x)), Box::new(duplicate(y))),
        Expr::Sub(x, y) => Expr::Sub(Box::new(duplicate(x)), Box::new(duplicate(y))),
        Expr::Neg(x) => Expr::Neg(Box::new(duplicate(x))),
        Expr::Mul(x, y) => Expr::Mul(Box::new(duplicate(x)), Box::new(duplicate(y))),
    }
}

/// The degree of an expression in the trace columns.
pub fn degree_multiple(expr: &Expr) -> (r: usize)
    requires
        expr.degree() <= usize::MAX,
    ensures
        r == expr.degree(),
    decreases expr,
{
    match expr {
        Expr::Constant(_) => 0,
        Expr::Main { .. } => 1,
        Expr::Public(_) => 0,
        Expr::Add(x, y) => {
            let a: usize = degree_multiple(x);
            let b: usize = degree_multiple(y);
            if a >= b {
                a
            } else {
                b
            }
        },
        Expr::Sub(x, y) => {
            let a: usize = degree_multiple(x);
            let b: usize = degree_multiple(y);
            if a >= b {
                a
            } else {
                b
            }
        },
        Expr::Neg(x) => degree_multiple(x),
        Expr::Mul(x, y) => degree_multiple(x) + degree_multiple(y),
    }
}

/// The trace against which constraints are checked.
pub struct Trace<'a> {
    pub main: &'a Matrix,
    pub aux: &'a ExtMatrix,
    pub public_values: &'a [F],
    pub randomness: &'a [Challenge],
    pub published: &'a [Challenge],
}

/// The extension elements of a sequence of challenges.
pub open spec fn exts(s: Seq<Challenge>) -> Seq<Ext> {
    Seq::new(s.len(), |i: int| s[i]@)
}

impl<'a> Trace<'a> {
    pub open spec fn wf(self) -> bool {
        &&& self.main.wf()
        &&& self.aux.wf()
        &&& self.main.rows() > 0
        &&& self.aux.rows() == self.main.rows()
    }

    pub open spec fn tables(self) -> Tables {
        Tables {
            base: self.main.tables(field::vals(self.public_values@)),
            aux: |row: int, col: int| self.aux.cell(row, col),
            randomness: exts(self.randomness@),
            published: exts(self.published@),
        }
    }

    pub open spec fn fits(self, c: Constraint, row: int) -> bool {
        c.fits(
            self.main.width as int,
            self.public_values@.len() as int,
            self.aux.width as int,
            self.randomness@.len() as int,
            self.published@.len() as int,
            row,
        )
    }

    pub open spec fn fits_ext(self, e: ExtExpr, row: int) -> bool {
        e.fits(
            self.main.width as int,
            self.public_values@.len() as int,
            self.aux.width as int,
            self.randomness@.len() as int,
            self.published@.len() as int,
            row,
        )
    }

    /// Evaluate an extension-field expression at a given trace row.
    pub fn eval_ext_at_row(&self, expr: &ExtExpr, row: usize) -> (r: Challenge)
        requires
            self.wf(),
            self.fits_ext(*expr, row as int),
        ensures
            r@ == expr.value(self.tables(), row as int).reduced(),
        decreases expr,
    {
        let ghost t = self.tables();
        match expr {
            ExtExpr::Base(e) => {
                let v = eval_symbolic_at_row(e, self.main, self.public_values, row);
                let r = Challenge::from_base(v);
                assert(r@ == Ext::of(e.value(t.base, row as int)).reduced());
                r
            },
            ExtExpr::Aux { offset, index } => {
                let h: usize = self.aux.height();
                let r = self.aux.get((row + *offset) % h, *index);
                proof {
                    r.lemma_reduced();
                }
                r
            },
            ExtExpr::Randomness(i) => {
                let r = self.randomness[*i];
                proof {
                    r.lemma_reduced();
                }
                r
            },
            ExtExpr::Published(i) => {
                let r = self.published[*i];
                proof {
                    r.lemma_reduced();
                }
                r
            },
            ExtExpr::Add(x, y) => {
                let a = self.eval_ext_at_row(x, row);
                let b = self.eval_ext_at_row(y, row);
                proof {
                    lemma_plus_reduced(x.value(t, row as int), y.value(t, row as int));
                }
                a.add(b)
            },
            ExtExpr::Sub(x, y) => {
                let a = self.eval_ext_at_row(x, row);
                let b = self.eval_ext_at_row(y, row);
                proof {
                    lemma_plus_reduced(x.value(t, row as int), y.value(t, row as int));
                }
                a.sub(b)
            },
            ExtExpr::Mul(x, y) => {
                let a = self.eval_ext_at_row(x, row);
                let b = self.eval_ext_at_row(y, row);
                proof {
                    lemma_times_reduced(x.value(t, row as int), y.value(t, row as int));
                }
                a.mul(b)
            },
            ExtExpr::Square(x) => {
                let a = self.eval_ext_at_row(x, row);
                proof {
                    lemma_times_reduced(x.value(t, row as int), x.value(t, row as int));
                }
                a.mul(a)
            },
        }
    }

    /// Whether one constraint holds at one row.
    pub fn check_constraint(&self, c: &Constraint, row: usize) -> (r: bool)
        requires
            self.wf(),
            row < self.main.rows(),
            self.fits(*c, row as int),
        ensures
            r == c.holds(self.tables(), row as int),
    {
        broadcast use F::lemma_view_range;

        let h: usize = self.main.height();
        let selected: bool = match c.when {
            When::Always => true,
            When::FirstRow => row == 0,
            When::LastRow => row == h - 1,
            When::Transition => row != h - 1,
        };
        if !selected {
            return true;
        }
        match &c.body {
            Body::Base(e) => {
                let v = eval_symbolic_at_row(e, self.main, self.public_values, row);
                v == F::zero()
            },
            Body::Ext(e) => {
                let v = self.eval_ext_at_row(e, row);
                proof {
                    ext::lemma_cong_reduced(e.value(self.tables(), row as int), Ext::of(0));
                }
                v == Challenge::zero()
            },
        }
    }

    /// Whether every constraint holds on every row.
    pub fn check_constraints(&self, cs: &[Constraint]) -> (r: bool)
        requires
            self.wf(),
            forall|i: int, row: int|
                #![trigger self.fits(cs@[i], row)]
                0 <= i < cs@.len() && 0 <= row < self.main.rows() ==> self.fits(cs@[i], row),
        ensures
            r == satisfied(cs@, self.tables()),
    {
        let h: usize = self.main.height();
        let ghost t = self.tables();
        let mut i: usize = 0;
        while i < cs.len()
            invariant
                i <= cs@.len(),
                self.wf(),
                h == self.main.rows(),
                t == self.tables(),
                forall|i: int, row: int|
                    #![trigger self.fits(cs@[i], row)]
                    0 <= i < cs@.len() && 0 <= row < h ==> self.fits(cs@[i], row),
                forall|j: int, row: int|
                    #![trigger cs@[j].holds(t, row)]
                    0 <= j < i && 0 <= row < h ==> cs@[j].holds(t, row),
            decreases cs@.len() - i,
        {
            let mut row: usize = 0;
            while row < h
                invariant
                    row <= h,
                    i < cs@.len(),
                    self.wf(),
                    h == self.main.rows(),
                    t == self.tables(),
                    forall|i: int, row: int|
                        #![trigger self.fits(cs@[i], row)]
                        0 <= i < cs@.len() && 0 <= row < h ==> self.fits(cs@[i], row),
                    forall|p: int| 0 <= p < row ==> #[trigger] cs@[i as int].holds(t, p),
                decreases h - row,
            {
                assert(self.fits(cs@[i as int], row as int));
                if !self.check_constraint(&cs[i], row) {
                    assert(!cs@[i as int].holds(t, row as int));
                    return false;
                }
                row = row + 1;
            }
            i = i + 1;
        }
        true
    }
}

/// Reducing the operands first does not change a reduced sum or difference.
proof fn lemma_plus_reduced(x: Ext, y: Ext)
    ensures
        x.reduced().plus(y.reduced()).reduced() == x.plus(y).reduced(),
        x.reduced().minus(y.reduced()).reduced() == x.minus(y).reduced(),
{
    sums::lemma_mod_add2(x.c0, y.c0);
    sums::lemma_mod_add2(x.c1, y.c1);
    sums::lemma_mod_add2(x.c2, y.c2);
    sums::lemma_mod_add2(x.c3, y.c3);
    sums::lemma_mod_sub2(x.c0, y.c0);
    sums::lemma_mod_sub2(x.c1, y.c1);
    sums::lemma_mod_sub2(x.c2, y.c2);
    sums::lemma_mod_sub2(x.c3, y.c3);
}

/// Reducing the factors first does not change a reduced product.
proof fn lemma_times_reduced(x: Ext, y: Ext)
    ensures
        x.reduced().times(y.reduced()).reduced() == x.times(y).reduced(),
{
    ext::lemma_reduced_cong(x);
    ext::lemma_reduced_cong(y);
    ext::lemma_ext_cong_times(x.reduced(), x, y.reduced(), y);
    ext::lemma_cong_reduced(x.reduced().times(y.reduced()), x.times(y));
}

} // verus!
