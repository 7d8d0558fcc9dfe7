//! The value that every constraint asks to vanish, and the rows it reads.

use regev_plonky3::air::{evaluation, local, RegevEncAir};
use regev_plonky3::ext::Challenge;
use regev_plonky3::field::F;
use regev_plonky3::gadget::{EvalGadget, Kind};
use regev_plonky3::range::{RangeSpec, RegevRangeAir};
use regev_plonky3::symbolic::{
    eval_symbolic_at_row, Body, Constraint, Expr, ExtExpr, ExtMatrix, Matrix, Trace, When,
};
use regev_plonky3::transfer::RegevTransferAir;

fn f(x: i64) -> F {
    if x < 0 {
        F::from_u32((-x) as u32).neg()
    } else {
        F::from_u32(x as u32)
    }
}

fn point() -> Challenge {
    Challenge::from_coefficients([3, 1, 4, 1])
}

fn element(k: u32) -> Challenge {
    Challenge::from_coefficients([k, k + 1, 0, 2])
}

/// The value of a constraint's body at a row, whether it is asked there or not.
fn value(c: &Constraint, trace: &Trace<'_>, row: usize) -> Challenge {
    match &c.body {
        Body::Base(e) => {
            Challenge::from_base(eval_symbolic_at_row(e, trace.main, trace.public_values, row))
        }
        Body::Ext(e) => trace.eval_ext_at_row(e, row),
    }
}

fn base_steps(e: &Expr, out: &mut Vec<usize>) {
    match e {
        Expr::Constant(_) | Expr::Public(_) => {}
        Expr::Main { offset, index } => {
            if *offset != 0 {
                out.push(*index);
            }
        }
        Expr::Add(x, y) | Expr::Sub(x, y) | Expr::Mul(x, y) => {
            base_steps(x, out);
            base_steps(y, out);
        }
        Expr::Neg(x) => base_steps(x, out),
    }
}

fn ext_steps(e: &ExtExpr, out: &mut Vec<usize>) {
    match e {
        ExtExpr::Base(x) => base_steps(x, out),
        ExtExpr::Aux { .. } | ExtExpr::Randomness(_) | ExtExpr::Published(_) => {}
        ExtExpr::Add(x, y) | ExtExpr::Sub(x, y) | ExtExpr::Mul(x, y) => {
            ext_steps(x, out);
            ext_steps(y, out);
        }
        ExtExpr::Square(x) => ext_steps(x, out),
    }
}

/// The main columns that the constraints read below their row, sorted.
fn next_columns(cs: &[Constraint]) -> Vec<usize> {
    let mut out = Vec::new();
    for c in cs {
        match &c.body {
            Body::Base(e) => base_steps(e, &mut out),
            Body::Ext(e) => ext_steps(e, &mut out),
        }
    }
    out.sort();
    out.dedup();
    out
}

fn range_system() -> RegevRangeAir {
    RegevRangeAir::new(4, f(7), RangeSpec { value_bits: 2, bound: 3 })
}

#[test]
fn next_row_columns_are_those_that_constraints_read() {
    let enc = RegevEncAir::new(4, f(7));
    assert_eq!(next_columns(&enc.eval()), enc.main_next_row_columns());
    assert!(enc.main_next_row_columns().is_empty());
    let transfer = RegevTransferAir::new(4, f(7));
    assert_eq!(next_columns(&transfer.eval()), transfer.main_next_row_columns());
    assert_eq!(transfer.main_next_row_columns(), vec![32]);
    let range = range_system();
    assert_eq!(next_columns(&range.eval()), range.main_next_row_columns());
    assert_eq!(range.main_next_row_columns(), vec![12, 13, 15, 16]);
}

#[test]
fn values_of_the_encryption_constraints() {
    let cs = RegevEncAir::new(2, f(7)).eval();
    // Row 0 holds 1, 2, ... and row 1 holds 101, 102, ...
    let main = Matrix {
        values: (0..24).map(|i| f(if i < 12 { i + 1 } else { i + 89 })).collect(),
        width: 12,
    };
    let aux = ExtMatrix { values: (0..20).map(|k| element(10 * k + 1)).collect(), width: 10 };
    let zs = vec![point(); 10];
    let trace = Trace {
        main: &main,
        aux: &aux,
        public_values: &[],
        randomness: &zs,
        published: &[],
    };
    let whens: Vec<When> = cs.iter().map(|c| c.when).collect();
    assert_eq!(whens[..6], [When::Always; 6]);
    assert_eq!(whens[6..], [When::FirstRow; 2]);
    for row in 0..2 {
        let entry = |col: i64| col + 1 + 100 * row as i64;
        let expected = [
            entry(4) * (entry(4) - 1) * (entry(4) + 1),
            entry(5) * (entry(5) - 1) * (entry(5) - 2),
            entry(6) * (entry(6) - 1) * (entry(6) - 2),
            entry(7) * (entry(7) - 1) * (entry(7) - 2),
            entry(8) * (entry(8) - 1) * (entry(8) - 2),
            entry(9) * (entry(9) - 1),
        ];
        for (c, want) in cs.iter().zip(expected) {
            assert_eq!(value(c, &trace, row), Challenge::from_base(f(want)));
        }
        let s = |col: usize| aux.get(row, col);
        let zn1 = point().mul(point()).add(Challenge::one());
        let first = s(0).mul(s(4)).add(s(5)).sub(s(2)).sub(zn1.mul(s(8)));
        assert_eq!(value(&cs[6], &trace, row), first);
        let masked = s(7).mul(Challenge::from_base(f(7)));
        let second = s(1).mul(s(4)).add(s(6)).add(masked).sub(s(3)).sub(zn1.mul(s(9)));
        assert_eq!(value(&cs[7], &trace, row), second);
    }
}

#[test]
fn an_unpaid_transfer_fails_one_constraint_only() {
    // after and delta hold a bit on the last row, and before holds none.
    let cs = RegevTransferAir::new(2, f(7)).eval();
    let mut main = Matrix { values: vec![F::zero(); 66], width: 33 };
    main.values[33 + 19] = F::one();
    main.values[33 + 29] = F::one();
    let aux = ExtMatrix { values: vec![Challenge::zero(); 52], width: 26 };
    let zs = vec![point(); 26];
    let trace = Trace {
        main: &main,
        aux: &aux,
        public_values: &[],
        randomness: &zs,
        published: &[],
    };
    assert_eq!(cs.len(), 28);
    for (k, c) in cs.iter().enumerate() {
        for row in 0..2 {
            assert_eq!(trace.check_constraint(c, row), !(k == 21 && row == 1));
        }
    }
    assert_eq!(cs[21].when, When::LastRow);
    assert_eq!(value(&cs[21], &trace, 1), Challenge::from_base(f(2)));
}

#[test]
fn values_of_the_adder_constraints() {
    let cs = RegevTransferAir::new(2, f(7)).eval();
    let mut main = Matrix { values: vec![F::zero(); 66], width: 33 };
    for row in 0..2usize {
        main.values[33 * row + 9] = f(3 + row as i64);
        main.values[33 * row + 19] = f(10 + row as i64);
        main.values[33 * row + 29] = f(100 + row as i64);
        main.values[33 * row + 32] = f(5 + row as i64);
    }
    let aux = ExtMatrix { values: (0..52).map(element).collect(), width: 26 };
    let zs = vec![point(); 26];
    let trace = Trace {
        main: &main,
        aux: &aux,
        public_values: &[],
        randomness: &zs,
        published: &[],
    };
    let whens: Vec<When> = cs[18..22].iter().map(|c| c.when).collect();
    assert_eq!(whens, [When::Always, When::FirstRow, When::Transition, When::LastRow]);
    let at = |k: usize, row: usize| value(&cs[k], &trace, row);
    assert_eq!(at(18, 0), Challenge::from_base(f(5 * 4)));
    assert_eq!(at(19, 0), Challenge::from_base(f(5)));
    assert_eq!(at(20, 0), Challenge::from_base(f(100 + 10 + 5 - 3 - 2 * 6)));
    assert_eq!(at(21, 1), Challenge::from_base(f(101 + 11 + 6 - 4)));
    // The identities of the third ciphertext read its own columns.
    let s = |col: usize| aux.get(0, col);
    let zn1 = point().mul(point()).add(Challenge::one());
    let first = s(0).mul(s(20)).add(s(21)).sub(s(18)).sub(zn1.mul(s(24)));
    assert_eq!(at(26, 0), first);
    let masked = s(23).mul(Challenge::from_base(f(7)));
    let second = s(1).mul(s(20)).add(s(22)).add(masked).sub(s(19)).sub(zn1.mul(s(25)));
    assert_eq!(at(27, 0), second);
}

#[test]
fn values_of_the_range_constraints() {
    let cs = range_system().eval();
    assert_eq!(cs.len(), 21);
    // Row r holds 20*r + col.
    let main = Matrix {
        values: (0..4).flat_map(|r| (0..17).map(move |col| f(20 * r + col))).collect(),
        width: 17,
    };
    let aux = ExtMatrix { values: vec![Challenge::zero(); 40], width: 10 };
    let zs = vec![point(); 10];
    let trace = Trace {
        main: &main,
        aux: &aux,
        public_values: &[],
        randomness: &zs,
        published: &[],
    };
    for row in 0..4usize {
        let x = |col: i64| 20 * row as i64 + col;
        let next = |col: i64| 20 * ((row as i64 + 1) % 4) + col;
        let weighted = (x(9) + x(14)) * x(13);
        let expected = [
            x(12) * (x(12) - 1),
            x(14) * (x(14) - 1),
            x(14) * (1 - x(12)),
            x(12) - 1,
            x(13) - 1,
            x(15) - 2,
            x(16) - 2,
            next(12) * (1 - x(12)),
            next(13) - 2 * x(13) * next(12),
            x(15) - weighted - next(15),
            x(16) - x(12) - next(16),
            x(15) - weighted,
            x(16) - x(12),
        ];
        for (c, want) in cs[8..].iter().zip(expected) {
            assert_eq!(value(c, &trace, row), Challenge::from_base(f(want)));
        }
    }
}

#[test]
fn values_of_the_horner_constraints() {
    let main = Matrix { values: vec![f(5), f(6), f(7)], width: 1 };
    let aux = ExtMatrix { values: (0..3).map(|k| element(k + 1)).collect(), width: 1 };
    let published = [element(50)];
    let trace = Trace {
        main: &main,
        aux: &aux,
        public_values: &[],
        randomness: &[point()],
        published: &published,
    };
    let gadget = EvalGadget::default();
    let argument = evaluation(Kind::Local, local(0), 0);
    let hidden = gadget.eval_horner(&argument, None);
    let exposed = gadget.eval_horner(&argument, Some(ExtExpr::Published(0)));
    assert_eq!((hidden.len(), exposed.len()), (2, 3));
    let whens: Vec<When> = exposed.iter().map(|c| c.when).collect();
    assert_eq!(whens, [When::Transition, When::LastRow, When::FirstRow]);
    for row in 0..3usize {
        let s = aux.get(row, 0);
        let p = Challenge::from_base(main.get(row, 0));
        let step = s.sub(p).sub(point().mul(aux.get((row + 1) % 3, 0)));
        assert_eq!(value(&exposed[0], &trace, row), step);
        assert_eq!(value(&hidden[0], &trace, row), step);
        assert_eq!(value(&exposed[1], &trace, row), s.sub(p));
        assert_eq!(value(&exposed[2], &trace, row), s.sub(element(50)));
    }
    assert!(next_columns(&exposed).is_empty());
}

#[test]
fn constraints_of_arguments_follow_each_other() {
    let arguments = [
        evaluation(Kind::Global("x".to_string()), local(0), 0),
        evaluation(Kind::Local, local(1), 1),
        evaluation(Kind::Global("y".to_string()), local(2), 2),
    ];
    let cs = EvalGadget::new().eval_lookups(&arguments);
    let whens: Vec<When> = cs.iter().map(|c| c.when).collect();
    assert_eq!(
        whens,
        [
            When::Transition,
            When::LastRow,
            When::FirstRow,
            When::Transition,
            When::LastRow,
            When::Transition,
            When::LastRow,
            When::FirstRow,
        ]
    );
    let main = Matrix { values: vec![f(5), f(6), f(7)], width: 3 };
    let aux = ExtMatrix { values: (0..3).map(element).collect(), width: 3 };
    let zs = vec![point(); 3];
    let published = [element(50), element(60)];
    let trace = Trace {
        main: &main,
        aux: &aux,
        public_values: &[],
        randomness: &zs,
        published: &published,
    };
    assert_eq!(value(&cs[2], &trace, 0), element(0).sub(element(50)));
    assert_eq!(value(&cs[7], &trace, 0), element(2).sub(element(60)));
}
