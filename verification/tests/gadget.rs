//! The evaluation argument and the constraint checker on minimal tables.

use p3_baby_bear::BabyBear;
use p3_field::PrimeField32;
use rand::rngs::SmallRng;
use rand::{RngExt, SeedableRng};
use regev_plonky3::air::{evaluation, local, ternary_constraint};
use regev_plonky3::ext::Challenge;
use regev_plonky3::field::F;
use regev_plonky3::gadget::{EvalGadget, Kind, Lookup, LookupData, LookupError};
use regev_plonky3::prove::eval_at;
use regev_plonky3::symbolic::{
    degree_multiple, duplicate, eval_symbolic_at_row, Body, Constraint, Expr, ExtExpr, ExtMatrix,
    Matrix, Trace, When,
};

fn random_element(rng: &mut SmallRng) -> F {
    let x: BabyBear = rng.random();
    F::from_u32(x.as_canonical_u32())
}

fn random_trit(rng: &mut SmallRng) -> F {
    let t: i32 = rng.random_range(-1..=1);
    if t < 0 {
        F::one().neg()
    } else {
        F::from_u32(t as u32)
    }
}

fn point() -> Challenge {
    Challenge::from_coefficients([3, 1, 4, 1])
}

/// Fill the auxiliary table and check `constraints` together with those of the
/// evaluation arguments.
fn accepts(main: &Matrix, lookups: &[Lookup], constraints: &[Constraint]) -> bool {
    let zs = vec![point(); lookups.len()];
    let mut data: Vec<LookupData> = Vec::new();
    for l in lookups {
        if let Kind::Global(name) = &l.kind {
            data.push(LookupData {
                name: name.clone(),
                aux_idx: l.columns[0],
                expected_cumulated: Challenge::zero(),
            });
        }
    }
    let gadget = EvalGadget::new();
    let aux = gadget.generate_permutation(main, &[], lookups, &mut data, &zs);
    let published: Vec<Challenge> = data.iter().map(|d| d.expected_cumulated).collect();
    assert!(gadget.verify_global_final_value(&published).is_ok());
    let trace = Trace {
        main,
        aux: &aux,
        public_values: &[],
        randomness: &zs,
        published: &published,
    };
    trace.check_constraints(constraints) && trace.check_constraints(&gadget.eval_lookups(lookups))
}

fn run(global: bool) {
    let mut rng = SmallRng::seed_from_u64(5);
    let main = Matrix { values: (0..64).map(|_| random_element(&mut rng)).collect(), width: 1 };
    let kind = if global { Kind::Global("eval:x".to_string()) } else { Kind::Local };
    assert!(accepts(&main, &[evaluation(kind, local(0), 0)], &[]));
}

#[test]
fn zk_local_eval_argument() {
    run(false);
}

#[test]
fn zk_global_eval_argument() {
    run(true);
}

#[test]
fn zk_degree3_main_constraint() {
    let mut rng = SmallRng::seed_from_u64(12);
    let values: Vec<F> = (0..128).map(|_| random_trit(&mut rng)).collect();
    let main = Matrix { values, width: 1 };
    let lookups = [evaluation(Kind::Local, local(0), 0)];
    assert!(accepts(&main, &lookups, &[ternary_constraint(0)]));
}

#[test]
fn zk_product_first_row_constraint() {
    let mut rng = SmallRng::seed_from_u64(6);
    let values: Vec<F> = (0..128)
        .flat_map(|_| {
            let v = random_trit(&mut rng);
            [v, random_element(&mut rng)]
        })
        .collect();
    let main = Matrix { values, width: 2 };
    let lookups = [
        evaluation(Kind::Global("eval:0".to_string()), local(0), 0),
        evaluation(Kind::Global("eval:1".to_string()), local(1), 1),
    ];
    // The product of the two running values on the first row is that of the
    // published values.
    let product = Constraint {
        when: When::FirstRow,
        body: Body::Ext(ExtExpr::Sub(
            Box::new(ExtExpr::Mul(
                Box::new(ExtExpr::Aux { offset: 0, index: 0 }),
                Box::new(ExtExpr::Aux { offset: 0, index: 1 }),
            )),
            Box::new(ExtExpr::Mul(
                Box::new(ExtExpr::Published(0)),
                Box::new(ExtExpr::Published(1)),
            )),
        )),
    };
    assert!(accepts(&main, &lookups, &[ternary_constraint(0), product]));
}

#[test]
fn constraints_fail_on_bad_tables() {
    let main = Matrix {
        values: vec![F::zero(), F::one(), F::from_u32(2), F::one().neg()],
        width: 1,
    };
    let lookups = [evaluation(Kind::Local, local(0), 0)];
    assert!(!accepts(&main, &lookups, &[ternary_constraint(0)]));
}

#[test]
fn running_values_end_in_the_evaluation() {
    let coefficients = vec![F::from_u32(7), F::from_u32(11), F::from_u32(13), F::from_u32(17)];
    let main = Matrix { values: coefficients.clone(), width: 1 };
    let lookups = [evaluation(Kind::Global("p".to_string()), local(0), 0)];
    let mut data = vec![LookupData {
        name: "p".to_string(),
        aux_idx: 0,
        expected_cumulated: Challenge::zero(),
    }];
    let aux = EvalGadget::new().generate_permutation(&main, &[], &lookups, &mut data, &[point()]);
    let value = eval_at(&coefficients, point());
    assert_eq!(data[0].expected_cumulated, value);
    assert_eq!(aux.get(0, 0), value);
    assert_eq!(aux.get(3, 0), Challenge::from_base(F::from_u32(17)));
    assert_eq!(aux.height(), 4);
    // Recomputed by hand: 7 + 11 z + 13 z^2 + 17 z^3.
    let z = point();
    let by_hand = Challenge::from_base(F::from_u32(7))
        .add(Challenge::from_base(F::from_u32(11)).mul(z))
        .add(Challenge::from_base(F::from_u32(13)).mul(z).mul(z))
        .add(Challenge::from_base(F::from_u32(17)).mul(z).mul(z).mul(z));
    assert_eq!(value, by_hand);
}

#[test]
fn a_wrong_auxiliary_table_is_rejected() {
    let main = Matrix { values: vec![F::from_u32(7), F::from_u32(11)], width: 1 };
    let aux = ExtMatrix { values: vec![Challenge::zero(), Challenge::zero()], width: 1 };
    let lookups = [evaluation(Kind::Local, local(0), 0)];
    let trace = Trace {
        main: &main,
        aux: &aux,
        public_values: &[],
        randomness: &[point()],
        published: &[],
    };
    assert!(!trace.check_constraints(&EvalGadget::new().eval_lookups(&lookups)));
}

#[test]
fn published_values_are_not_compared_with_each_other() {
    let gadget = EvalGadget::new();
    let r: Result<(), LookupError> = gadget.verify_global_final_value(&[point()]);
    assert_eq!(r, Ok(()));
    assert_eq!(gadget.num_aux_cols(), 1);
    assert_eq!(gadget.num_challenges(), 1);
}

#[test]
fn expressions_read_the_next_row_and_wrap() {
    let main = Matrix {
        values: vec![F::from_u32(1), F::from_u32(2), F::from_u32(3), F::from_u32(4)],
        width: 2,
    };
    let next = Expr::Main { offset: 1, index: 1 };
    assert_eq!(eval_symbolic_at_row(&next, &main, &[], 0), F::from_u32(4));
    assert_eq!(eval_symbolic_at_row(&next, &main, &[], 1), F::from_u32(2));
    let e = Expr::Sub(
        Box::new(Expr::Mul(Box::new(local(0)), Box::new(Expr::Public(0)))),
        Box::new(Expr::Add(
            Box::new(Expr::Constant(5)),
            Box::new(Expr::Neg(Box::new(local(1)))),
        )),
    );
    assert_eq!(
        eval_symbolic_at_row(&e, &main, &[F::from_u32(10)], 1),
        F::from_u32(3 * 10 - (5 - 4))
    );
    assert_eq!(degree_multiple(&e), 1);
    assert_eq!(
        eval_symbolic_at_row(&duplicate(&e), &main, &[F::from_u32(10)], 1),
        eval_symbolic_at_row(&e, &main, &[F::from_u32(10)], 1)
    );
}

#[test]
fn degree_of_an_argument_follows_its_expression() {
    let gadget = EvalGadget::new();
    let linear = evaluation(Kind::Local, local(0), 0);
    assert_eq!(gadget.constraint_degree(&linear), 2);
    let square = Expr::Mul(Box::new(local(0)), Box::new(local(0)));
    let quadratic = evaluation(Kind::Local, square, 0);
    assert_eq!(gadget.constraint_degree(&quadratic), 3);
}
