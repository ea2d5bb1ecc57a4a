use halo2curves::bn256::Fr;
use snark_stream::plonk::circuit::{
    Any, ChallengeMid, ColumnMid, ExpressionBack, Polynomial, QueryBack, Rotation, VarBack,
};
use snark_stream::plonk::evaluation::evaluate;
use snark_stream::plonk::graph::{Calculation, GraphEvaluator, ValueSource};

fn lagranges(v: &[&[u64]]) -> Vec<Polynomial> {
    v.iter()
        .map(|vv| Polynomial {
            values: vv.iter().map(|v| Fr::from(*v)).collect(),
        })
        .collect()
}

fn fr(expected: i64) -> Fr {
    if expected < 0 {
        -Fr::from(-expected as u64)
    } else {
        Fr::from(expected as u64)
    }
}

fn run(gv: &GraphEvaluator) -> Fr {
    let mut evaluation_data = gv.instance();
    gv.evaluate(
        &mut evaluation_data,
        &lagranges(&[&[2, 3], &[1002, 1003]]),
        &lagranges(&[&[4, 5], &[1004, 1005]]),
        &lagranges(&[&[6, 7], &[1006, 1007]]),
        &[8u64.into(), 9u64.into()],
        &Fr::from(10),
        &Fr::from(11),
        &Fr::from(12),
        &Fr::from(13),
        &Fr::from(14),
        0,
        1,
        32,
    )
}

fn check(calc: Option<Calculation>, expr: Option<ExpressionBack>, expected: i64) {
    let mut gv = GraphEvaluator::default();
    if let Some(expression) = expr {
        gv.add_expression(&expression);
    } else if let Some(calculation) = calc {
        gv.add_rotation(&Rotation::cur());
        gv.add_rotation(&Rotation::next());
        gv.add_calculation(calculation);
    } else {
        unreachable!()
    }
    let result = run(&gv);
    assert_eq!(result, fr(expected), "Expected {} was {:?}", expected, result);
}

fn check_expr(expr: ExpressionBack, expected: i64) {
    check(None, Some(expr), expected);
}

fn check_calc(calc: Calculation, expected: i64) {
    check(Some(calc), None, expected);
}

fn query(column_type: Any, index: usize, rotation: i32) -> ExpressionBack {
    ExpressionBack::Var(VarBack::Query(QueryBack {
        index: 0,
        column: ColumnMid { index, column_type },
        rotation: Rotation(rotation),
    }))
}

fn constant(v: u64) -> ExpressionBack {
    ExpressionBack::Constant(Fr::from(v))
}

fn sum(a: ExpressionBack, b: ExpressionBack) -> ExpressionBack {
    ExpressionBack::Sum(Box::new(a), Box::new(b))
}

fn product(a: ExpressionBack, b: ExpressionBack) -> ExpressionBack {
    ExpressionBack::Product(Box::new(a), Box::new(b))
}

fn negated(a: ExpressionBack) -> ExpressionBack {
    ExpressionBack::Negated(Box::new(a))
}

#[test]
fn graphevaluator_values() {
    for (col, rot, expected) in [(0, 0, 2), (0, 1, 3), (1, 0, 1002), (1, 1, 1003)] {
        check_expr(query(Any::Fixed, col, rot), expected);
    }
    for (col, rot, expected) in [(0, 0, 4), (0, 1, 5), (1, 0, 1004), (1, 1, 1005)] {
        check_expr(query(Any::Advice, col, rot), expected);
    }
    for (col, rot, expected) in [(0, 0, 6), (0, 1, 7), (1, 0, 1006), (1, 1, 1007)] {
        check_expr(query(Any::Instance, col, rot), expected);
    }
    for (ch, expected) in [(0, 8), (1, 9)] {
        check_expr(
            ExpressionBack::Var(VarBack::Challenge(ChallengeMid {
                index: ch,
                phase: 0,
            })),
            expected,
        );
    }

    check_calc(Calculation::Store(ValueSource::Beta()), 10);
    check_calc(Calculation::Store(ValueSource::Gamma()), 11);
    check_calc(Calculation::Store(ValueSource::Theta()), 12);
    check_calc(Calculation::Store(ValueSource::Y()), 13);
    check_calc(Calculation::Store(ValueSource::PreviousValue()), 14);
}

#[test]
fn graphevaluator_expr_operations() {
    let two = || Box::new(query(Any::Fixed, 0, 0));
    let three = || Box::new(query(Any::Fixed, 0, 1));

    check_expr(ExpressionBack::Sum(two(), three()), 5);
    check_expr(ExpressionBack::Product(two(), three()), 6);
    check_expr(
        ExpressionBack::Sum(ExpressionBack::Negated(two()).into(), three()),
        1,
    );
}

#[test]
fn graphevaluator_calc_operations() {
    let two = || ValueSource::Fixed(0, 0);
    let three = || ValueSource::Fixed(0, 1);

    check_calc(Calculation::Add(two(), three()), 5);
    check_calc(Calculation::Double(two()), 4);
    check_calc(Calculation::Mul(two(), three()), 6);
    check_calc(Calculation::Square(three()), 9);
    check_calc(Calculation::Negate(two()), -2);
    check_calc(Calculation::Sub(three(), two()), 1);
    check_calc(
        Calculation::Horner(two(), vec![three(), two()], three()),
        2 + 3 * 3 + 2 * 9,
    );
}

#[test]
fn an_empty_graph_evaluates_to_zero() {
    let mut gv = GraphEvaluator::default();
    assert_eq!(run(&gv), Fr::from(0));
    // A bare constant makes no calculation either.
    assert_eq!(gv.add_expression(&constant(5)), ValueSource::Constant(3));
    assert_eq!(gv.calculations.len(), 0);
    assert_eq!(run(&gv), Fr::from(0));
}

#[test]
fn constants_fold() {
    let x = || query(Any::Advice, 0, 0);
    let mut gv = GraphEvaluator::default();
    let source = gv.add_expression(&x());
    assert_eq!(source, ValueSource::Intermediate(0));

    // x + 0, 0 + x, x * 1, 1 * x and x - 0 are x; x * 0 is 0.
    assert_eq!(gv.add_expression(&sum(x(), constant(0))), source);
    assert_eq!(gv.add_expression(&sum(constant(0), x())), source);
    assert_eq!(gv.add_expression(&product(x(), constant(1))), source);
    assert_eq!(gv.add_expression(&product(constant(1), x())), source);
    assert_eq!(
        gv.add_expression(&sum(x(), negated(constant(0)))),
        source
    );
    assert_eq!(
        gv.add_expression(&product(x(), constant(0))),
        ValueSource::Constant(0)
    );
    assert_eq!(
        gv.add_expression(&negated(product(x(), constant(0)))),
        ValueSource::Constant(0)
    );
    assert_eq!(gv.calculations.len(), 1);

    // A product with 2 is a double, with itself a square.
    assert_eq!(
        gv.add_expression(&product(constant(2), x())),
        ValueSource::Intermediate(1)
    );
    assert!(matches!(
        gv.calculations[1].calculation,
        Calculation::Double(ValueSource::Intermediate(0))
    ));
    assert_eq!(
        gv.add_expression(&product(x(), x())),
        ValueSource::Intermediate(2)
    );
    assert!(matches!(
        gv.calculations[2].calculation,
        Calculation::Square(ValueSource::Intermediate(0))
    ));
    // A negated constant is a constant.
    let minus_two = gv.add_expression(&negated(constant(2)));
    assert_eq!(minus_two, ValueSource::Constant(3));
    assert_eq!(gv.constants[3], -Fr::from(2));
}

#[test]
fn no_calculation_is_made_twice() {
    let x = || query(Any::Advice, 0, 0);
    let z = || query(Any::Fixed, 1, 1);
    let e = || sum(product(x(), z()), negated(product(z(), x())));
    let mut gv = GraphEvaluator::default();
    let first = gv.add_expression(&e());
    let n = gv.calculations.len();
    // Two stores, one product (in either order), one difference.
    assert_eq!(n, 4);
    assert_eq!(gv.add_expression(&e()), first);
    assert_eq!(gv.calculations.len(), n);
    assert_eq!(gv.rotations, vec![0, 1]);
    assert_eq!(run(&gv), Fr::from(0));
}

#[test]
fn sources_are_ordered_by_kind_then_index() {
    let sources = [
        ValueSource::Constant(7),
        ValueSource::Intermediate(0),
        ValueSource::Intermediate(1),
        ValueSource::Fixed(0, 5),
        ValueSource::Fixed(1, 0),
        ValueSource::Advice(0, 0),
        ValueSource::Instance(0, 0),
        ValueSource::Challenge(0),
        ValueSource::Beta(),
        ValueSource::Gamma(),
        ValueSource::Theta(),
        ValueSource::Y(),
        ValueSource::PreviousValue(),
    ];
    for (i, a) in sources.iter().enumerate() {
        for (j, b) in sources.iter().enumerate() {
            assert_eq!(a.le(b), i <= j);
        }
    }
}

#[test]
fn expressions_evaluate_over_columns() {
    // fixed[0](next row) * advice[0] - challenge + 3, over four rows that wrap.
    let e = sum(
        sum(
            product(query(Any::Fixed, 0, 1), query(Any::Advice, 0, 0)),
            negated(ExpressionBack::Var(VarBack::Challenge(ChallengeMid {
                index: 0,
                phase: 0,
            }))),
        ),
        constant(3),
    );
    let fixed = lagranges(&[&[1, 2, 3, 4]]);
    let advice = lagranges(&[&[10, 20, 30, 40]]);
    let got = evaluate(&e, 4, 1, &fixed, &advice, &[], &[Fr::from(5)]);
    let want: Vec<Fr> = [2 * 10 - 2, 3 * 20 - 2, 4 * 30 - 2, 40 - 2]
        .iter()
        .map(|v| Fr::from(*v as u64))
        .collect();
    assert_eq!(got, want);

    // The graph of the expression gives the same, row by row.
    let mut gv = GraphEvaluator::default();
    gv.add_expression(&e);
    let mut data = gv.instance();
    for (row, w) in want.iter().enumerate() {
        let zero = Fr::from(0);
        let v = gv.evaluate(
            &mut data, &fixed, &advice, &[], &[Fr::from(5)], &zero, &zero, &zero, &zero, &zero,
            row, 1, 4,
        );
        assert_eq!(v, *w);
    }
}
