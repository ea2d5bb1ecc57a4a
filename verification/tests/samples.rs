use halo2curves::bn256::Fr;
use halo2curves::ff::Field;
use snark_stream::plonk::circuit::{ExpressionBack, Polynomial};
use snark_stream::plonk::evaluation::evaluate;
use snark_stream::plonk::samples::{
    chain_gate, chain_rows, lookup_argument, lookup_rows, mul_gate, mul_rows, shuffle_argument,
    shuffle_rows, wide_gate, wide_rows, Assignment, Cell,
};

fn rows(e: &ExpressionBack, a: &Assignment) -> Vec<Fr> {
    let n = a.fixed[0].values.len();
    evaluate(e, n, 1, &a.fixed, &a.advice, &[], &[])
}

fn small(column: &Polynomial, count: usize) -> Vec<Fr> {
    column.values[..count].to_vec()
}

fn ints(v: &[u64]) -> Vec<Fr> {
    v.iter().map(|x| Fr::from(*x)).collect()
}

#[test]
fn multiplications_meet_their_constraint() {
    let a = mul_rows(5);
    assert_eq!(a.advice.len(), 3);
    for c in &a.advice {
        assert_eq!(c.values.len(), 32);
    }
    assert_eq!(a.advice[2].values[15], Fr::from(6));
    assert_eq!(a.advice[2].values[16], Fr::ZERO);
    let g = mul_gate();
    assert!(rows(&g.poly, &a).iter().all(|v| *v == Fr::ZERO));
    // A wrong product does not.
    let mut bad = a;
    bad.advice[2].values[3] = Fr::from(7);
    assert_eq!(rows(&g.poly, &bad)[3], -Fr::ONE);
    // Too few rows to fill any.
    assert!(mul_rows(4).fixed[0].values.iter().all(|v| *v == Fr::ZERO));
}

#[test]
fn the_chain_meets_its_constraint_and_its_copies() {
    for k in 1..7usize {
        let x = Fr::from(0x1234_5678);
        let (a, copies) = chain_rows(&x, k);
        let links = if k < 3 { 0 } else { (1 << (k - 1)) - 3 };
        assert_eq!(copies.len(), 2 * links);
        assert!(rows(&chain_gate().poly, &a).iter().all(|v| *v == Fr::ZERO));
        let at = |c: &Cell| a.advice[c.column].values[c.row];
        for (p, q) in &copies {
            assert_eq!(at(p), at(q));
        }
        if links > 0 {
            assert_eq!(
                (a.advice[0].values[0], a.advice[1].values[0], a.advice[2].values[0]),
                (x, x, x * x)
            );
            assert_eq!(
                (a.advice[0].values[1], a.advice[1].values[1], a.advice[2].values[1]),
                (x, x * x, x * x + x)
            );
            assert_eq!(
                copies[0],
                (Cell { column: 0, row: 0 }, Cell { column: 0, row: 1 })
            );
            assert_eq!(
                copies[1],
                (Cell { column: 1, row: 1 }, Cell { column: 2, row: 0 })
            );
        }
    }
}

#[test]
fn wide_rows_sum_up() {
    for cols in [2usize, 3, 8] {
        let a = wide_rows(5, cols);
        assert_eq!(a.advice.len(), cols);
        assert_eq!(a.advice[0].values[4], Fr::from(5));
        let total: u64 = (0..cols as u64 - 1).map(|j| 4 + j + 1).sum();
        assert_eq!(a.advice[cols - 1].values[4], Fr::from(total));
        assert!(rows(&wide_gate(cols).poly, &a)
            .iter()
            .all(|v| *v == Fr::ZERO));
    }
}

#[test]
fn lookups_find_their_values() {
    for k in [2usize, 5, 6, 9] {
        let a = lookup_rows(k);
        let n = 1usize << k;
        let t = n.saturating_sub(32).min(256).max(4);
        let l = lookup_argument();
        let input = rows(&l.input_expressions[0], &a);
        let table = rows(&l.table_expressions[0], &a);
        assert!(input.iter().all(|v| table[..t].contains(v)));
        assert_eq!(table[t - 1], Fr::from(t as u64 - 1));
        if n > 16 {
            assert_eq!(input[n - 17], Fr::from(((n - 17) % t) as u64));
            assert_eq!(input[n - 16], Fr::ZERO);
        }
    }
}

#[test]
fn the_shuffle_holds_the_same_pairs() {
    let a = shuffle_rows(3);
    let s = shuffle_argument();
    let side = |e: &[ExpressionBack]| -> Vec<(Fr, Fr)> {
        let (x, y) = (rows(&e[0], &a), rows(&e[1], &a));
        let mut pairs: Vec<(Fr, Fr)> = x.into_iter().zip(y).collect();
        pairs.sort();
        pairs
    };
    assert_eq!(side(&s.input_expressions), side(&s.shuffle_expressions));
    assert_eq!(small(&a.advice[0], 5), ints(&[1, 2, 4, 1, 0]));
    assert_eq!(small(&a.fixed[0], 5), ints(&[10, 20, 40, 10, 0]));
    assert_eq!(small(&a.advice[1], 5), ints(&[4, 1, 1, 2, 0]));
    assert_eq!(small(&a.advice[2], 5), ints(&[40, 10, 10, 20, 0]));
}
