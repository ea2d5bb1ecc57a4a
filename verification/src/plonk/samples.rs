//! Sample circuits: the constraints of each, and an assignment of its columns that meets
//! them.

use halo2curves::bn256::Fr;
use vstd::arithmetic::div_mod::*;
use vstd::arithmetic::power2::*;
use vstd::prelude::*;

use crate::field::{
    canonical, canonical_all, fadd, fmul, fneg, fr_add, fr_from_u64, fr_one, fr_square, fr_zero,
    lemma_field_ranges, lemma_modulus_bounds, modulus, val,
};
use crate::plonk::arith::lemma_identities;
use crate::plonk::circuit::{
    columns_wf, elem, expr_value, expr_wf, expr_within, rotated, row_of, Any, ColumnMid, Env,
    ExpressionBack, Limits, Polynomial, QueryBack, Rotation, VarBack,
};
use crate::plonk::evaluation::lagrange_tables;
use crate::plonk::evaluator::{GateBack, LookupArgument, ShuffleArgument};
use crate::powers::two_to;

verus! {

/// The columns of a circuit, row by row.
#[derive(Debug)]
pub struct Assignment {
    pub fixed: Vec<Polynomial>,
    pub advice: Vec<Polynomial>,
}

impl Assignment {
    /// Every column is in reduced form and has `n` rows.
    pub open spec fn wf(&self, n: int) -> bool {
        &&& columns_wf(self.fixed@)
        &&& columns_wf(self.advice@)
        &&& forall|c: int| 0 <= c < self.fixed@.len() ==> (#[trigger] self.fixed@[c]).values@.len() == n
        &&& forall|c: int|
            0 <= c < self.advice@.len() ==> (#[trigger] self.advice@[c]).values@.len() == n
    }

    /// What a row offers to an expression.
    pub open spec fn env(&self, row: int, n: int) -> Env {
        lagrange_tables(self.fixed@, self.advice@, Seq::empty(), Seq::empty()).env(
            row_of(row, 1, n),
            0,
        )
    }

    /// A fixed column at a row.
    pub open spec fn fixed_at(&self, c: int, row: int) -> int {
        val(self.fixed@[c].values@[row])
    }

    /// An advice column at a row.
    pub open spec fn advice_at(&self, c: int, row: int) -> int {
        val(self.advice@[c].values@[row])
    }
}

/// What an assignment is: its columns have `n` reduced values each; its cells are those values;
/// and a row offers them, around the domain, to the expressions.
pub proof fn law_assignment(a: Assignment, n: int, c: int, row: int, rot: int)
    requires
        0 <= row < n,
        0 <= c,
    ensures
        a.wf(n) <==> (forall|p: Polynomial|
            a.fixed@.contains(p) || a.advice@.contains(p) ==> (#[trigger] p.values@).len() == n
                && forall|i: int| 0 <= i < p.values@.len() ==> canonical(#[trigger] p.values@[i])),
        a.fixed_at(c, row) == val(a.fixed@[c].values@[row]),
        a.advice_at(c, row) == val(a.advice@[c].values@[row]),
        a.wf(n) && c < a.fixed@.len() ==> (a.env(row, n).fixed)(c, rot) == val(
            a.fixed@[c].values@[(row + rot) % n],
        ),
        a.wf(n) && c < a.advice@.len() ==> (a.env(row, n).advice)(c, rot) == val(
            a.advice@[c].values@[(row + rot) % n],
        ),
{
    lemma_mod_bound(row + rot, n);
    if a.wf(n) {
        assert forall|p: Polynomial|
            a.fixed@.contains(p) || a.advice@.contains(p) implies (#[trigger] p.values@).len() == n
            && forall|i: int| 0 <= i < p.values@.len() ==> canonical(#[trigger] p.values@[i]) by {
            if a.fixed@.contains(p) {
                let j = choose|j: int| 0 <= j < a.fixed@.len() && a.fixed@[j] == p;
                assert(a.fixed@[j].values@.len() == n);
                assert(canonical_all(a.fixed@[j].values@));
            } else {
                let j = choose|j: int| 0 <= j < a.advice@.len() && a.advice@[j] == p;
                assert(a.advice@[j].values@.len() == n);
                assert(canonical_all(a.advice@[j].values@));
            }
        }
        if c < a.fixed@.len() {
            assert(a.fixed@[c].values@.len() == n);
        }
        if c < a.advice@.len() {
            assert(a.advice@[c].values@.len() == n);
        }
    }
    if forall|p: Polynomial|
        a.fixed@.contains(p) || a.advice@.contains(p) ==> (#[trigger] p.values@).len() == n
            && forall|i: int| 0 <= i < p.values@.len() ==> canonical(#[trigger] p.values@[i]) {
        assert forall|j: int| 0 <= j < a.fixed@.len() implies canonical_all(
            #[trigger] a.fixed@[j].values@,
        ) && a.fixed@[j].values@.len() == n by {
            assert(a.fixed@.contains(a.fixed@[j]));
        }
        assert forall|j: int| 0 <= j < a.advice@.len() implies canonical_all(
            #[trigger] a.advice@[j].values@,
        ) && a.advice@[j].values@.len() == n by {
            assert(a.advice@.contains(a.advice@[j]));
        }
    }
}

/// A column queried at the current row.
fn cur(column_type: Any, index: usize) -> (r: ExpressionBack)
    ensures
        expr_wf(r),
        forall|env: Env| #[trigger]
            expr_value(r, env) == env.column(ColumnMid { index, column_type }, 0),
        forall|lim: Limits| #[trigger]
            expr_within(r, lim) == (lim.allows_column(ColumnMid { index, column_type })
                && lim.allows_rotation(0)),
{
    ExpressionBack::Var(
        VarBack::Query(
            QueryBack {
                index: 0,
                column: ColumnMid { index, column_type },
                rotation: Rotation::cur(),
            },
        ),
    )
}

fn times(a: ExpressionBack, b: ExpressionBack) -> (r: ExpressionBack)
    requires
        expr_wf(a),
        expr_wf(b),
    ensures
        expr_wf(r),
        forall|env: Env| #[trigger]
            expr_value(r, env) == fmul(expr_value(a, env), expr_value(b, env)),
        forall|lim: Limits| #[trigger]
            expr_within(r, lim) == (expr_within(a, lim) && expr_within(b, lim)),
{
    ExpressionBack::Product(Box::new(a), Box::new(b))
}

fn plus(a: ExpressionBack, b: ExpressionBack) -> (r: ExpressionBack)
    requires
        expr_wf(a),
        expr_wf(b),
    ensures
        expr_wf(r),
        forall|env: Env| #[trigger]
            expr_value(r, env) == fadd(expr_value(a, env), expr_value(b, env)),
        forall|lim: Limits| #[trigger]
            expr_within(r, lim) == (expr_within(a, lim) && expr_within(b, lim)),
{
    ExpressionBack::Sum(Box::new(a), Box::new(b))
}

fn minus(a: ExpressionBack, b: ExpressionBack) -> (r: ExpressionBack)
    requires
        expr_wf(a),
        expr_wf(b),
    ensures
        expr_wf(r),
        forall|env: Env| #[trigger]
            expr_value(r, env) == fadd(expr_value(a, env), fneg(expr_value(b, env))),
        forall|lim: Limits| #[trigger]
            expr_within(r, lim) == (expr_within(a, lim) && expr_within(b, lim)),
{
    proof {
        reveal_with_fuel(expr_wf, 3);
        reveal_with_fuel(expr_value, 3);
        reveal_with_fuel(expr_within, 3);
    }
    ExpressionBack::Sum(Box::new(a), Box::new(ExpressionBack::Negated(Box::new(b))))
}

/// A value taken from itself leaves nothing.
proof fn lemma_cancel(x: int)
    requires
        elem(x),
    ensures
        fadd(x, fneg(x)) == 0,
{
    reveal(fadd);
    reveal(fneg);
    lemma_modulus_bounds();
    lemma_add_mod_noop_right(x, -x, modulus());
    lemma_small_mod(0, modulus() as nat);
}

/// A column that holds a value in its first `rows` rows and zero below.
fn constant_column(n: usize, rows: usize, v: &Fr) -> (r: Polynomial)
    requires
        canonical(*v),
    ensures
        canonical_all(r.values@),
        r.values@.len() == n,
        forall|i: int|
            0 <= i < n ==> val(#[trigger] r.values@[i]) == (if i < rows {
                val(*v)
            } else {
                0
            }),
{
    let mut values: Vec<Fr> = Vec::with_capacity(n);
    for i in 0..n
        invariant
            canonical(*v),
            values@.len() == i,
            canonical_all(values@),
            forall|j: int|
                0 <= j < i ==> val(#[trigger] values@[j]) == (if j < rows {
                    val(*v)
                } else {
                    0
                }),
    {
        if i < rows {
            values.push(*v);
        } else {
            values.push(fr_zero());
        }
    }
    Polynomial { values }
}

/// The rows that a circuit fills: all but the last 16.
pub open spec fn usable_rows(n: int) -> int {
    if n < 16 {
        0
    } else {
        n - 16
    }
}

pub(crate) fn usable(n: usize) -> (r: usize)
    ensures
        r == usable_rows(n as int),
{
    if n < 16 {
        0
    } else {
        n - 16
    }
}

/// An expression is met at a row.
pub open spec fn met(e: ExpressionBack, a: Assignment, row: int, n: int) -> bool {
    expr_value(e, a.env(row, n)) == 0
}

/// What the current row's columns are worth to an expression.
proof fn lemma_cells(a: Assignment, row: int, n: int)
    requires
        a.wf(n),
        0 <= row < n,
    ensures
        rotated(row, 0, 1, n) == row,
        forall|c: int|
            0 <= c < a.fixed@.len() ==> (a.env(row, n).fixed)(c, 0) == #[trigger] a.fixed_at(c, row),
        forall|c: int|
            0 <= c < a.advice@.len() ==> (a.env(row, n).advice)(c, 0) == #[trigger] a.advice_at(
                c,
                row,
            ),
        forall|c: int| 0 <= c < a.fixed@.len() ==> elem(#[trigger] a.fixed_at(c, row)),
        forall|c: int| 0 <= c < a.advice@.len() ==> elem(#[trigger] a.advice_at(c, row)),
{
    lemma_small_mod(row as nat, n as nat);
    assert forall|c: int| 0 <= c < a.fixed@.len() implies (a.env(row, n).fixed)(c, 0)
        == #[trigger] a.fixed_at(c, row) && elem(a.fixed_at(c, row)) by {
        assert(a.fixed@[c].values@.len() == n);
        assert(canonical_all(a.fixed@[c].values@));
        assert(canonical(a.fixed@[c].values@[row]));
    }
    assert forall|c: int| 0 <= c < a.advice@.len() implies (a.env(row, n).advice)(c, 0)
        == #[trigger] a.advice_at(c, row) && elem(a.advice_at(c, row)) by {
        assert(a.advice@[c].values@.len() == n);
        assert(canonical_all(a.advice@[c].values@));
        assert(canonical(a.advice@[c].values@[row]));
    }
}

/// The multiplication gate `q * (a * b - c)`.
pub open spec fn mul_gate_value(env: Env) -> int {
    fmul(
        (env.fixed)(0, 0),
        fadd(fmul((env.advice)(0, 0), (env.advice)(1, 0)), fneg((env.advice)(2, 0))),
    )
}

/// The multiplication gate circuit's one gate.
pub fn mul_gate() -> (r: GateBack)
    ensures
        expr_wf(r.poly),
        forall|env: Env| #[trigger] expr_value(r.poly, env) == mul_gate_value(env),
{
    let a = cur(Any::Advice, 0);
    let b = cur(Any::Advice, 1);
    let c = cur(Any::Advice, 2);
    let q = cur(Any::Fixed, 0);
    GateBack { poly: times(q, minus(times(a, b), c)) }
}

/// The multiplication gate circuit's columns: `2 * 3 = 6` in every usable row.
pub fn mul_rows(k: usize) -> (r: Assignment)
    requires
        pow2(k as nat) <= usize::MAX,
    ensures
        r.wf(pow2(k as nat) as int),
        r.fixed@.len() == 1,
        r.advice@.len() == 3,
        forall|row: int| #![trigger r.fixed_at(0, row)]
            0 <= row < pow2(k as nat) ==> {
                let on = row < usable_rows(pow2(k as nat) as int);
                &&& r.fixed_at(0, row) == (if on { 1int } else { 0 })
                &&& r.advice_at(0, row) == (if on { 2int } else { 0 })
                &&& r.advice_at(1, row) == (if on { 3int } else { 0 })
                &&& r.advice_at(2, row) == (if on { 6int } else { 0 })
            },
{
    let n = two_to(k);
    let rows = usable(n);
    let mut fixed: Vec<Polynomial> = Vec::new();
    fixed.push(constant_column(n, rows, &fr_one()));
    let mut advice: Vec<Polynomial> = Vec::new();
    advice.push(constant_column(n, rows, &fr_from_u64(2)));
    advice.push(constant_column(n, rows, &fr_from_u64(3)));
    advice.push(constant_column(n, rows, &fr_from_u64(6)));
    Assignment { fixed, advice }
}

/// The multiplication gate is met at every row.
pub proof fn law_mul_rows_meet_gate(a: Assignment, gate: GateBack, n: int, row: int)
    requires
        a.wf(n),
        a.fixed@.len() == 1,
        a.advice@.len() == 3,
        0 <= row < n,
        expr_value(gate.poly, a.env(row, n)) == mul_gate_value(a.env(row, n)),
        a.fixed_at(0, row) == 0 || (a.advice_at(0, row) == 2 && a.advice_at(1, row) == 3
            && a.advice_at(2, row) == 6),
    ensures
        met(gate.poly, a, row, n),
        expr_value(gate.poly, a.env(row, n)) == 0,
{
    lemma_cells(a, row, n);
    let q = a.fixed_at(0, row);
    let (x, y, z) = (a.advice_at(0, row), a.advice_at(1, row), a.advice_at(2, row));
    let d = fadd(fmul(x, y), fneg(z));
    lemma_field_ranges();
    lemma_modulus_bounds();
    lemma_identities(q, d);
    lemma_identities(d, q);
    if q != 0 {
        assert(fmul(2, 3) == 6) by {
            reveal(fmul);
            reveal(modulus);
        }
        lemma_cancel(6);
        lemma_identities(q, 0);
    }
}

/// The combined gate `a * sa + b * sb + a * b * sm - c * sc` of the add-multiply chain, its
/// fixed columns in the order `sm, sa, sb, sc`.
pub open spec fn chain_gate_value(env: Env) -> int {
    let (a, b, c) = ((env.advice)(0, 0), (env.advice)(1, 0), (env.advice)(2, 0));
    let (sm, sa) = ((env.fixed)(0, 0), (env.fixed)(1, 0));
    let (sb, sc) = ((env.fixed)(2, 0), (env.fixed)(3, 0));
    fadd(
        fadd(fadd(fmul(a, sa), fmul(b, sb)), fmul(fmul(a, b), sm)),
        fneg(fmul(c, sc)),
    )
}

/// The add-multiply chain's one gate.
pub fn chain_gate() -> (r: GateBack)
    ensures
        expr_wf(r.poly),
        forall|env: Env| #[trigger] expr_value(r.poly, env) == chain_gate_value(env),
{
    let sums = plus(
        times(cur(Any::Advice, 0), cur(Any::Fixed, 1)),
        times(cur(Any::Advice, 1), cur(Any::Fixed, 2)),
    );
    let product = times(times(cur(Any::Advice, 0), cur(Any::Advice, 1)), cur(Any::Fixed, 0));
    let out = times(cur(Any::Advice, 2), cur(Any::Fixed, 3));
    GateBack { poly: minus(plus(sums, product), out) }
}

/// A cell of an advice column.
#[derive(Clone, Copy, Debug, PartialEq, Eq, Structural)]
pub struct Cell {
    pub column: usize,
    pub row: usize,
}

/// The links of the chain that fit in `2^k` rows: two rows each, six rows left free.
pub open spec fn chain_links(k: int) -> int {
    if k < 3 {
        0
    } else {
        pow2((k - 1) as nat) - 3
    }
}

/// One row of the chain: a multiplication `a * a = a^2` in even rows, an addition
/// `a + a^2` in odd ones, nothing past the last link.
pub open spec fn chain_row(x: int, row: int, links: int) -> (int, int, int, int, int, int, int) {
    let square = fmul(x, x);
    if row >= 2 * links {
        (0, 0, 0, 0, 0, 0, 0)
    } else if row % 2 == 0 {
        (x, x, square, 1, 0, 0, 1)
    } else {
        (x, square, fadd(square, x), 0, 1, 1, 1)
    }
}

/// A column of the chain: one value in even rows, one in odd rows, zero past the last link.
fn chain_column(n: usize, rows: usize, even: &Fr, odd: &Fr) -> (r: Polynomial)
    requires
        canonical(*even),
        canonical(*odd),
    ensures
        canonical_all(r.values@),
        r.values@.len() == n,
        forall|i: int|
            0 <= i < n ==> val(#[trigger] r.values@[i]) == (if i >= rows {
                0
            } else if i % 2 == 0 {
                val(*even)
            } else {
                val(*odd)
            }),
{
    let mut values: Vec<Fr> = Vec::with_capacity(n);
    for i in 0..n
        invariant
            canonical(*even),
            canonical(*odd),
            values@.len() == i,
            canonical_all(values@),
            forall|j: int|
                0 <= j < i ==> val(#[trigger] values@[j]) == (if j >= rows {
                    0
                } else if j % 2 == 0 {
                    val(*even)
                } else {
                    val(*odd)
                }),
    {
        if i >= rows {
            values.push(fr_zero());
        } else if i % 2 == 0 {
            values.push(*even);
        } else {
            values.push(*odd);
        }
    }
    Polynomial { values }
}

/// The add-multiply chain's columns for a value `a`, and the pairs of cells that are copies of
/// each other: in each link, the first operands, and the product and the second summand.
pub fn chain_rows(a: &Fr, k: usize) -> (r: (Assignment, Vec<(Cell, Cell)>))
    requires
        canonical(*a),
        0 < k,
        pow2(k as nat) <= usize::MAX,
    ensures
        r.0.wf(pow2(k as nat) as int),
        r.0.fixed@.len() == 4,
        r.0.advice@.len() == 3,
        forall|row: int| #![trigger r.0.fixed_at(0, row)]
            0 <= row < pow2(k as nat) ==> (
                r.0.advice_at(0, row),
                r.0.advice_at(1, row),
                r.0.advice_at(2, row),
                r.0.fixed_at(0, row),
                r.0.fixed_at(1, row),
                r.0.fixed_at(2, row),
                r.0.fixed_at(3, row),
            ) == chain_row(val(*a), row, chain_links(k as int)),
        r.1@.len() == 2 * chain_links(k as int),
        forall|i: int| #![trigger r.1@[2 * i]]
            0 <= i < chain_links(k as int) ==> r.1@[2 * i] == (
                Cell { column: 0, row: (2 * i) as usize },
                Cell { column: 0, row: (2 * i + 1) as usize },
            ),
        forall|i: int| #![trigger r.1@[2 * i + 1]]
            0 <= i < chain_links(k as int) ==> r.1@[2 * i + 1] == (
                Cell { column: 1, row: (2 * i + 1) as usize },
                Cell { column: 2, row: (2 * i) as usize },
            ),
{
    let n = two_to(k);
    let links: usize = if k < 3 {
        0
    } else {
        proof {
            lemma_pow2_strictly_increases((k - 1) as nat, k as nat);
            lemma2_to64();
            if k > 3 {
                lemma_pow2_strictly_increases(2, (k - 1) as nat);
            }
        }
        two_to(k - 1) - 3
    };
    proof {
        if k >= 3 {
            lemma_pow2_unfold(k as nat);
        }
        lemma_pow2_pos(k as nat);
    }
    let rows: usize = 2 * links;
    let zero = fr_zero();
    let one = fr_one();
    let square = fr_square(a);
    let out = fr_add(&square, a);
    let mut advice: Vec<Polynomial> = Vec::new();
    advice.push(chain_column(n, rows, a, a));
    advice.push(chain_column(n, rows, a, &square));
    advice.push(chain_column(n, rows, &square, &out));
    let mut fixed: Vec<Polynomial> = Vec::new();
    fixed.push(chain_column(n, rows, &one, &zero));
    fixed.push(chain_column(n, rows, &zero, &one));
    fixed.push(chain_column(n, rows, &zero, &one));
    fixed.push(chain_column(n, rows, &one, &one));
    let mut copies: Vec<(Cell, Cell)> = Vec::new();
    for i in 0..links
        invariant
            2 * links <= n,
            copies@.len() == 2 * i,
            forall|j: int| #![trigger copies@[2 * j]]
                0 <= j < i ==> copies@[2 * j] == (
                    Cell { column: 0, row: (2 * j) as usize },
                    Cell { column: 0, row: (2 * j + 1) as usize },
                ),
            forall|j: int| #![trigger copies@[2 * j + 1]]
                0 <= j < i ==> copies@[2 * j + 1] == (
                    Cell { column: 1, row: (2 * j + 1) as usize },
                    Cell { column: 2, row: (2 * j) as usize },
                ),
    {
        copies.push((Cell { column: 0, row: 2 * i }, Cell { column: 0, row: 2 * i + 1 }));
        copies.push((Cell { column: 1, row: 2 * i + 1 }, Cell { column: 2, row: 2 * i }));
    }
    (Assignment { fixed, advice }, copies)
}

/// The combined gate is met by every row of a chain.
pub proof fn law_chain_meets_gate(
    a: Assignment,
    gate: GateBack,
    x: int,
    links: int,
    n: int,
    row: int,
)
    requires
        elem(x),
        a.wf(n),
        a.fixed@.len() == 4,
        a.advice@.len() == 3,
        0 <= row < n,
        expr_value(gate.poly, a.env(row, n)) == chain_gate_value(a.env(row, n)),
        (
            a.advice_at(0, row),
            a.advice_at(1, row),
            a.advice_at(2, row),
            a.fixed_at(0, row),
            a.fixed_at(1, row),
            a.fixed_at(2, row),
            a.fixed_at(3, row),
        ) == chain_row(x, row, links),
    ensures
        met(gate.poly, a, row, n),
        expr_value(gate.poly, a.env(row, n)) == 0,
{
    lemma_cells(a, row, n);
    lemma_field_ranges();
    lemma_modulus_bounds();
    let square = fmul(x, x);
    let both = fadd(square, x);
    let cube = fmul(x, square);
    lemma_identities(x, square);
    lemma_identities(square, both);
    lemma_identities(both, cube);
    lemma_identities(cube, 0);
    lemma_identities(0, 0);
    lemma_cancel(square);
    lemma_cancel(both);
}

/// The cells that are copies of each other hold the same value.
pub proof fn law_chain_copies_agree(x: int, links: int, i: int)
    requires
        0 <= i < links,
    ensures
        chain_row(x, 2 * i, links).0 == chain_row(x, 2 * i + 1, links).0,
        chain_row(x, 2 * i + 1, links).1 == chain_row(x, 2 * i, links).2,
{
}

/// The sum of the first `n` advice columns at the current row.
pub open spec fn advice_sum(env: Env, n: nat) -> int
    decreases n,
{
    if n <= 1 {
        (env.advice)(0, 0)
    } else {
        fadd(advice_sum(env, (n - 1) as nat), (env.advice)(n - 1, 0))
    }
}

/// The wide gate `q * (a_0 + ... + a_{cols - 2} - a_{cols - 1})`.
pub open spec fn wide_gate_value(env: Env, cols: nat) -> int {
    fmul(
        (env.fixed)(0, 0),
        fadd(advice_sum(env, (cols - 1) as nat), fneg((env.advice)(cols - 1, 0))),
    )
}

/// The wide circuit's one gate: the last column is the sum of the others.
pub fn wide_gate(cols: usize) -> (r: GateBack)
    requires
        cols >= 2,
    ensures
        expr_wf(r.poly),
        forall|env: Env| #[trigger] expr_value(r.poly, env) == wide_gate_value(env, cols as nat),
        forall|lim: Limits|
            1 <= lim.fixed && cols <= lim.advice && 0 <= lim.rotation ==> #[trigger] expr_within(
                r.poly,
                lim,
            ),
{
    let mut total = cur(Any::Advice, 0);
    for j in 1..cols - 1
        invariant
            cols >= 2,
            expr_wf(total),
            forall|env: Env| #[trigger] expr_value(total, env) == advice_sum(env, j as nat),
            forall|lim: Limits|
                cols <= lim.advice && 0 <= lim.rotation ==> #[trigger] expr_within(total, lim),
    {
        total = plus(total, cur(Any::Advice, j));
    }
    GateBack { poly: times(cur(Any::Fixed, 0), minus(total, cur(Any::Advice, cols - 1))) }
}

/// The value of column `j` at a row of the wide circuit, and the sum of the first `n`.
pub open spec fn wide_cell(row: int, j: int) -> int {
    row + j + 1
}

pub open spec fn wide_sum(row: int, n: nat) -> int
    decreases n,
{
    if n == 0 {
        0
    } else {
        fadd(wide_sum(row, (n - 1) as nat), wide_cell(row, n - 1))
    }
}

/// Column `j` of the wide circuit: `row + j + 1` in usable rows.
fn wide_column(n: usize, rows: usize, j: usize) -> (r: Polynomial)
    requires
        rows <= n,
        n + j <= usize::MAX,
        n + j <= u64::MAX,
    ensures
        canonical_all(r.values@),
        r.values@.len() == n,
        forall|i: int|
            0 <= i < n ==> val(#[trigger] r.values@[i]) == (if i < rows {
                wide_cell(i, j as int)
            } else {
                0
            }),
{
    let mut values: Vec<Fr> = Vec::with_capacity(n);
    for i in 0..n
        invariant
            rows <= n,
            n + j <= usize::MAX,
            n + j <= u64::MAX,
            values@.len() == i,
            canonical_all(values@),
            forall|q: int|
                0 <= q < i ==> val(#[trigger] values@[q]) == (if q < rows {
                    wide_cell(q, j as int)
                } else {
                    0
                }),
    {
        if i < rows {
            values.push(fr_from_u64((i + j + 1) as u64));
        } else {
            values.push(fr_zero());
        }
    }
    Polynomial { values }
}

/// The wide circuit's last column: the sum of the others, row by row.
fn wide_total(columns: &Vec<Polynomial>, n: usize, rows: usize) -> (r: Polynomial)
    requires
        rows <= n,
        columns_wf(columns@),
        forall|j: int|
            0 <= j < columns@.len() ==> (#[trigger] columns@[j]).values@.len() == n,
        forall|j: int, i: int| #![trigger columns@[j].values@[i]]
            0 <= j < columns@.len() && 0 <= i < n ==> val(columns@[j].values@[i]) == (if i < rows {
                wide_cell(i, j)
            } else {
                0
            }),
    ensures
        canonical_all(r.values@),
        r.values@.len() == n,
        forall|i: int|
            0 <= i < n ==> val(#[trigger] r.values@[i]) == (if i < rows {
                wide_sum(i, columns@.len())
            } else {
                0
            }),
{
    let mut values: Vec<Fr> = Vec::with_capacity(n);
    for i in 0..n
        invariant
            rows <= n,
            columns_wf(columns@),
            forall|j: int|
                0 <= j < columns@.len() ==> (#[trigger] columns@[j]).values@.len() == n,
            forall|j: int, i: int| #![trigger columns@[j].values@[i]]
                0 <= j < columns@.len() && 0 <= i < n ==> val(columns@[j].values@[i]) == (if i
                    < rows {
                    wide_cell(i, j)
                } else {
                    0
                }),
            values@.len() == i,
            canonical_all(values@),
            forall|q: int|
                0 <= q < i ==> val(#[trigger] values@[q]) == (if q < rows {
                    wide_sum(q, columns@.len())
                } else {
                    0
                }),
    {
        let mut total = fr_zero();
        if i < rows {
            for j in 0..columns.len()
                invariant
                    i < rows <= n,
                    columns_wf(columns@),
                    forall|j: int|
                        0 <= j < columns@.len() ==> (#[trigger] columns@[j]).values@.len() == n,
                    forall|j: int, i: int| #![trigger columns@[j].values@[i]]
                        0 <= j < columns@.len() && 0 <= i < n ==> val(columns@[j].values@[i]) == (
                        if i < rows {
                            wide_cell(i, j)
                        } else {
                            0
                        }),
                    canonical(total),
                    val(total) == wide_sum(i as int, j as nat),
            {
                assert(canonical_all(columns@[j as int].values@));
                assert(canonical(columns@[j as int].values@[i as int]));
                total = fr_add(&total, &columns[j].values[i]);
            }
        }
        values.push(total);
    }
    Polynomial { values }
}

/// The wide circuit's columns: in every usable row, `row + 1, row + 2, ...` and their sum.
pub fn wide_rows(k: usize, cols: usize) -> (r: Assignment)
    requires
        cols >= 2,
        pow2(k as nat) + cols <= usize::MAX,
        pow2(k as nat) + cols <= u64::MAX,
    ensures
        r.wf(pow2(k as nat) as int),
        r.fixed@.len() == 1,
        r.advice@.len() == cols,
        forall|row: int| #![trigger r.fixed_at(0, row)]
            0 <= row < pow2(k as nat) ==> r.fixed_at(0, row) == (if row < usable_rows(
                pow2(k as nat) as int,
            ) {
                1int
            } else {
                0
            }),
        forall|j: int, row: int| #![trigger r.advice_at(j, row)]
            0 <= row < pow2(k as nat) && 0 <= j < cols - 1 ==> r.advice_at(j, row) == (if row
                < usable_rows(pow2(k as nat) as int) {
                wide_cell(row, j)
            } else {
                0
            }),
        forall|row: int| #![trigger r.advice_at(cols - 1, row)]
            0 <= row < pow2(k as nat) ==> r.advice_at(cols - 1, row) == (if row < usable_rows(
                pow2(k as nat) as int,
            ) {
                wide_sum(row, (cols - 1) as nat)
            } else {
                0
            }),
{
    let n = two_to(k);
    let rows = usable(n);
    let mut fixed: Vec<Polynomial> = Vec::new();
    fixed.push(constant_column(n, rows, &fr_one()));
    let mut advice: Vec<Polynomial> = Vec::new();
    for j in 0..cols - 1
        invariant
            cols >= 2,
            n + cols <= usize::MAX,
            n + cols <= u64::MAX,
            rows <= n,
            advice@.len() == j,
            columns_wf(advice@),
            forall|c: int| 0 <= c < j ==> (#[trigger] advice@[c]).values@.len() == n,
            forall|c: int, i: int| #![trigger advice@[c].values@[i]]
                0 <= c < j && 0 <= i < n ==> val(advice@[c].values@[i]) == (if i < rows {
                    wide_cell(i, c)
                } else {
                    0
                }),
    {
        let ghost before = advice@;
        let column = wide_column(n, rows, j);
        advice.push(column);
        proof {
            assert forall|c: int| 0 <= c < advice@.len() implies canonical_all(
                #[trigger] advice@[c].values@,
            ) by {
                if c < j {
                    assert(canonical_all(before[c].values@));
                }
            }
        }
    }
    let ghost before = advice@;
    let total = wide_total(&advice, n, rows);
    advice.push(total);
    proof {
        assert forall|c: int| 0 <= c < advice@.len() implies canonical_all(
            #[trigger] advice@[c].values@,
        ) by {
            if c < before.len() {
                assert(canonical_all(before[c].values@));
            }
        }
    }
    Assignment { fixed, advice }
}

/// The columns of a row sum to what the row holds as their sum.
proof fn lemma_wide_sums(a: Assignment, n: int, row: int, cols: nat)
    requires
        a.wf(n),
        0 <= row < n,
        1 <= cols <= a.advice@.len(),
        row + cols < modulus(),
        forall|j: int| #![trigger a.advice_at(j, row)]
            0 <= j < cols ==> a.advice_at(j, row) == wide_cell(row, j),
    ensures
        advice_sum(a.env(row, n), cols) == wide_sum(row, cols),
    decreases cols,
{
    lemma_cells(a, row, n);
    lemma_modulus_bounds();
    if cols == 1 {
        assert(a.advice_at(0, row) == wide_cell(row, 0));
        lemma_identities(wide_cell(row, 0), 0);
        assert(wide_sum(row, 0) == 0);
        assert(wide_sum(row, 1) == fadd(0, wide_cell(row, 0)));
    } else {
        lemma_wide_sums(a, n, row, (cols - 1) as nat);
        assert(a.advice_at(cols - 1, row) == wide_cell(row, cols - 1));
    }
}

/// The wide gate is met by every row.
pub proof fn law_wide_rows_meet_gate(a: Assignment, gate: GateBack, n: int, row: int, cols: nat)
    requires
        cols >= 2,
        a.wf(n),
        a.fixed@.len() == 1,
        a.advice@.len() == cols,
        0 <= row < n,
        row + cols < modulus(),
        expr_value(gate.poly, a.env(row, n)) == wide_gate_value(a.env(row, n), cols),
        a.fixed_at(0, row) == 0 || {
            &&& forall|j: int| #![trigger a.advice_at(j, row)]
                0 <= j < cols - 1 ==> a.advice_at(j, row) == wide_cell(row, j)
            &&& a.advice_at(cols - 1, row) == wide_sum(row, (cols - 1) as nat)
        },
    ensures
        met(gate.poly, a, row, n),
        expr_value(gate.poly, a.env(row, n)) == 0,
{
    lemma_cells(a, row, n);
    lemma_field_ranges();
    lemma_modulus_bounds();
    let env = a.env(row, n);
    let d = fadd(advice_sum(env, (cols - 1) as nat), fneg((env.advice)(cols - 1, 0)));
    let q = a.fixed_at(0, row);
    lemma_identities(q, d);
    lemma_identities(d, q);
    if q != 0 {
        lemma_wide_sums(a, n, row, (cols - 1) as nat);
        assert(elem(a.advice_at(cols - 1, row)));
        lemma_cancel(wide_sum(row, (cols - 1) as nat));
        lemma_identities(q, 0);
    }
}

/// The number of table entries of the lookup circuit: at most 256, at least 4, and 32 fewer
/// than there are rows in between.
pub open spec fn table_len(n: int) -> int {
    if n < 36 {
        4
    } else if n < 288 {
        n - 32
    } else {
        256
    }
}

/// The lookup circuit's one lookup: the selected advice value is in the table.
pub fn lookup_argument() -> (r: LookupArgument)
    ensures
        r.input_expressions@.len() == 1,
        r.table_expressions@.len() == 1,
        expr_wf(r.input_expressions@[0]),
        expr_wf(r.table_expressions@[0]),
        forall|env: Env| #[trigger]
            expr_value(r.input_expressions@[0], env) == fmul(
                (env.fixed)(1, 0),
                (env.advice)(0, 0),
            ),
        forall|env: Env| #[trigger]
            expr_value(r.table_expressions@[0], env) == (env.fixed)(0, 0),
{
    let mut input_expressions: Vec<ExpressionBack> = Vec::new();
    input_expressions.push(times(cur(Any::Fixed, 1), cur(Any::Advice, 0)));
    let mut table_expressions: Vec<ExpressionBack> = Vec::new();
    table_expressions.push(cur(Any::Fixed, 0));
    LookupArgument { input_expressions, table_expressions }
}

/// The lookup circuit's columns: the table `0, 1, ...` and the selector, both fixed, and the
/// values `row mod t` in usable rows.
pub fn lookup_rows(k: usize) -> (r: Assignment)
    requires
        2 <= k,
        pow2(k as nat) <= usize::MAX,
    ensures
        r.wf(pow2(k as nat) as int),
        r.fixed@.len() == 2,
        r.advice@.len() == 1,
        forall|row: int| #![trigger r.fixed_at(0, row)]
            0 <= row < pow2(k as nat) ==> {
                let n = pow2(k as nat) as int;
                let on = row < usable_rows(n);
                &&& r.fixed_at(0, row) == (if row < table_len(n) { row } else { 0 })
                &&& r.fixed_at(1, row) == (if on { 1int } else { 0 })
                &&& r.advice_at(0, row) == (if on { row % table_len(n) } else { 0 })
            },
{
    let n = two_to(k);
    proof {
        lemma2_to64();
        if k > 2 {
            lemma_pow2_strictly_increases(2, k as nat);
        }
    }
    let t: usize = if n < 36 {
        4
    } else if n < 288 {
        n - 32
    } else {
        256
    };
    let rows = usable(n);
    let mut table: Vec<Fr> = Vec::with_capacity(n);
    let mut values: Vec<Fr> = Vec::with_capacity(n);
    for i in 0..n
        invariant
            0 < t <= 256,
            table@.len() == i,
            values@.len() == i,
            canonical_all(table@),
            canonical_all(values@),
            forall|q: int|
                0 <= q < i ==> val(#[trigger] table@[q]) == (if q < t {
                    q
                } else {
                    0
                }),
            forall|q: int|
                0 <= q < i ==> val(#[trigger] values@[q]) == (if q < rows {
                    q % t as int
                } else {
                    0
                }),
    {
        if i < t {
            table.push(fr_from_u64(i as u64));
        } else {
            table.push(fr_zero());
        }
        if i < rows {
            values.push(fr_from_u64((i % t) as u64));
        } else {
            values.push(fr_zero());
        }
    }
    let mut fixed: Vec<Polynomial> = Vec::new();
    fixed.push(Polynomial { values: table });
    fixed.push(constant_column(n, rows, &fr_one()));
    let mut advice: Vec<Polynomial> = Vec::new();
    advice.push(Polynomial { values });
    Assignment { fixed, advice }
}

/// Every row's input is in the table: row `at` of the table holds it.
pub proof fn law_lookup_rows_are_in_table(a: Assignment, n: int, row: int)
    requires
        a.wf(n),
        a.fixed@.len() == 2,
        a.advice@.len() == 1,
        4 <= n,
        0 <= row < n,
        forall|r: int| #![trigger a.fixed_at(0, r)]
            0 <= r < n ==> {
                let on = r < usable_rows(n);
                &&& a.fixed_at(0, r) == (if r < table_len(n) { r } else { 0 })
                &&& a.fixed_at(1, r) == (if on { 1int } else { 0 })
                &&& a.advice_at(0, r) == (if on { r % table_len(n) } else { 0 })
            },
    ensures
        exists|at: int|
            0 <= at < table_len(n) && #[trigger] a.fixed_at(0, at) == fmul(
                a.fixed_at(1, row),
                a.advice_at(0, row),
            ),
{
    let v = a.advice_at(0, row);
    lemma_cells(a, row, n);
    lemma_modulus_bounds();
    assert(a.fixed_at(0, row) >= 0);
    assert(elem(v));
    lemma_identities(v, 0);
    lemma_identities(v, 1);
    lemma_mod_bound(row, table_len(n));
    assert(a.fixed_at(0, v) == v);
    assert(a.fixed_at(0, 0) == 0);
}

/// The shuffle circuit's one shuffle: the selected pairs of one side are those of the other.
pub fn shuffle_argument() -> (r: ShuffleArgument)
    ensures
        r.input_expressions@.len() == 2,
        r.shuffle_expressions@.len() == 2,
        forall|i: int|
            0 <= i < 2 ==> expr_wf(#[trigger] r.input_expressions@[i]) && expr_wf(
                r.shuffle_expressions@[i],
            ),
        forall|env: Env| #[trigger]
            expr_value(r.input_expressions@[0], env) == fmul(
                (env.fixed)(1, 0),
                (env.advice)(0, 0),
            ),
        forall|env: Env| #[trigger]
            expr_value(r.input_expressions@[1], env) == fmul(
                (env.fixed)(1, 0),
                (env.fixed)(0, 0),
            ),
        forall|env: Env| #[trigger]
            expr_value(r.shuffle_expressions@[0], env) == fmul(
                (env.fixed)(2, 0),
                (env.advice)(1, 0),
            ),
        forall|env: Env| #[trigger]
            expr_value(r.shuffle_expressions@[1], env) == fmul(
                (env.fixed)(2, 0),
                (env.advice)(2, 0),
            ),
{
    let mut input_expressions: Vec<ExpressionBack> = Vec::new();
    input_expressions.push(times(cur(Any::Fixed, 1), cur(Any::Advice, 0)));
    input_expressions.push(times(cur(Any::Fixed, 1), cur(Any::Fixed, 0)));
    let mut shuffle_expressions: Vec<ExpressionBack> = Vec::new();
    shuffle_expressions.push(times(cur(Any::Fixed, 2), cur(Any::Advice, 1)));
    shuffle_expressions.push(times(cur(Any::Fixed, 2), cur(Any::Advice, 2)));
    ShuffleArgument { input_expressions, shuffle_expressions }
}

/// The pairs of the shuffle circuit, and the order in which the other side holds them.
pub open spec fn shuffle_pairs() -> Seq<(int, int)> {
    seq![(1int, 10int), (2, 20), (4, 40), (1, 10)]
}

pub open spec fn shuffled_pairs() -> Seq<(int, int)> {
    seq![(4int, 40int), (1, 10), (1, 10), (2, 20)]
}

/// A column that starts with four given values and holds zeros below.
fn short_column(n: usize, head: [u64; 4]) -> (r: Polynomial)
    requires
        4 <= n,
    ensures
        canonical_all(r.values@),
        r.values@.len() == n,
        forall|i: int|
            0 <= i < n ==> val(#[trigger] r.values@[i]) == (if i < 4 {
                head@[i] as int
            } else {
                0
            }),
{
    let mut values: Vec<Fr> = Vec::with_capacity(n);
    for i in 0..n
        invariant
            values@.len() == i,
            canonical_all(values@),
            forall|q: int|
                0 <= q < i ==> val(#[trigger] values@[q]) == (if q < 4 {
                    head@[q] as int
                } else {
                    0
                }),
    {
        if i < 4 {
            values.push(fr_from_u64(head[i]));
        } else {
            values.push(fr_zero());
        }
    }
    Polynomial { values }
}

/// The shuffle circuit's columns: four pairs on one side, the same four in another order on
/// the other, selected in the first four rows.
pub fn shuffle_rows(k: usize) -> (r: Assignment)
    requires
        2 <= k,
        pow2(k as nat) <= usize::MAX,
    ensures
        r.wf(pow2(k as nat) as int),
        r.fixed@.len() == 3,
        r.advice@.len() == 3,
        forall|row: int| #![trigger r.fixed_at(1, row)]
            0 <= row < 4 ==> {
                &&& (r.advice_at(0, row), r.fixed_at(0, row)) == shuffle_pairs()[row]
                &&& (r.advice_at(1, row), r.advice_at(2, row)) == shuffled_pairs()[row]
                &&& r.fixed_at(1, row) == 1
                &&& r.fixed_at(2, row) == 1
            },
        forall|row: int| #![trigger r.fixed_at(1, row)]
            4 <= row < pow2(k as nat) ==> {
                &&& r.advice_at(0, row) == 0
                &&& r.advice_at(1, row) == 0
                &&& r.advice_at(2, row) == 0
                &&& r.fixed_at(0, row) == 0
                &&& r.fixed_at(1, row) == 0
                &&& r.fixed_at(2, row) == 0
            },
        Seq::new(4, |row: int| (r.advice_at(0, row), r.fixed_at(0, row))).to_multiset() == Seq::new(
            4,
            |row: int| (r.advice_at(1, row), r.advice_at(2, row)),
        ).to_multiset(),
{
    let n = two_to(k);
    proof {
        lemma2_to64();
        if k > 2 {
            lemma_pow2_strictly_increases(2, k as nat);
        }
    }
    let mut fixed: Vec<Polynomial> = Vec::new();
    fixed.push(short_column(n, [10, 20, 40, 10]));
    fixed.push(short_column(n, [1, 1, 1, 1]));
    fixed.push(short_column(n, [1, 1, 1, 1]));
    let mut advice: Vec<Polynomial> = Vec::new();
    advice.push(short_column(n, [1, 2, 4, 1]));
    advice.push(short_column(n, [4, 1, 1, 2]));
    advice.push(short_column(n, [40, 10, 10, 20]));
    let r = Assignment { fixed, advice };
    proof {
        lemma_shuffle_sides_agree();
        assert(Seq::new(4, |row: int| (r.advice_at(0, row), r.fixed_at(0, row)))
            =~= shuffle_pairs());
        assert(Seq::new(4, |row: int| (r.advice_at(1, row), r.advice_at(2, row)))
            =~= shuffled_pairs());
    }
    r
}

/// The two sides of the shuffle hold the same pairs, each as often.
proof fn lemma_shuffle_sides_agree()
    ensures
        shuffle_pairs().to_multiset() == shuffled_pairs().to_multiset(),
{
    broadcast use vstd::seq_lib::group_to_multiset_ensures;

    let one = (1int, 10int);
    let two = (2int, 20int);
    let four = (4int, 40int);
    let e = Seq::<(int, int)>::empty();
    assert(shuffle_pairs() =~= e.push(one).push(two).push(four).push(one));
    assert(shuffled_pairs() =~= e.push(four).push(one).push(one).push(two));
    assert(shuffle_pairs().to_multiset() =~= shuffled_pairs().to_multiset());
}

} // verus!
