//! Constraint systems: columns, queries, expressions and the arguments built on them.

use halo2curves::bn256::Fr;
use vstd::prelude::*;

use crate::field::{
    canonical, canonical_all, fadd, fmul, fneg, lemma_field_ranges, modulus, val, vals,
};

verus! {

/// The kind of a column.
#[derive(Clone, Copy, Debug, PartialEq, Eq, Structural)]
pub enum Any {
    Advice,
    Fixed,
    Instance,
}

/// A column: its kind, and its index among the columns of that kind.
#[derive(Clone, Copy, Debug, PartialEq, Eq, Structural)]
pub struct ColumnMid {
    pub index: usize,
    pub column_type: Any,
}

/// A rotation: a number of rows forward (or back) in the domain.
#[derive(Clone, Copy, Debug, PartialEq, Eq, Structural)]
pub struct Rotation(pub i32);

impl Rotation {
    /// The current row.
    pub fn cur() -> (r: Rotation)
        ensures
            r.0 == 0,
    {
        Rotation(0)
    }

    /// The previous row.
    pub fn prev() -> (r: Rotation)
        ensures
            r.0 == -1,
    {
        Rotation(-1)
    }

    /// The next row.
    pub fn next() -> (r: Rotation)
        ensures
            r.0 == 1,
    {
        Rotation(1)
    }
}

/// A query of a column at a rotation.
#[derive(Clone, Copy, Debug, PartialEq, Eq, Structural)]
pub struct QueryBack {
    pub index: usize,
    pub column: ColumnMid,
    pub rotation: Rotation,
}

/// A challenge drawn by the verifier.
#[derive(Clone, Copy, Debug, PartialEq, Eq, Structural)]
pub struct ChallengeMid {
    pub index: usize,
    pub phase: u8,
}

/// A variable of an expression.
#[derive(Clone, Copy, Debug, PartialEq, Eq, Structural)]
pub enum VarBack {
    Query(QueryBack),
    Challenge(ChallengeMid),
}

/// A polynomial expression over column queries and challenges. A difference is written as a
/// sum with a negation.
#[derive(Debug)]
pub enum ExpressionBack {
    Constant(Fr),
    Var(VarBack),
    Negated(Box<ExpressionBack>),
    Sum(Box<ExpressionBack>, Box<ExpressionBack>),
    Product(Box<ExpressionBack>, Box<ExpressionBack>),
}

/// What one row of the circuit offers to an expression: each column at each rotation, and
/// the values that are the same for every row.
pub ghost struct Env {
    pub fixed: spec_fn(int, int) -> int,
    pub advice: spec_fn(int, int) -> int,
    pub instance: spec_fn(int, int) -> int,
    pub challenges: spec_fn(int) -> int,
    pub beta: int,
    pub gamma: int,
    pub theta: int,
    pub y: int,
    pub previous: int,
}

/// An integer of the field.
pub open spec fn elem(x: int) -> bool {
    0 <= x < modulus()
}

impl Env {
    /// Every value is an integer of the field.
    pub open spec fn wf(&self) -> bool {
        &&& forall|c: int, r: int| elem(#[trigger] (self.fixed)(c, r))
        &&& forall|c: int, r: int| elem(#[trigger] (self.advice)(c, r))
        &&& forall|c: int, r: int| elem(#[trigger] (self.instance)(c, r))
        &&& forall|i: int| elem(#[trigger] (self.challenges)(i))
        &&& elem(self.beta)
        &&& elem(self.gamma)
        &&& elem(self.theta)
        &&& elem(self.y)
        &&& elem(self.previous)
    }

    /// A column at a rotation.
    pub open spec fn column(&self, c: ColumnMid, rotation: int) -> int {
        match c.column_type {
            Any::Fixed => (self.fixed)(c.index as int, rotation),
            Any::Advice => (self.advice)(c.index as int, rotation),
            Any::Instance => (self.instance)(c.index as int, rotation),
        }
    }
}

/// The value of an expression.
pub open spec fn expr_value(e: ExpressionBack, env: Env) -> int
    decreases e,
{
    match e {
        ExpressionBack::Constant(c) => val(c),
        ExpressionBack::Var(VarBack::Query(q)) => env.column(q.column, q.rotation.0 as int),
        ExpressionBack::Var(VarBack::Challenge(c)) => (env.challenges)(c.index as int),
        ExpressionBack::Negated(a) => fneg(expr_value(*a, env)),
        ExpressionBack::Sum(a, b) => fadd(expr_value(*a, env), expr_value(*b, env)),
        ExpressionBack::Product(a, b) => fmul(expr_value(*a, env), expr_value(*b, env)),
    }
}

/// What the value of an expression is made of: a constant is itself; a query is its own kind of
/// column, at its own index and rotation; a challenge is the one at its index; and negations,
/// sums and products are those of their parts, modulo the prime.
pub proof fn law_expression_value(e: ExpressionBack, env: Env)
    ensures
        match e {
            ExpressionBack::Constant(c) => expr_value(e, env) == val(c),
            ExpressionBack::Var(VarBack::Query(q)) => {
                let (c, r) = (q.column.index as int, q.rotation.0 as int);
                &&& q.column.column_type == Any::Fixed ==> expr_value(e, env) == (env.fixed)(c, r)
                &&& q.column.column_type == Any::Advice ==> expr_value(e, env) == (env.advice)(c, r)
                &&& q.column.column_type == Any::Instance ==> expr_value(e, env) == (env.instance)(
                    c,
                    r,
                )
            },
            ExpressionBack::Var(VarBack::Challenge(c)) => expr_value(e, env) == (env.challenges)(
                c.index as int,
            ),
            ExpressionBack::Negated(a) => expr_value(e, env) == (-expr_value(*a, env)) % modulus(),
            ExpressionBack::Sum(a, b) => expr_value(e, env) == (expr_value(*a, env) + expr_value(
                *b,
                env,
            )) % modulus(),
            ExpressionBack::Product(a, b) => expr_value(e, env) == (expr_value(*a, env)
                * expr_value(*b, env)) % modulus(),
        },
{
    reveal(fadd);
    reveal(fmul);
    reveal(fneg);
}

/// Every constant of the expression is in reduced form.
pub open spec fn expr_wf(e: ExpressionBack) -> bool
    decreases e,
{
    match e {
        ExpressionBack::Constant(c) => canonical(c),
        ExpressionBack::Var(_) => true,
        ExpressionBack::Negated(a) => expr_wf(*a),
        ExpressionBack::Sum(a, b) => expr_wf(*a) && expr_wf(*b),
        ExpressionBack::Product(a, b) => expr_wf(*a) && expr_wf(*b),
    }
}

/// Bounds on what is queried: numbers of columns and challenges, and the largest rotation
/// either way.
pub ghost struct Limits {
    pub fixed: int,
    pub advice: int,
    pub instance: int,
    pub challenges: int,
    pub rotation: int,
}

impl Limits {
    pub open spec fn allows_column(&self, c: ColumnMid) -> bool {
        match c.column_type {
            Any::Fixed => c.index < self.fixed,
            Any::Advice => c.index < self.advice,
            Any::Instance => c.index < self.instance,
        }
    }

    pub open spec fn allows_rotation(&self, r: int) -> bool {
        -self.rotation <= r <= self.rotation
    }
}

/// The expression stays within the bounds.
pub open spec fn expr_within(e: ExpressionBack, lim: Limits) -> bool
    decreases e,
{
    match e {
        ExpressionBack::Constant(c) => true,
        ExpressionBack::Var(VarBack::Query(q)) => lim.allows_column(q.column)
            && lim.allows_rotation(q.rotation.0 as int),
        ExpressionBack::Var(VarBack::Challenge(c)) => c.index < lim.challenges,
        ExpressionBack::Negated(a) => expr_within(*a, lim),
        ExpressionBack::Sum(a, b) => expr_within(*a, lim) && expr_within(*b, lim),
        ExpressionBack::Product(a, b) => expr_within(*a, lim) && expr_within(*b, lim),
    }
}

/// The value of an expression is an integer of the field.
pub proof fn lemma_expr_elem(e: ExpressionBack, env: Env)
    requires
        expr_wf(e),
        env.wf(),
    ensures
        elem(expr_value(e, env)),
    decreases e,
{
    lemma_field_ranges();
}

/// The values of a polynomial over a domain, or its coefficients.
#[derive(Debug)]
pub struct Polynomial {
    pub values: Vec<Fr>,
}

/// A column of a table at a row; zero outside the table.
pub open spec fn cell(table: Seq<Seq<int>>, c: int, row: int) -> int {
    if 0 <= c < table.len() && 0 <= row < table[c].len() {
        table[c][row]
    } else {
        0
    }
}

/// The integers of a table.
pub open spec fn table_vals(columns: Seq<Polynomial>) -> Seq<Seq<int>> {
    Seq::new(columns.len(), |c: int| vals(columns[c].values@))
}

/// What the calculations of every row share: tables of columns and single values.
pub ghost struct Tables {
    pub fixed: Seq<Seq<int>>,
    pub advice: Seq<Seq<int>>,
    pub instance: Seq<Seq<int>>,
    pub challenges: Seq<int>,
    pub beta: int,
    pub gamma: int,
    pub theta: int,
    pub y: int,
}

impl Tables {
    /// What a row offers, rotation `r` taking it to row `row_of(r)` of the tables.
    pub open spec fn env(&self, row_of: spec_fn(int) -> int, previous: int) -> Env {
        Env {
            fixed: |c: int, r: int| cell(self.fixed, c, row_of(r)),
            advice: |c: int, r: int| cell(self.advice, c, row_of(r)),
            instance: |c: int, r: int| cell(self.instance, c, row_of(r)),
            challenges: |i: int|
                if 0 <= i < self.challenges.len() {
                    self.challenges[i]
                } else {
                    0
                },
            beta: self.beta,
            gamma: self.gamma,
            theta: self.theta,
            y: self.y,
            previous,
        }
    }
}

/// Every value of a table is in reduced form.
pub open spec fn columns_wf(columns: Seq<Polynomial>) -> bool {
    forall|c: int| 0 <= c < columns.len() ==> canonical_all(#[trigger] columns[c].values@)
}

/// The tables and values that the calculations of every row share.
pub struct Inputs<'a> {
    pub fixed: &'a [Polynomial],
    pub advice: &'a [Polynomial],
    pub instance: &'a [Polynomial],
    pub challenges: &'a [Fr],
    pub beta: Fr,
    pub gamma: Fr,
    pub theta: Fr,
    pub y: Fr,
}

impl<'a> Inputs<'a> {
    pub open spec fn wf(&self) -> bool {
        &&& columns_wf(self.fixed@)
        &&& columns_wf(self.advice@)
        &&& columns_wf(self.instance@)
        &&& canonical_all(self.challenges@)
        &&& canonical(self.beta)
        &&& canonical(self.gamma)
        &&& canonical(self.theta)
        &&& canonical(self.y)
    }

    /// The integers of the tables and values.
    pub open spec fn tables(&self) -> Tables {
        Tables {
            fixed: table_vals(self.fixed@),
            advice: table_vals(self.advice@),
            instance: table_vals(self.instance@),
            challenges: vals(self.challenges@),
            beta: val(self.beta),
            gamma: val(self.gamma),
            theta: val(self.theta),
            y: val(self.y),
        }
    }

    /// What a row offers, rotation `r` taking it to row `row_of(r)` of the tables.
    pub open spec fn env(&self, row_of: spec_fn(int) -> int, previous: int) -> Env {
        self.tables().env(row_of, previous)
    }
}

/// The row of a domain of `isize` rows that a rotation takes row `idx` to.
pub open spec fn rotated(idx: int, rot: int, rot_scale: int, isize: int) -> int {
    (idx + rot * rot_scale) % isize
}

/// The rows that rotations lead to from row `idx`.
pub open spec fn row_of(idx: int, rot_scale: int, isize: int) -> spec_fn(int) -> int {
    |r: int| rotated(idx, r, rot_scale, isize)
}

/// The sums on the way to a rotated row, and the remainder, stay within 32 bits.
pub open spec fn rotation_fits(idx: int, rot: int, rot_scale: int, isize: int) -> bool {
    &&& i32::MIN <= rot * rot_scale <= i32::MAX
    &&& i32::MIN <= idx + rot * rot_scale <= i32::MAX
    &&& isize != -1 || i32::MIN < idx + rot * rot_scale
}

/// The sums on the way from each of `len` rows to a rotated row stay within 32 bits.
pub open spec fn rotation_fits_all(first: int, len: int, rot: int, rot_scale: int) -> bool {
    &&& i32::MIN <= rot * rot_scale <= i32::MAX
    &&& i32::MIN <= first + rot * rot_scale
    &&& first + len - 1 + rot * rot_scale <= i32::MAX
}

/// Where a rotation leads: around the domain, row by row. The sums on the way need 32 bits, and
/// nothing else.
pub proof fn law_rotation(idx: int, rot: int, rot_scale: int, isize: int)
    ensures
        rotated(idx, rot, rot_scale, isize) == (idx + rot * rot_scale) % isize,
        row_of(idx, rot_scale, isize)(rot) == (idx + rot * rot_scale) % isize,
        0 < isize && i32::MIN <= rot * rot_scale <= i32::MAX && i32::MIN <= idx + rot * rot_scale
            <= i32::MAX ==> rotation_fits(idx, rot, rot_scale, isize),
{
}

/// Return the index in the polynomial of size `isize` after rotation `rot`.
pub fn get_rotation_idx(idx: usize, rot: i32, rot_scale: i32, isize: i32) -> (r: usize)
    requires
        isize != 0,
        rotation_fits(idx as i32 as int, rot as int, rot_scale as int, isize as int),
    ensures
        r == rotated(idx as i32 as int, rot as int, rot_scale as int, isize as int),
        r == (idx as i32 + rot * rot_scale) % (isize as int),
        0 < isize ==> r < isize,
{
    let at: i32 = idx as i32 + rot * rot_scale;
    proof {
        assert(0 <= at as int % isize as int && (at as int % isize as int) < (if isize > 0 {
            isize as int
        } else {
            -isize as int
        })) by (nonlinear_arith)
            requires
                isize != 0,
        ;
    }
    at.checked_rem_euclid(isize).unwrap() as usize
}

} // verus!
