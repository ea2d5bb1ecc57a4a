//! Graphs of calculations: expressions compiled so that no calculation is made twice.

use halo2curves::bn256::Fr;
use vstd::arithmetic::div_mod::lemma_mod_bound;
use vstd::prelude::*;

use crate::field::{
    canonical, canonical_all, fadd, fmul, fneg, fr_add, fr_double, fr_eq, fr_from_u64, fr_mul,
    fr_neg, fr_one, fr_square, fr_sub, fr_zero, fsub, lemma_field_ranges, val, vals,
};
use crate::halo2::fft::zeros;
use crate::plonk::arith::lemma_identities;
use crate::plonk::circuit::{
    elem, expr_value, expr_wf, expr_within, get_rotation_idx, lemma_expr_elem, rotated,
    rotation_fits, rotation_fits_all, row_of, Any, Env, ExpressionBack, Inputs, Limits, Polynomial,
    Rotation, VarBack,
};

verus! {

/// Where a calculation takes a value from.
#[derive(Clone, Copy, Debug, PartialEq, Eq, Structural)]
pub enum ValueSource {
    /// A constant of the graph.
    Constant(usize),
    /// The result of a calculation of the graph.
    Intermediate(usize),
    /// A fixed column, at a rotation of the graph.
    Fixed(usize, usize),
    /// An advice column, at a rotation of the graph.
    Advice(usize, usize),
    /// An instance column, at a rotation of the graph.
    Instance(usize, usize),
    /// A challenge.
    Challenge(usize),
    Beta(),
    Gamma(),
    Theta(),
    Y(),
    /// The value that the row had before.
    PreviousValue(),
}

impl Default for ValueSource {
    fn default() -> (r: Self)
        ensures
            r == ValueSource::Constant(0),
    {
        ValueSource::Constant(0)
    }
}

/// The place of a source's kind in the order of sources.
pub open spec fn source_rank(s: ValueSource) -> int {
    match s {
        ValueSource::Constant(_) => 0,
        ValueSource::Intermediate(_) => 1,
        ValueSource::Fixed(_, _) => 2,
        ValueSource::Advice(_, _) => 3,
        ValueSource::Instance(_, _) => 4,
        ValueSource::Challenge(_) => 5,
        ValueSource::Beta() => 6,
        ValueSource::Gamma() => 7,
        ValueSource::Theta() => 8,
        ValueSource::Y() => 9,
        ValueSource::PreviousValue() => 10,
    }
}

/// The indices of a source, those that it lacks as zero.
pub open spec fn source_indices(s: ValueSource) -> (int, int) {
    match s {
        ValueSource::Constant(i) => (i as int, 0),
        ValueSource::Intermediate(i) => (i as int, 0),
        ValueSource::Fixed(i, j) => (i as int, j as int),
        ValueSource::Advice(i, j) => (i as int, j as int),
        ValueSource::Instance(i, j) => (i as int, j as int),
        ValueSource::Challenge(i) => (i as int, 0),
        _ => (0, 0),
    }
}

/// The order of sources: by kind, and then by their indices.
pub open spec fn source_le(a: ValueSource, b: ValueSource) -> bool {
    let (ai, aj) = source_indices(a);
    let (bi, bj) = source_indices(b);
    source_rank(a) < source_rank(b) || (source_rank(a) == source_rank(b) && (ai < bi || (ai == bi
        && aj <= bj)))
}

impl ValueSource {
    fn rank(&self) -> (r: u8)
        ensures
            r == source_rank(*self),
    {
        match self {
            ValueSource::Constant(_) => 0,
            ValueSource::Intermediate(_) => 1,
            ValueSource::Fixed(_, _) => 2,
            ValueSource::Advice(_, _) => 3,
            ValueSource::Instance(_, _) => 4,
            ValueSource::Challenge(_) => 5,
            ValueSource::Beta() => 6,
            ValueSource::Gamma() => 7,
            ValueSource::Theta() => 8,
            ValueSource::Y() => 9,
            ValueSource::PreviousValue() => 10,
        }
    }

    fn indices(&self) -> (r: (usize, usize))
        ensures
            (r.0 as int, r.1 as int) == source_indices(*self),
    {
        match self {
            ValueSource::Constant(i) => (*i, 0),
            ValueSource::Intermediate(i) => (*i, 0),
            ValueSource::Fixed(i, j) => (*i, *j),
            ValueSource::Advice(i, j) => (*i, *j),
            ValueSource::Instance(i, j) => (*i, *j),
            ValueSource::Challenge(i) => (*i, 0),
            _ => (0, 0),
        }
    }

    /// Whether the source comes before another, or is it.
    pub fn le(&self, other: &ValueSource) -> (r: bool)
        ensures
            r == source_le(*self, *other),
    {
        let (ai, aj) = self.indices();
        let (bi, bj) = other.indices();
        let a = self.rank();
        let b = other.rank();
        a < b || (a == b && (ai < bi || (ai == bi && aj <= bj)))
    }
}

/// One calculation.
#[derive(Debug)]
pub enum Calculation {
    /// A sum.
    Add(ValueSource, ValueSource),
    /// A difference.
    Sub(ValueSource, ValueSource),
    /// A product.
    Mul(ValueSource, ValueSource),
    /// A square.
    Square(ValueSource),
    /// A double.
    Double(ValueSource),
    /// A negation.
    Negate(ValueSource),
    /// Horner's rule: `val = a; val = val * c + b[..]`.
    Horner(ValueSource, Vec<ValueSource>, ValueSource),
    /// The value itself.
    Store(ValueSource),
}

/// Two calculations are the same.
pub open spec fn same_calc(a: Calculation, b: Calculation) -> bool {
    match (a, b) {
        (Calculation::Add(x, y), Calculation::Add(u, v)) => x == u && y == v,
        (Calculation::Sub(x, y), Calculation::Sub(u, v)) => x == u && y == v,
        (Calculation::Mul(x, y), Calculation::Mul(u, v)) => x == u && y == v,
        (Calculation::Square(x), Calculation::Square(u)) => x == u,
        (Calculation::Double(x), Calculation::Double(u)) => x == u,
        (Calculation::Negate(x), Calculation::Negate(u)) => x == u,
        (Calculation::Horner(x, p, y), Calculation::Horner(u, q, v)) => x == u && p@ == q@ && y
            == v,
        (Calculation::Store(x), Calculation::Store(u)) => x == u,
        _ => false,
    }
}

/// Whether two lists of sources are the same.
fn same_sources(a: &Vec<ValueSource>, b: &Vec<ValueSource>) -> (r: bool)
    ensures
        r == (a@ == b@),
{
    if a.len() != b.len() {
        return false;
    }
    for i in 0..a.len()
        invariant
            a@.len() == b@.len(),
            forall|j: int| 0 <= j < i ==> a@[j] == b@[j],
    {
        if a[i] != b[i] {
            return false;
        }
    }
    assert(a@ =~= b@);
    true
}

impl Calculation {
    /// Whether the calculation is another.
    pub fn is_same(&self, other: &Calculation) -> (r: bool)
        ensures
            r == same_calc(*self, *other),
    {
        match (self, other) {
            (Calculation::Add(x, y), Calculation::Add(u, v)) => *x == *u && *y == *v,
            (Calculation::Sub(x, y), Calculation::Sub(u, v)) => *x == *u && *y == *v,
            (Calculation::Mul(x, y), Calculation::Mul(u, v)) => *x == *u && *y == *v,
            (Calculation::Square(x), Calculation::Square(u)) => *x == *u,
            (Calculation::Double(x), Calculation::Double(u)) => *x == *u,
            (Calculation::Negate(x), Calculation::Negate(u)) => *x == *u,
            (Calculation::Horner(x, p, y), Calculation::Horner(u, q, v)) => *x == *u
                && same_sources(p, q) && *y == *v,
            (Calculation::Store(x), Calculation::Store(u)) => *x == *u,
            _ => false,
        }
    }
}

/// What sources of a graph refer to: its constants, its rotations, the results so far.
pub ghost struct Scope {
    pub constants: Seq<int>,
    pub rotations: Seq<int>,
    pub results: Seq<int>,
}

/// The value of a source.
pub open spec fn source_value(s: ValueSource, scope: Scope, env: Env) -> int {
    match s {
        ValueSource::Constant(i) => scope.constants[i as int],
        ValueSource::Intermediate(i) => scope.results[i as int],
        ValueSource::Fixed(c, r) => (env.fixed)(c as int, scope.rotations[r as int]),
        ValueSource::Advice(c, r) => (env.advice)(c as int, scope.rotations[r as int]),
        ValueSource::Instance(c, r) => (env.instance)(c as int, scope.rotations[r as int]),
        ValueSource::Challenge(i) => (env.challenges)(i as int),
        ValueSource::Beta() => env.beta,
        ValueSource::Gamma() => env.gamma,
        ValueSource::Theta() => env.theta,
        ValueSource::Y() => env.y,
        ValueSource::PreviousValue() => env.previous,
    }
}

/// Horner's rule over the first `n` parts.
pub open spec fn horner_value(start: int, parts: Seq<int>, factor: int, n: nat) -> int
    decreases n,
{
    if n == 0 {
        start
    } else {
        fadd(fmul(horner_value(start, parts, factor, (n - 1) as nat), factor), parts[n - 1])
    }
}

/// The values of sources.
pub open spec fn source_values(s: Seq<ValueSource>, scope: Scope, env: Env) -> Seq<int> {
    Seq::new(s.len(), |i: int| source_value(s[i], scope, env))
}

/// The result of a calculation.
pub open spec fn calc_value(c: Calculation, scope: Scope, env: Env) -> int {
    match c {
        Calculation::Add(a, b) => fadd(source_value(a, scope, env), source_value(b, scope, env)),
        Calculation::Sub(a, b) => fsub(source_value(a, scope, env), source_value(b, scope, env)),
        Calculation::Mul(a, b) => fmul(source_value(a, scope, env), source_value(b, scope, env)),
        Calculation::Square(a) => fmul(
            source_value(a, scope, env),
            source_value(a, scope, env),
        ),
        Calculation::Double(a) => fadd(
            source_value(a, scope, env),
            source_value(a, scope, env),
        ),
        Calculation::Negate(a) => fneg(source_value(a, scope, env)),
        Calculation::Horner(a, parts, f) => horner_value(
            source_value(a, scope, env),
            source_values(parts@, scope, env),
            source_value(f, scope, env),
            parts@.len(),
        ),
        Calculation::Store(a) => source_value(a, scope, env),
    }
}

/// A calculation and the index its result is kept under.
#[derive(Debug)]
pub struct CalculationInfo {
    pub calculation: Calculation,
    pub target: usize,
}

/// A set of calculations, each made once, in an order in which each uses only earlier
/// results.
#[derive(Debug)]
pub struct GraphEvaluator {
    pub constants: Vec<Fr>,
    pub rotations: Vec<i32>,
    pub calculations: Vec<CalculationInfo>,
    pub num_intermediates: usize,
}

/// Storage for one evaluation of a graph.
#[derive(Debug)]
pub struct EvaluationData {
    pub intermediates: Vec<Fr>,
    pub rotations: Vec<usize>,
}

/// The source refers only to what is there: constants, rotations and results of the given
/// numbers.
pub open spec fn source_ok(s: ValueSource, constants: int, rotations: int, results: int) -> bool {
    match s {
        ValueSource::Constant(i) => i < constants,
        ValueSource::Intermediate(i) => i < results,
        ValueSource::Fixed(_, r) => r < rotations,
        ValueSource::Advice(_, r) => r < rotations,
        ValueSource::Instance(_, r) => r < rotations,
        _ => true,
    }
}

/// A condition holds of every source of a calculation.
pub open spec fn each_source(c: Calculation, p: spec_fn(ValueSource) -> bool) -> bool {
    match c {
        Calculation::Add(a, b) => p(a) && p(b),
        Calculation::Sub(a, b) => p(a) && p(b),
        Calculation::Mul(a, b) => p(a) && p(b),
        Calculation::Square(a) => p(a),
        Calculation::Double(a) => p(a),
        Calculation::Negate(a) => p(a),
        Calculation::Horner(a, parts, f) => p(a) && p(f) && forall|i: int|
            0 <= i < parts@.len() ==> p(#[trigger] parts@[i]),
        Calculation::Store(a) => p(a),
    }
}

/// A rotation as an integer.
pub open spec fn rotation_ints(r: Seq<i32>) -> Seq<int> {
    Seq::new(r.len(), |i: int| r[i] as int)
}

impl GraphEvaluator {
    /// The graph's constants and rotations, with results.
    pub open spec fn scope(&self, results: Seq<int>) -> Scope {
        Scope {
            constants: vals(self.constants@),
            rotations: rotation_ints(self.rotations@),
            results,
        }
    }

    /// The results of the first `n` calculations.
    pub open spec fn results(&self, env: Env, n: nat) -> Seq<int>
        decreases n,
    {
        if n == 0 {
            Seq::empty()
        } else {
            let earlier = self.results(env, (n - 1) as nat);
            earlier.push(calc_value(self.calculations@[n - 1].calculation, self.scope(earlier), env))
        }
    }

    /// The value of a source once every calculation is made.
    pub open spec fn value(&self, s: ValueSource, env: Env) -> int {
        source_value(s, self.scope(self.results(env, self.calculations@.len())), env)
    }

    /// The result of the last calculation, or zero if there is none.
    pub open spec fn result(&self, env: Env) -> int {
        if self.calculations@.len() == 0 {
            0
        } else {
            self.results(env, self.calculations@.len()).last()
        }
    }

    /// The source refers to constants and rotations of the graph and to its first `n` results.
    pub open spec fn knows(&self, s: ValueSource, n: int) -> bool {
        source_ok(s, self.constants@.len() as int, self.rotations@.len() as int, n)
    }

    /// Constants are reduced and begin with 0, 1 and 2; each calculation is kept under its
    /// place, uses only what comes before it, and is made once.
    pub open spec fn wf(&self) -> bool {
        &&& self.constants@.len() >= 3
        &&& canonical_all(self.constants@)
        &&& val(self.constants@[0]) == 0
        &&& val(self.constants@[1]) == 1
        &&& val(self.constants@[2]) == 2
        &&& self.num_intermediates == self.calculations@.len()
        &&& forall|i: int|
            0 <= i < self.calculations@.len() ==> (#[trigger] self.calculations@[i]).target == i
        &&& forall|i: int|
            0 <= i < self.calculations@.len() ==> each_source(
                (#[trigger] self.calculations@[i]).calculation,
                |s: ValueSource| self.knows(s, i),
            )
        &&& forall|i: int, j: int|
            0 <= i < j < self.calculations@.len() ==> !same_calc(
                (#[trigger] self.calculations@[i]).calculation,
                (#[trigger] self.calculations@[j]).calculation,
            )
    }
}

/// A calculation, with the parts of Horner's rule as a sequence.
pub ghost enum CalcShape {
    Add(ValueSource, ValueSource),
    Sub(ValueSource, ValueSource),
    Mul(ValueSource, ValueSource),
    Square(ValueSource),
    Double(ValueSource),
    Negate(ValueSource),
    Horner(ValueSource, Seq<ValueSource>, ValueSource),
    Store(ValueSource),
}

pub open spec fn calc_shape(c: Calculation) -> CalcShape {
    match c {
        Calculation::Add(a, b) => CalcShape::Add(a, b),
        Calculation::Sub(a, b) => CalcShape::Sub(a, b),
        Calculation::Mul(a, b) => CalcShape::Mul(a, b),
        Calculation::Square(a) => CalcShape::Square(a),
        Calculation::Double(a) => CalcShape::Double(a),
        Calculation::Negate(a) => CalcShape::Negate(a),
        Calculation::Horner(a, parts, f) => CalcShape::Horner(a, parts@, f),
        Calculation::Store(a) => CalcShape::Store(a),
    }
}

/// What a graph holds.
pub ghost struct GraphShape {
    pub constants: Seq<int>,
    pub rotations: Seq<int>,
    pub calcs: Seq<CalcShape>,
}

/// `i` is the first place that holds `x`.
pub open spec fn first_at<T>(s: Seq<T>, x: T, i: int) -> bool {
    0 <= i < s.len() && s[i] == x && forall|j: int| 0 <= j < i ==> s[j] != x
}

/// The first place that holds `x`.
pub open spec fn first_of<T>(s: Seq<T>, x: T) -> int {
    choose|i: int| first_at(s, x, i)
}

pub proof fn lemma_first_of<T>(s: Seq<T>, x: T, i: int)
    requires
        first_at(s, x, i),
    ensures
        first_of(s, x) == i,
        s.contains(x),
{
    let k = first_of(s, x);
    assert(first_at(s, x, k));
    if k < i {
        assert(s[k] != x);
    }
    if i < k {
        assert(s[i] != x);
    }
}

/// A sequence with `x` in it: as it was where it holds `x`, and with `x` at its end otherwise;
/// and the place of `x`.
pub open spec fn with<T>(s: Seq<T>, x: T) -> (Seq<T>, int) {
    if s.contains(x) {
        (s, first_of(s, x))
    } else {
        (s.push(x), s.len() as int)
    }
}

impl GraphShape {
    pub open spec fn add_constant(self, v: int) -> (GraphShape, ValueSource) {
        let (constants, i) = with(self.constants, v);
        (GraphShape { constants, ..self }, ValueSource::Constant(i as usize))
    }

    pub open spec fn add_rotation(self, r: int) -> (GraphShape, int) {
        let (rotations, i) = with(self.rotations, r);
        (GraphShape { rotations, ..self }, i)
    }

    pub open spec fn add_calc(self, c: CalcShape) -> (GraphShape, ValueSource) {
        let (calcs, i) = with(self.calcs, c);
        (GraphShape { calcs, ..self }, ValueSource::Intermediate(i as usize))
    }

    /// A negation; zero is its own.
    pub open spec fn add_negation(self, x: ValueSource) -> (GraphShape, ValueSource) {
        if x == ValueSource::Constant(0) {
            (self, x)
        } else {
            self.add_calc(CalcShape::Negate(x))
        }
    }

    /// A difference; taking zero away changes nothing, taking from zero negates.
    pub open spec fn add_difference(self, x: ValueSource, y: ValueSource) -> (
        GraphShape,
        ValueSource,
    ) {
        if x == ValueSource::Constant(0) {
            self.add_calc(CalcShape::Negate(y))
        } else if y == ValueSource::Constant(0) {
            (self, x)
        } else {
            self.add_calc(CalcShape::Sub(x, y))
        }
    }

    /// A sum, its operands in order; adding zero changes nothing.
    pub open spec fn add_sum(self, x: ValueSource, y: ValueSource) -> (GraphShape, ValueSource) {
        if x == ValueSource::Constant(0) {
            (self, y)
        } else if y == ValueSource::Constant(0) {
            (self, x)
        } else if source_le(x, y) {
            self.add_calc(CalcShape::Add(x, y))
        } else {
            self.add_calc(CalcShape::Add(y, x))
        }
    }

    /// A product, its operands in order: with zero it is zero, with one the other operand,
    /// with two a double, with itself a square.
    pub open spec fn add_product(self, x: ValueSource, y: ValueSource) -> (
        GraphShape,
        ValueSource,
    ) {
        let zero = ValueSource::Constant(0);
        let one = ValueSource::Constant(1);
        let two = ValueSource::Constant(2);
        if x == zero || y == zero {
            (self, zero)
        } else if x == one {
            (self, y)
        } else if y == one {
            (self, x)
        } else if x == two {
            self.add_calc(CalcShape::Double(y))
        } else if y == two {
            self.add_calc(CalcShape::Double(x))
        } else if x == y {
            self.add_calc(CalcShape::Square(x))
        } else if source_le(x, y) {
            self.add_calc(CalcShape::Mul(x, y))
        } else {
            self.add_calc(CalcShape::Mul(y, x))
        }
    }

    /// What a graph holds once an expression has been added, and the source of its value:
    /// operands first, left to right, then the operation on them.
    pub open spec fn add_expression(self, e: ExpressionBack) -> (GraphShape, ValueSource)
        decreases e,
    {
        match e {
            ExpressionBack::Constant(c) => self.add_constant(val(c)),
            ExpressionBack::Var(VarBack::Query(q)) => {
                let (g, i) = self.add_rotation(q.rotation.0 as int);
                let source = match q.column.column_type {
                    Any::Fixed => ValueSource::Fixed(q.column.index, i as usize),
                    Any::Advice => ValueSource::Advice(q.column.index, i as usize),
                    Any::Instance => ValueSource::Instance(q.column.index, i as usize),
                };
                g.add_calc(CalcShape::Store(source))
            },
            ExpressionBack::Var(VarBack::Challenge(c)) => self.add_calc(
                CalcShape::Store(ValueSource::Challenge(c.index)),
            ),
            ExpressionBack::Negated(a) => match *a {
                ExpressionBack::Constant(c) => self.add_constant(fneg(val(c))),
                _ => {
                    let (g, x) = self.add_expression(*a);
                    g.add_negation(x)
                },
            },
            ExpressionBack::Sum(a, b) => match *b {
                ExpressionBack::Negated(c) => {
                    let (g, x) = self.add_expression(*a);
                    let (h, y) = g.add_expression(*c);
                    h.add_difference(x, y)
                },
                _ => {
                    let (g, x) = self.add_expression(*a);
                    let (h, y) = g.add_expression(*b);
                    h.add_sum(x, y)
                },
            },
            ExpressionBack::Product(a, b) => {
                let (g, x) = self.add_expression(*a);
                let (h, y) = g.add_expression(*b);
                h.add_product(x, y)
            },
        }
    }
}

impl GraphEvaluator {
    /// What the graph holds.
    pub open spec fn shape(&self) -> GraphShape {
        GraphShape {
            constants: vals(self.constants@),
            rotations: rotation_ints(self.rotations@),
            calcs: Seq::new(
                self.calculations@.len(),
                |i: int| calc_shape(self.calculations@[i].calculation),
            ),
        }
    }
}

/// One graph begins with all that another holds.
pub open spec fn extends(a: GraphEvaluator, b: GraphEvaluator) -> bool {
    &&& a.constants@.is_prefix_of(b.constants@)
    &&& a.rotations@.is_prefix_of(b.rotations@)
    &&& a.calculations@.is_prefix_of(b.calculations@)
}

pub proof fn lemma_extends_trans(a: GraphEvaluator, b: GraphEvaluator, c: GraphEvaluator)
    requires
        extends(a, b),
        extends(b, c),
    ensures
        extends(a, c),
{
}

pub proof fn lemma_each_source_weaken(
    c: Calculation,
    p: spec_fn(ValueSource) -> bool,
    q: spec_fn(ValueSource) -> bool,
)
    requires
        each_source(c, p),
        forall|s: ValueSource| #[trigger] p(s) ==> q(s),
    ensures
        each_source(c, q),
{
}

/// A scope begins with all that another holds.
spec fn scope_prefix(a: Scope, b: Scope) -> bool {
    &&& a.constants.is_prefix_of(b.constants)
    &&& a.rotations.is_prefix_of(b.rotations)
    &&& a.results.is_prefix_of(b.results)
}

/// The source refers only to what the scope holds.
spec fn in_scope(s: ValueSource, a: Scope) -> bool {
    source_ok(s, a.constants.len() as int, a.rotations.len() as int, a.results.len() as int)
}

proof fn lemma_source_agrees(s: ValueSource, a: Scope, b: Scope, env: Env)
    requires
        scope_prefix(a, b),
        in_scope(s, a),
    ensures
        source_value(s, a, env) == source_value(s, b, env),
{
}

/// A calculation has the same result wherever each of its sources has the same value.
pub proof fn lemma_calc_congruent(
    c: Calculation,
    p: spec_fn(ValueSource) -> bool,
    a: Scope,
    env_a: Env,
    b: Scope,
    env_b: Env,
)
    requires
        each_source(c, p),
        forall|s: ValueSource| #[trigger]
            p(s) ==> source_value(s, a, env_a) == source_value(s, b, env_b),
    ensures
        calc_value(c, a, env_a) == calc_value(c, b, env_b),
{
    match c {
        Calculation::Horner(x, parts, f) => {
            assert(p(x) && p(f));
            assert forall|i: int| 0 <= i < parts@.len() implies source_value(
                parts@[i],
                a,
                env_a,
            ) == source_value(parts@[i], b, env_b) by {
                assert(p(parts@[i]));
            }
            assert(source_values(parts@, a, env_a) =~= source_values(parts@, b, env_b));
        },
        _ => {},
    }
}

/// Calculations that are the same have the same result, in scopes that agree on what they
/// refer to.
proof fn lemma_calc_agrees(c: Calculation, d: Calculation, a: Scope, b: Scope, env: Env)
    requires
        same_calc(c, d),
        scope_prefix(a, b),
        each_source(c, |s: ValueSource| in_scope(s, a)),
    ensures
        calc_value(c, a, env) == calc_value(d, b, env),
{
    let p = |s: ValueSource| in_scope(s, a);
    assert forall|s: ValueSource| #[trigger] p(s) implies source_value(s, a, env) == source_value(
        s,
        b,
        env,
    ) by {
        lemma_source_agrees(s, a, b, env);
    }
    lemma_calc_congruent(c, p, a, env, b, env);
}

pub proof fn lemma_results_len(g: GraphEvaluator, env: Env, n: nat)
    ensures
        g.results(env, n).len() == n,
    decreases n,
{
    if n > 0 {
        lemma_results_len(g, env, (n - 1) as nat);
    }
}

/// Earlier results stand as later calculations are made.
pub proof fn lemma_results_prefix(g: GraphEvaluator, env: Env, m: nat, n: nat)
    requires
        m <= n,
    ensures
        g.results(env, m).is_prefix_of(g.results(env, n)),
        g.results(env, m).len() == m,
        g.results(env, n).len() == n,
    decreases n,
{
    lemma_results_len(g, env, m);
    lemma_results_len(g, env, n);
    if m < n {
        lemma_results_prefix(g, env, m, (n - 1) as nat);
    }
}

/// The results of a graph stand in every graph that extends it.
pub proof fn lemma_results_extend(a: GraphEvaluator, b: GraphEvaluator, env: Env, n: nat)
    requires
        a.wf(),
        extends(a, b),
        n <= a.calculations@.len(),
    ensures
        a.results(env, n) == b.results(env, n),
    decreases n,
{
    if n > 0 {
        let m = (n - 1) as nat;
        lemma_results_extend(a, b, env, m);
        lemma_results_len(a, env, m);
        let sa = a.scope(a.results(env, m));
        let sb = b.scope(b.results(env, m));
        let c = a.calculations@[m as int].calculation;
        assert(a.calculations@[m as int] == b.calculations@[m as int]);
        let p = |s: ValueSource| a.knows(s, m as int);
        let q = |s: ValueSource| in_scope(s, sa);
        assert(each_source(c, p));
        assert forall|s: ValueSource| #[trigger] p(s) implies q(s) by {}
        lemma_each_source_weaken(c, p, q);
        lemma_calc_agrees(c, c, sa, sb, env);
    }
}

/// The value of a source stands in every graph that extends the one it was made for.
pub proof fn lemma_value_extend(a: GraphEvaluator, b: GraphEvaluator, s: ValueSource, env: Env)
    requires
        a.wf(),
        extends(a, b),
        a.knows(s, a.calculations@.len() as int),
    ensures
        a.value(s, env) == b.value(s, env),
{
    let n = a.calculations@.len();
    let m = b.calculations@.len();
    lemma_results_extend(a, b, env, n);
    lemma_results_prefix(b, env, n, m);
    lemma_source_agrees(s, a.scope(a.results(env, n)), b.scope(b.results(env, m)), env);
}

/// Every result is an integer of the field.
pub proof fn lemma_results_elem(g: GraphEvaluator, env: Env, n: nat)
    requires
        g.wf(),
        env.wf(),
        n <= g.calculations@.len(),
    ensures
        forall|i: int| 0 <= i < n ==> elem(#[trigger] g.results(env, n)[i]),
    decreases n,
{
    lemma_field_ranges();
    if n > 0 {
        let m = (n - 1) as nat;
        lemma_results_elem(g, env, m);
        lemma_results_len(g, env, m);
        let earlier = g.results(env, m);
        let scope = g.scope(earlier);
        let c = g.calculations@[m as int].calculation;
        let p = |s: ValueSource| g.knows(s, m as int);
        assert(each_source(c, p));
        assert forall|s: ValueSource| #[trigger] p(s) implies elem(
            source_value(s, scope, env),
        ) by {
            lemma_source_elem(g, s, earlier, env);
        }
        match c {
            Calculation::Horner(a, parts, f) => {
                assert(p(a));
                if parts@.len() > 0 {
                    reveal_with_fuel(horner_value, 2);
                }
            },
            Calculation::Store(a) => {
                assert(p(a));
            },
            _ => {},
        }
        assert(elem(calc_value(c, scope, env)));
    }
}

pub proof fn lemma_source_elem(g: GraphEvaluator, s: ValueSource, results: Seq<int>, env: Env)
    requires
        canonical_all(g.constants@),
        env.wf(),
        g.knows(s, results.len() as int),
        forall|i: int| 0 <= i < results.len() ==> elem(#[trigger] results[i]),
    ensures
        elem(source_value(s, g.scope(results), env)),
{
    match s {
        ValueSource::Constant(i) => {
            assert(canonical(g.constants@[i as int]));
        },
        _ => {},
    }
}

/// The result of a calculation of the graph, from what it uses.
proof fn lemma_value_of_calc(g: GraphEvaluator, t: int, c: Calculation, n: nat, env: Env)
    requires
        g.wf(),
        0 <= t < g.calculations@.len(),
        t <= n <= g.calculations@.len(),
        same_calc(g.calculations@[t].calculation, c),
    ensures
        g.value(ValueSource::Intermediate(t as usize), env) == calc_value(
            c,
            g.scope(g.results(env, n)),
            env,
        ),
{
    let len = g.calculations@.len();
    lemma_results_prefix(g, env, t as nat, n);
    lemma_results_prefix(g, env, (t + 1) as nat, len);
    let d = g.calculations@[t].calculation;
    let st = g.scope(g.results(env, t as nat));
    let sn = g.scope(g.results(env, n));
    let p = |s: ValueSource| g.knows(s, t);
    let q = |s: ValueSource| in_scope(s, st);
    assert(each_source(d, p));
    assert forall|s: ValueSource| #[trigger] p(s) implies q(s) by {}
    lemma_each_source_weaken(d, p, q);
    lemma_calc_agrees(d, c, st, sn, env);
    assert(g.results(env, (t + 1) as nat)[t] == calc_value(d, st, env));
    assert(t < g.num_intermediates);
}

/// The calculation is in the graph.
pub open spec fn has_calc(g: GraphEvaluator, c: Calculation) -> bool {
    exists|i: int|
        0 <= i < g.calculations@.len() && same_calc(
            (#[trigger] g.calculations@[i]).calculation,
            c,
        )
}

impl GraphEvaluator {
    /// Add a rotation, if it is new, and return its place.
    pub fn add_rotation(&mut self, rotation: &Rotation) -> (r: usize)
        requires
            old(self).wf(),
        ensures
            final(self).wf(),
            final(self).constants == old(self).constants,
            final(self).calculations == old(self).calculations,
            extends(*old(self), *final(self)),
            r < final(self).rotations@.len(),
            final(self).rotations@[r as int] == rotation.0,
            old(self).rotations@.contains(rotation.0) ==> final(self).rotations
                == old(self).rotations,
            !old(self).rotations@.contains(rotation.0) ==> final(self).rotations@
                == old(self).rotations@.push(rotation.0),
            (final(self).shape(), r as int) == old(self).shape().add_rotation(rotation.0 as int),
    {
        let n = self.rotations.len();
        for i in 0..n
            invariant
                n == self.rotations@.len(),
                *self == *old(self),
                self.wf(),
                forall|j: int| 0 <= j < i ==> self.rotations@[j] != rotation.0,
        {
            if self.rotations[i] == rotation.0 {
                proof {
                    lemma_first_of(
                        rotation_ints(self.rotations@),
                        rotation.0 as int,
                        i as int,
                    );
                }
                return i;
            }
        }
        let ghost before = *self;
        self.rotations.push(rotation.0);
        proof {
            assert(self.rotations@.len() == n + 1);
            lemma_wf_grown(before, *self);
            let ints = rotation_ints(before.rotations@);
            assert(!ints.contains(rotation.0 as int));
            assert(rotation_ints(self.rotations@) =~= ints.push(rotation.0 as int));
            assert(self.shape().calcs =~= before.shape().calcs);
        }
        self.rotations.len() - 1
    }

    /// Add a constant, if it is new.
    pub fn add_constant(&mut self, constant: &Fr) -> (r: ValueSource)
        requires
            old(self).wf(),
            canonical(*constant),
        ensures
            final(self).wf(),
            final(self).rotations == old(self).rotations,
            final(self).calculations == old(self).calculations,
            extends(*old(self), *final(self)),
            r matches ValueSource::Constant(i) && i < final(self).constants@.len() && val(
                final(self).constants@[i as int],
            ) == val(*constant),
            vals(old(self).constants@).contains(val(*constant)) ==> final(self).constants
                == old(self).constants,
            !vals(old(self).constants@).contains(val(*constant)) ==> final(self).constants@
                == old(self).constants@.push(*constant),
            (final(self).shape(), r) == old(self).shape().add_constant(val(*constant)),
    {
        let n = self.constants.len();
        for i in 0..n
            invariant
                n == self.constants@.len(),
                *self == *old(self),
                self.wf(),
                canonical(*constant),
                forall|j: int| 0 <= j < i ==> val(#[trigger] self.constants@[j]) != val(*constant),
        {
            assert(canonical(self.constants@[i as int]));
            if fr_eq(&self.constants[i], constant) {
                proof {
                    lemma_first_of(vals(self.constants@), val(*constant), i as int);
                }
                return ValueSource::Constant(i);
            }
        }
        let ghost before = *self;
        self.constants.push(*constant);
        proof {
            lemma_wf_grown(before, *self);
            let ints = vals(before.constants@);
            assert(forall|j: int| 0 <= j < n ==> ints[j] == val(before.constants@[j]));
            assert(!ints.contains(val(*constant)));
            assert(vals(self.constants@) =~= ints.push(val(*constant)));
            assert(self.shape().calcs =~= before.shape().calcs);
        }
        let held: usize = self.constants.len();
        ValueSource::Constant(held - 1)
    }

    /// Add a calculation, if it is new, and return the source of its result.
    pub fn add_calculation(&mut self, calculation: Calculation) -> (r: ValueSource)
        requires
            old(self).wf(),
            each_source(
                calculation,
                |s: ValueSource| old(self).knows(s, old(self).calculations@.len() as int),
            ),
        ensures
            final(self).wf(),
            final(self).constants == old(self).constants,
            final(self).rotations == old(self).rotations,
            extends(*old(self), *final(self)),
            r matches ValueSource::Intermediate(t) && t < final(self).calculations@.len()
                && same_calc(final(self).calculations@[t as int].calculation, calculation),
            has_calc(*old(self), calculation) ==> final(self).calculations
                == old(self).calculations,
            !has_calc(*old(self), calculation) ==> {
                &&& final(self).calculations@.len() == old(self).calculations@.len() + 1
                &&& final(self).calculations@.last().calculation == calculation
                &&& r == ValueSource::Intermediate(old(self).calculations@.len() as usize)
            },
            forall|env: Env| #[trigger]
                final(self).value(r, env) == calc_value(
                    calculation,
                    old(self).scope(old(self).results(env, old(self).calculations@.len())),
                    env,
                ),
            (final(self).shape(), r) == old(self).shape().add_calc(calc_shape(calculation)),
    {
        let n = self.calculations.len();
        for i in 0..n
            invariant
                n == self.calculations@.len(),
                *self == *old(self),
                self.wf(),
                forall|j: int|
                    0 <= j < i ==> !same_calc(
                        (#[trigger] self.calculations@[j]).calculation,
                        calculation,
                    ),
        {
            if self.calculations[i].calculation.is_same(&calculation) {
                proof {
                    assert(same_calc(self.calculations@[i as int].calculation, calculation));
                    lemma_first_calc(*self, calculation, i as int);
                    assert forall|env: Env| #[trigger]
                        self.value(ValueSource::Intermediate(i), env) == calc_value(
                            calculation,
                            self.scope(self.results(env, n as nat)),
                            env,
                        ) by {
                        lemma_value_of_calc(*self, i as int, calculation, n as nat, env);
                    }
                }
                return ValueSource::Intermediate(self.calculations[i].target);
            }
        }
        let ghost before = *self;
        let ghost calc = calculation;
        let target = self.num_intermediates;
        self.calculations.push(CalculationInfo { calculation, target });
        let total: usize = self.calculations.len();
        self.num_intermediates = total;
        proof {
            lemma_wf_pushed(before, *self, calc);
            lemma_same_refl(calc);
            lemma_new_calc(before, calc);
            assert(self.shape().calcs =~= before.shape().calcs.push(calc_shape(calc)));
            assert forall|env: Env| #[trigger]
                self.value(ValueSource::Intermediate(target), env) == calc_value(
                    calc,
                    before.scope(before.results(env, n as nat)),
                    env,
                ) by {
                lemma_results_extend(before, *self, env, n as nat);
                lemma_value_of_calc(*self, n as int, calc, n as nat, env);
            }
        }
        ValueSource::Intermediate(target)
    }
}

/// The first calculation that is a given one is the first of its shape.
proof fn lemma_first_calc(g: GraphEvaluator, c: Calculation, i: int)
    requires
        0 <= i < g.calculations@.len(),
        same_calc(g.calculations@[i].calculation, c),
        forall|j: int|
            0 <= j < i ==> !same_calc((#[trigger] g.calculations@[j]).calculation, c),
    ensures
        first_at(g.shape().calcs, calc_shape(c), i),
        first_of(g.shape().calcs, calc_shape(c)) == i,
        g.shape().calcs.contains(calc_shape(c)),
{
    let s = g.shape().calcs;
    assert forall|j: int| 0 <= j < i implies s[j] != calc_shape(c) by {
        assert(!same_calc(g.calculations@[j].calculation, c));
    }
    lemma_first_of(s, calc_shape(c), i);
}

/// A calculation that is not in the graph is of a shape that is not in it.
proof fn lemma_new_calc(g: GraphEvaluator, c: Calculation)
    requires
        !has_calc(g, c),
    ensures
        !g.shape().calcs.contains(calc_shape(c)),
{
    let s = g.shape().calcs;
    if s.contains(calc_shape(c)) {
        let i = choose|i: int| 0 <= i < s.len() && s[i] == calc_shape(c);
        assert(same_calc(g.calculations@[i].calculation, c));
    }
}

proof fn lemma_same_refl(c: Calculation)
    ensures
        same_calc(c, c),
{
}

/// New constants or rotations keep a graph in order.
proof fn lemma_wf_grown(a: GraphEvaluator, b: GraphEvaluator)
    requires
        a.wf(),
        extends(a, b),
        canonical_all(b.constants@),
        b.calculations == a.calculations,
        b.num_intermediates == a.num_intermediates,
    ensures
        b.wf(),
{
    assert(b.constants@[0] == a.constants@[0]);
    assert(b.constants@[1] == a.constants@[1]);
    assert(b.constants@[2] == a.constants@[2]);
    assert forall|i: int| 0 <= i < b.calculations@.len() implies each_source(
        (#[trigger] b.calculations@[i]).calculation,
        |s: ValueSource| b.knows(s, i),
    ) by {
        let p = |s: ValueSource| a.knows(s, i);
        let q = |s: ValueSource| b.knows(s, i);
        let c = a.calculations@[i].calculation;
        assert(each_source(c, p));
        assert forall|s: ValueSource| #[trigger] p(s) implies q(s) by {}
        lemma_each_source_weaken(c, p, q);
    }
}

/// A new calculation keeps a graph in order.
proof fn lemma_wf_pushed(a: GraphEvaluator, b: GraphEvaluator, c: Calculation)
    requires
        a.wf(),
        b.constants == a.constants,
        b.rotations == a.rotations,
        b.calculations@.len() == a.calculations@.len() + 1,
        a.calculations@.is_prefix_of(b.calculations@),
        b.calculations@.last().calculation == c,
        b.calculations@.last().target == a.calculations@.len(),
        b.num_intermediates == b.calculations@.len(),
        !has_calc(a, c),
        each_source(c, |s: ValueSource| a.knows(s, a.calculations@.len() as int)),
    ensures
        b.wf(),
{
    let n = a.calculations@.len() as int;
    assert forall|i: int| 0 <= i < b.calculations@.len() implies each_source(
        (#[trigger] b.calculations@[i]).calculation,
        |s: ValueSource| b.knows(s, i),
    ) by {
        let p = |s: ValueSource| a.knows(s, i);
        let q = |s: ValueSource| b.knows(s, i);
        let d = b.calculations@[i].calculation;
        if i < n {
            assert(a.calculations@[i] == b.calculations@[i]);
            assert(each_source(a.calculations@[i].calculation, p));
        } else {
            assert(each_source(c, |s: ValueSource| a.knows(s, a.calculations@.len() as int)));
            lemma_each_source_weaken(
                c,
                |s: ValueSource| a.knows(s, a.calculations@.len() as int),
                p,
            );
        }
        assert forall|s: ValueSource| #[trigger] p(s) implies q(s) by {}
        lemma_each_source_weaken(d, p, q);
    }
    assert forall|i: int, j: int| 0 <= i < j < b.calculations@.len() implies !same_calc(
        (#[trigger] b.calculations@[i]).calculation,
        (#[trigger] b.calculations@[j]).calculation,
    ) by {
        assert(a.calculations@[i] == b.calculations@[i]);
        if j < n {
            assert(a.calculations@[j] == b.calculations@[j]);
        }
    }
    assert forall|i: int| 0 <= i < b.calculations@.len() implies (
    #[trigger] b.calculations@[i]).target == i by {
        if i < n {
            assert(a.calculations@[i] == b.calculations@[i]);
        }
    }
}

impl Default for GraphEvaluator {
    fn default() -> (r: Self)
        ensures
            r.wf(),
            r.constants@.len() == 3,
            r.rotations@.len() == 0,
            r.calculations@.len() == 0,
    {
        let mut constants: Vec<Fr> = Vec::new();
        constants.push(fr_zero());
        constants.push(fr_one());
        constants.push(fr_from_u64(2));
        GraphEvaluator {
            constants,
            rotations: Vec::new(),
            calculations: Vec::new(),
            num_intermediates: 0,
        }
    }
}

/// The source is not one of the argument's own values.
pub open spec fn plain_source(s: ValueSource) -> bool {
    match s {
        ValueSource::Beta() => false,
        ValueSource::Gamma() => false,
        ValueSource::Theta() => false,
        ValueSource::Y() => false,
        ValueSource::PreviousValue() => false,
        _ => true,
    }
}

/// A calculation of the kind that expressions give rise to.
pub open spec fn plain_calc(c: Calculation) -> bool {
    !(c is Horner) && each_source(c, |s: ValueSource| plain_source(s))
}

/// Every calculation past the first `n` is of the kind that expressions give rise to.
pub open spec fn plain_from(g: GraphEvaluator, n: int) -> bool {
    forall|i: int|
        n <= i < g.calculations@.len() ==> plain_calc((#[trigger] g.calculations@[i]).calculation)
}

/// The source stays within the bounds.
pub open spec fn source_within(s: ValueSource, lim: Limits) -> bool {
    match s {
        ValueSource::Fixed(c, _) => c < lim.fixed,
        ValueSource::Advice(c, _) => c < lim.advice,
        ValueSource::Instance(c, _) => c < lim.instance,
        ValueSource::Challenge(i) => i < lim.challenges,
        _ => true,
    }
}

/// The graph stays within the bounds.
pub open spec fn graph_within(g: GraphEvaluator, lim: Limits) -> bool {
    &&& forall|i: int|
        0 <= i < g.rotations@.len() ==> lim.allows_rotation(#[trigger] g.rotations@[i] as int)
    &&& forall|i: int|
        0 <= i < g.calculations@.len() ==> each_source(
            (#[trigger] g.calculations@[i]).calculation,
            |s: ValueSource| source_within(s, lim),
        )
}

/// A source that a graph can hand out for an expression.
pub open spec fn handle(g: GraphEvaluator, s: ValueSource) -> bool {
    &&& s is Constant || s is Intermediate
    &&& g.knows(s, g.calculations@.len() as int)
}

/// What holds of a graph, and of the source it hands out, once an expression has been added.
pub open spec fn added(
    before: GraphEvaluator,
    after: GraphEvaluator,
    e: ExpressionBack,
    r: ValueSource,
) -> bool {
    &&& after.wf()
    &&& (after.shape(), r) == before.shape().add_expression(e)
    &&& extends(before, after)
    &&& plain_from(after, before.calculations@.len() as int)
    &&& handle(after, r)
    &&& forall|env: Env| env.wf() ==> #[trigger] after.value(r, env) == expr_value(e, env)
    &&& forall|lim: Limits|
        graph_within(before, lim) && expr_within(e, lim) ==> #[trigger] graph_within(after, lim)
}

/// A calculation on the handles of a graph, once it is added: the graph grows by it at most.
pub proof fn lemma_calc_added(before: GraphEvaluator, after: GraphEvaluator, c: Calculation)
    requires
        before.wf(),
        after.wf(),
        extends(before, after),
        after.rotations == before.rotations,
        has_calc(before, c) ==> after.calculations == before.calculations,
        !has_calc(before, c) ==> after.calculations@.len() == before.calculations@.len() + 1
            && after.calculations@.last().calculation == c,
    ensures
        plain_calc(c) ==> plain_from(after, before.calculations@.len() as int),
        forall|lim: Limits|
            graph_within(before, lim) && each_source(
                c,
                |s: ValueSource| source_within(s, lim),
            ) ==> #[trigger] graph_within(after, lim),
{
    assert forall|lim: Limits|
        graph_within(before, lim) && each_source(
            c,
            |s: ValueSource| source_within(s, lim),
        ) implies #[trigger] graph_within(after, lim) by {
        assert forall|i: int| 0 <= i < after.calculations@.len() implies each_source(
            (#[trigger] after.calculations@[i]).calculation,
            |s: ValueSource| source_within(s, lim),
        ) by {
            if i < before.calculations@.len() {
                assert(before.calculations@[i] == after.calculations@[i]);
            }
        }
    }
}

/// Plain growth in two steps is plain growth.
pub proof fn lemma_plain_trans(a: GraphEvaluator, b: GraphEvaluator, c: GraphEvaluator)
    requires
        extends(a, b),
        extends(b, c),
        plain_from(b, a.calculations@.len() as int),
        plain_from(c, b.calculations@.len() as int),
    ensures
        plain_from(c, a.calculations@.len() as int),
{
    assert forall|i: int|
        a.calculations@.len() <= i < c.calculations@.len() implies plain_calc(
        (#[trigger] c.calculations@[i]).calculation,
    ) by {
        if i < b.calculations@.len() {
            assert(b.calculations@[i] == c.calculations@[i]);
        }
    }
}

impl GraphEvaluator {
    /// Add a calculation of the kind that expressions give rise to.
    fn add_plain(&mut self, calculation: Calculation) -> (r: ValueSource)
        requires
            old(self).wf(),
            plain_calc(calculation),
            each_source(
                calculation,
                |s: ValueSource| old(self).knows(s, old(self).calculations@.len() as int),
            ),
        ensures
            final(self).wf(),
            extends(*old(self), *final(self)),
            plain_from(*final(self), old(self).calculations@.len() as int),
            handle(*final(self), r),
            (final(self).shape(), r) == old(self).shape().add_calc(calc_shape(calculation)),
            forall|env: Env| #[trigger]
                final(self).value(r, env) == calc_value(
                    calculation,
                    old(self).scope(old(self).results(env, old(self).calculations@.len())),
                    env,
                ),
            forall|lim: Limits|
                graph_within(*old(self), lim) && each_source(
                    calculation,
                    |s: ValueSource| source_within(s, lim),
                ) ==> #[trigger] graph_within(*final(self), lim),
    {
        let ghost before = *self;
        let ghost c = calculation;
        let r = self.add_calculation(calculation);
        proof {
            lemma_calc_added(before, *self, c);
        }
        r
    }

    /// Add the calculations of an expression, and return the source of its value.
    pub fn add_expression(&mut self, expr: &ExpressionBack) -> (r: ValueSource)
        requires
            old(self).wf(),
            expr_wf(*expr),
        ensures
            added(*old(self), *final(self), *expr, r),
        decreases *expr,
    {
        let ghost before = *self;
        proof {
            reveal_with_fuel(expr_wf, 3);
            reveal_with_fuel(expr_within, 3);
            reveal_with_fuel(expr_value, 3);
        }
        match expr {
            ExpressionBack::Constant(scalar) => self.add_constant(scalar),
            ExpressionBack::Var(VarBack::Query(query)) => {
                let rot_idx = self.add_rotation(&query.rotation);
                let ghost mid = *self;
                let source = match query.column.column_type {
                    Any::Fixed => ValueSource::Fixed(query.column.index, rot_idx),
                    Any::Advice => ValueSource::Advice(query.column.index, rot_idx),
                    Any::Instance => ValueSource::Instance(query.column.index, rot_idx),
                };
                let r = self.add_plain(Calculation::Store(source));
                proof {
                    assert forall|lim: Limits|
                        graph_within(before, lim) && expr_within(
                            *expr,
                            lim,
                        ) implies #[trigger] graph_within(*self, lim) by {
                        assert forall|i: int|
                            0 <= i < mid.rotations@.len() implies lim.allows_rotation(
                            #[trigger] mid.rotations@[i] as int,
                        ) by {
                            if i < before.rotations@.len() {
                                assert(mid.rotations@[i] == before.rotations@[i]);
                            }
                        }
                        assert(graph_within(mid, lim));
                    }
                }
                r
            },
            ExpressionBack::Var(VarBack::Challenge(challenge)) => {
                self.add_plain(Calculation::Store(ValueSource::Challenge(challenge.index)))
            },
            ExpressionBack::Negated(a) => {
                match &**a {
                    ExpressionBack::Constant(scalar) => {
                        let negated = fr_neg(scalar);
                        self.add_constant(&negated)
                    },
                    _ => {
                        let result_a = self.add_expression(a);
                        let ghost mid = *self;
                        match result_a {
                            ValueSource::Constant(0) => {
                                proof {
                                    assert forall|env: Env| env.wf() implies #[trigger] self.value(
                                        result_a,
                                        env,
                                    ) == expr_value(*expr, env) by {
                                        lemma_identities(0, 0);
                                    }
                                }
                                result_a
                            },
                            _ => {
                                let r = self.add_plain(Calculation::Negate(result_a));
                                proof {
                                    lemma_plain_trans(before, mid, *self);
                                    lemma_extends_trans(before, mid, *self);
                                    assert forall|env: Env| env.wf() implies #[trigger] self.value(
                                        r,
                                        env,
                                    ) == expr_value(*expr, env) by {
                                        assert(mid.value(result_a, env) == expr_value(**a, env));
                                    }
                                    assert forall|lim: Limits|
                                        graph_within(before, lim) && expr_within(
                                            *expr,
                                            lim,
                                        ) implies #[trigger] graph_within(*self, lim) by {
                                        assert(graph_within(mid, lim));
                                    }
                                }
                                r
                            },
                        }
                    },
                }
            },
            ExpressionBack::Sum(a, b) => {
                match &**b {
                    ExpressionBack::Negated(b_int) => {
                        let result_a = self.add_expression(a);
                        let ghost one = *self;
                        let result_b = self.add_expression(b_int);
                        let ghost two = *self;
                        proof {
                            lemma_two_added(before, one, two, **a, **b_int, result_a, result_b);
                        }
                        let r = if result_a == ValueSource::Constant(0) {
                            self.add_plain(Calculation::Negate(result_b))
                        } else if result_b == ValueSource::Constant(0) {
                            result_a
                        } else {
                            self.add_plain(Calculation::Sub(result_a, result_b))
                        };
                        proof {
                            lemma_plain_trans(before, two, *self);
                            lemma_extends_trans(before, two, *self);
                            assert forall|env: Env| env.wf() implies #[trigger] self.value(r, env)
                                == expr_value(*expr, env) by {
                                lemma_expr_elem(**a, env);
                                lemma_expr_elem(**b_int, env);
                                lemma_identities(
                                    expr_value(**a, env),
                                    expr_value(**b_int, env),
                                );
                                lemma_identities(
                                    expr_value(**b_int, env),
                                    expr_value(**a, env),
                                );
                                assert(two.value(result_a, env) == expr_value(**a, env));
                                assert(two.value(result_b, env) == expr_value(**b_int, env));
                                assert(expr_value(**b, env) == fneg(expr_value(**b_int, env)));
                            }
                        }
                        r
                    },
                    _ => {
                        let result_a = self.add_expression(a);
                        let ghost one = *self;
                        let result_b = self.add_expression(b);
                        let ghost two = *self;
                        proof {
                            lemma_two_added(before, one, two, **a, **b, result_a, result_b);
                        }
                        let r = if result_a == ValueSource::Constant(0) {
                            result_b
                        } else if result_b == ValueSource::Constant(0) {
                            result_a
                        } else if result_a.le(&result_b) {
                            self.add_plain(Calculation::Add(result_a, result_b))
                        } else {
                            self.add_plain(Calculation::Add(result_b, result_a))
                        };
                        proof {
                            lemma_plain_trans(before, two, *self);
                            lemma_extends_trans(before, two, *self);
                            assert forall|env: Env| env.wf() implies #[trigger] self.value(r, env)
                                == expr_value(*expr, env) by {
                                lemma_expr_elem(**a, env);
                                lemma_expr_elem(**b, env);
                                lemma_identities(expr_value(**a, env), expr_value(**b, env));
                                lemma_identities(expr_value(**b, env), expr_value(**a, env));
                                assert(two.value(result_a, env) == expr_value(**a, env));
                                assert(two.value(result_b, env) == expr_value(**b, env));
                            }
                        }
                        r
                    },
                }
            },
            ExpressionBack::Product(a, b) => {
                let result_a = self.add_expression(a);
                let ghost one = *self;
                let result_b = self.add_expression(b);
                let ghost two = *self;
                proof {
                    lemma_two_added(before, one, two, **a, **b, result_a, result_b);
                }
                let r = if result_a == ValueSource::Constant(0) || result_b
                    == ValueSource::Constant(0) {
                    ValueSource::Constant(0)
                } else if result_a == ValueSource::Constant(1) {
                    result_b
                } else if result_b == ValueSource::Constant(1) {
                    result_a
                } else if result_a == ValueSource::Constant(2) {
                    self.add_plain(Calculation::Double(result_b))
                } else if result_b == ValueSource::Constant(2) {
                    self.add_plain(Calculation::Double(result_a))
                } else if result_a == result_b {
                    self.add_plain(Calculation::Square(result_a))
                } else if result_a.le(&result_b) {
                    self.add_plain(Calculation::Mul(result_a, result_b))
                } else {
                    self.add_plain(Calculation::Mul(result_b, result_a))
                };
                proof {
                    lemma_plain_trans(before, two, *self);
                    lemma_extends_trans(before, two, *self);
                    assert forall|env: Env| env.wf() implies #[trigger] self.value(r, env)
                        == expr_value(*expr, env) by {
                        lemma_expr_elem(**a, env);
                        lemma_expr_elem(**b, env);
                        lemma_identities(expr_value(**a, env), expr_value(**b, env));
                        lemma_identities(expr_value(**b, env), expr_value(**a, env));
                        assert(two.value(result_a, env) == expr_value(**a, env));
                        assert(two.value(result_b, env) == expr_value(**b, env));
                    }
                }
                r
            },
        }
    }
}

/// Two expressions, one added after the other.
proof fn lemma_two_added(
    before: GraphEvaluator,
    one: GraphEvaluator,
    two: GraphEvaluator,
    a: ExpressionBack,
    b: ExpressionBack,
    ra: ValueSource,
    rb: ValueSource,
)
    requires
        added(before, one, a, ra),
        added(one, two, b, rb),
    ensures
        extends(before, two),
        plain_from(two, before.calculations@.len() as int),
        handle(two, ra),
        forall|env: Env| env.wf() ==> #[trigger] two.value(ra, env) == expr_value(a, env),
        forall|lim: Limits|
            graph_within(before, lim) && expr_within(a, lim) && expr_within(
                b,
                lim,
            ) ==> #[trigger] graph_within(two, lim),
{
    lemma_extends_trans(before, one, two);
    lemma_plain_trans(before, one, two);
    assert forall|env: Env| env.wf() implies #[trigger] two.value(ra, env) == expr_value(
        a,
        env,
    ) by {
        lemma_value_extend(one, two, ra, env);
    }
    assert forall|lim: Limits|
        graph_within(before, lim) && expr_within(a, lim) && expr_within(
            b,
            lim,
        ) implies #[trigger] graph_within(two, lim) by {
        assert(graph_within(one, lim));
    }
}

/// The source can be read: what it refers to is there.
pub open spec fn source_readable(
    s: ValueSource,
    rows: Seq<usize>,
    constants: int,
    results: int,
    inputs: Inputs,
) -> bool {
    match s {
        ValueSource::Constant(i) => i < constants,
        ValueSource::Intermediate(i) => i < results,
        ValueSource::Fixed(c, r) => r < rows.len() && c < inputs.fixed@.len() && rows[r as int]
            < inputs.fixed@[c as int].values@.len(),
        ValueSource::Advice(c, r) => r < rows.len() && c < inputs.advice@.len() && rows[r as int]
            < inputs.advice@[c as int].values@.len(),
        ValueSource::Instance(c, r) => r < rows.len() && c < inputs.instance@.len()
            && rows[r as int] < inputs.instance@[c as int].values@.len(),
        ValueSource::Challenge(i) => i < inputs.challenges@.len(),
        _ => true,
    }
}

/// Constants and results, with rows in place of the rotations that lead to them.
pub open spec fn row_scope(constants: Seq<Fr>, results: Seq<Fr>, rows: Seq<usize>) -> Scope {
    Scope {
        constants: vals(constants),
        rotations: Seq::new(rows.len(), |i: int| rows[i] as int),
        results: vals(results),
    }
}

impl ValueSource {
    /// The value of the source.
    pub fn get(
        &self,
        rotations: &[usize],
        constants: &[Fr],
        intermediates: &[Fr],
        inputs: &Inputs,
        previous_value: &Fr,
    ) -> (r: Fr)
        requires
            source_readable(
                *self,
                rotations@,
                constants@.len() as int,
                intermediates@.len() as int,
                *inputs,
            ),
            inputs.wf(),
            canonical_all(constants@),
            canonical_all(intermediates@),
            canonical(*previous_value),
        ensures
            canonical(r),
            val(r) == source_value(
                *self,
                row_scope(constants@, intermediates@, rotations@),
                inputs.env(|r: int| r, val(*previous_value)),
            ),
            match *self {
                ValueSource::Constant(i) => r == constants@[i as int],
                ValueSource::Intermediate(i) => r == intermediates@[i as int],
                ValueSource::Fixed(c, q) => {
                    let row = rotations@[q as int] as int;
                    r == inputs.fixed@[c as int].values@[row]
                },
                ValueSource::Advice(c, q) => {
                    let row = rotations@[q as int] as int;
                    r == inputs.advice@[c as int].values@[row]
                },
                ValueSource::Instance(c, q) => {
                    let row = rotations@[q as int] as int;
                    r == inputs.instance@[c as int].values@[row]
                },
                ValueSource::Challenge(i) => r == inputs.challenges@[i as int],
                ValueSource::Beta() => r == inputs.beta,
                ValueSource::Gamma() => r == inputs.gamma,
                ValueSource::Theta() => r == inputs.theta,
                ValueSource::Y() => r == inputs.y,
                ValueSource::PreviousValue() => r == *previous_value,
            },
    {
        match self {
            ValueSource::Constant(idx) => {
                assert(canonical(constants@[*idx as int]));
                constants[*idx]
            },
            ValueSource::Intermediate(idx) => {
                assert(canonical(intermediates@[*idx as int]));
                intermediates[*idx]
            },
            ValueSource::Fixed(column_index, rotation) => {
                assert(canonical_all(inputs.fixed@[*column_index as int].values@));
                inputs.fixed[*column_index].values[rotations[*rotation]]
            },
            ValueSource::Advice(column_index, rotation) => {
                assert(canonical_all(inputs.advice@[*column_index as int].values@));
                inputs.advice[*column_index].values[rotations[*rotation]]
            },
            ValueSource::Instance(column_index, rotation) => {
                assert(canonical_all(inputs.instance@[*column_index as int].values@));
                inputs.instance[*column_index].values[rotations[*rotation]]
            },
            ValueSource::Challenge(index) => {
                assert(canonical(inputs.challenges@[*index as int]));
                inputs.challenges[*index]
            },
            ValueSource::Beta() => inputs.beta,
            ValueSource::Gamma() => inputs.gamma,
            ValueSource::Theta() => inputs.theta,
            ValueSource::Y() => inputs.y,
            ValueSource::PreviousValue() => *previous_value,
        }
    }
}

impl Calculation {
    /// The result of the calculation.
    pub fn evaluate(
        &self,
        rotations: &[usize],
        constants: &[Fr],
        intermediates: &[Fr],
        inputs: &Inputs,
        previous_value: &Fr,
    ) -> (r: Fr)
        requires
            each_source(
                *self,
                |s: ValueSource|
                    source_readable(
                        s,
                        rotations@,
                        constants@.len() as int,
                        intermediates@.len() as int,
                        *inputs,
                    ),
            ),
            inputs.wf(),
            canonical_all(constants@),
            canonical_all(intermediates@),
            canonical(*previous_value),
        ensures
            canonical(r),
            val(r) == calc_value(
                *self,
                row_scope(constants@, intermediates@, rotations@),
                inputs.env(|r: int| r, val(*previous_value)),
            ),
    {
        let ghost p = |s: ValueSource|
            source_readable(
                s,
                rotations@,
                constants@.len() as int,
                intermediates@.len() as int,
                *inputs,
            );
        let ghost scope = row_scope(constants@, intermediates@, rotations@);
        let ghost env = inputs.env(|r: int| r, val(*previous_value));
        match self {
            Calculation::Add(a, b) => {
                assert(p(*a) && p(*b));
                let u = a.get(rotations, constants, intermediates, inputs, previous_value);
                let v = b.get(rotations, constants, intermediates, inputs, previous_value);
                fr_add(&u, &v)
            },
            Calculation::Sub(a, b) => {
                assert(p(*a) && p(*b));
                let u = a.get(rotations, constants, intermediates, inputs, previous_value);
                let v = b.get(rotations, constants, intermediates, inputs, previous_value);
                fr_sub(&u, &v)
            },
            Calculation::Mul(a, b) => {
                assert(p(*a) && p(*b));
                let u = a.get(rotations, constants, intermediates, inputs, previous_value);
                let v = b.get(rotations, constants, intermediates, inputs, previous_value);
                fr_mul(&u, &v)
            },
            Calculation::Square(v) => {
                assert(p(*v));
                let u = v.get(rotations, constants, intermediates, inputs, previous_value);
                fr_square(&u)
            },
            Calculation::Double(v) => {
                assert(p(*v));
                let u = v.get(rotations, constants, intermediates, inputs, previous_value);
                fr_double(&u)
            },
            Calculation::Negate(v) => {
                assert(p(*v));
                let u = v.get(rotations, constants, intermediates, inputs, previous_value);
                fr_neg(&u)
            },
            Calculation::Horner(start_value, parts, factor) => {
                assert(p(*start_value) && p(*factor));
                let f = factor.get(rotations, constants, intermediates, inputs, previous_value);
                let mut value = start_value.get(
                    rotations,
                    constants,
                    intermediates,
                    inputs,
                    previous_value,
                );
                let ghost start = val(value);
                let ghost values = source_values(parts@, scope, env);
                for i in 0..parts.len()
                    invariant
                        scope == row_scope(constants@, intermediates@, rotations@),
                        env == inputs.env(|r: int| r, val(*previous_value)),
                        values == source_values(parts@, scope, env),
                        p == (|s: ValueSource|
                            source_readable(
                                s,
                                rotations@,
                                constants@.len() as int,
                                intermediates@.len() as int,
                                *inputs,
                            )),
                        forall|j: int| 0 <= j < parts@.len() ==> p(#[trigger] parts@[j]),
                        inputs.wf(),
                        canonical_all(constants@),
                        canonical_all(intermediates@),
                        canonical(*previous_value),
                        canonical(f),
                        canonical(value),
                        val(value) == horner_value(start, values, val(f), i as nat),
                {
                    assert(p(parts@[i as int]));
                    let part = parts[i].get(
                        rotations,
                        constants,
                        intermediates,
                        inputs,
                        previous_value,
                    );
                    assert(val(part) == values[i as int]);
                    value = fr_add(&fr_mul(&value, &f), &part);
                }
                value
            },
            Calculation::Store(v) => {
                assert(p(*v));
                v.get(rotations, constants, intermediates, inputs, previous_value)
            },
        }
    }
}

/// Every calculation of the graph can be made on the given rows.
pub open spec fn graph_readable(g: GraphEvaluator, rows: Seq<usize>, inputs: Inputs) -> bool {
    forall|i: int|
        0 <= i < g.calculations@.len() ==> each_source(
            (#[trigger] g.calculations@[i]).calculation,
            |s: ValueSource|
                source_readable(
                    s,
                    rows,
                    g.constants@.len() as int,
                    g.calculations@.len() as int,
                    inputs,
                ),
        )
}

/// The rows that the graph's rotations lead to from a row.
pub open spec fn rotated_rows(
    g: GraphEvaluator,
    idx: int,
    rot_scale: int,
    isize: int,
) -> Seq<usize> {
    Seq::new(
        g.rotations@.len(),
        |i: int| rotated(idx, g.rotations@[i] as int, rot_scale, isize) as usize,
    )
}

/// What a row offers, in a domain of `isize` rows.
pub open spec fn row_env(
    inputs: Inputs,
    idx: int,
    rot_scale: int,
    isize: int,
    previous: int,
) -> Env {
    inputs.env(row_of(idx, rot_scale, isize), previous)
}

impl GraphEvaluator {
    /// Storage for an evaluation.
    pub fn instance(&self) -> (r: EvaluationData)
        ensures
            r.intermediates@.len() == self.num_intermediates,
            r.rotations@.len() == self.rotations@.len(),
            canonical_all(r.intermediates@),
            forall|i: int| 0 <= i < r.intermediates@.len() ==> val(#[trigger] r.intermediates@[i]) == 0,
            forall|i: int| 0 <= i < r.rotations@.len() ==> r.rotations@[i] == 0,
    {
        let intermediates = zeros(self.num_intermediates);
        let mut rotations: Vec<usize> = Vec::with_capacity(self.rotations.len());
        for i in 0..self.rotations.len()
            invariant
                rotations@.len() == i,
                forall|j: int| 0 <= j < i ==> rotations@[j] == 0,
        {
            rotations.push(0);
        }
        EvaluationData { intermediates, rotations }
    }

    /// Make every calculation for one row, keeping the results and the rotated rows in
    /// `data`, and return the last result, or zero if there is none.
    pub fn evaluate_row(
        &self,
        data: &mut EvaluationData,
        inputs: &Inputs,
        previous_value: &Fr,
        idx: usize,
        rot_scale: i32,
        isize: i32,
    ) -> (r: Fr)
        requires
            self.wf(),
            inputs.wf(),
            canonical(*previous_value),
            isize != 0,
            old(data).intermediates@.len() == self.num_intermediates,
            canonical_all(old(data).intermediates@),
            old(data).rotations@.len() == self.rotations@.len(),
            forall|i: int|
                0 <= i < self.rotations@.len() ==> rotation_fits(
                    idx as i32 as int,
                    #[trigger] self.rotations@[i] as int,
                    rot_scale as int,
                    isize as int,
                ),
            graph_readable(
                *self,
                rotated_rows(*self, idx as i32 as int, rot_scale as int, isize as int),
                *inputs,
            ),
        ensures
            canonical(r),
            val(r) == self.result(
                row_env(
                    *inputs,
                    idx as i32 as int,
                    rot_scale as int,
                    isize as int,
                    val(*previous_value),
                ),
            ),
            final(data).rotations@ == rotated_rows(
                *self,
                idx as i32 as int,
                rot_scale as int,
                isize as int,
            ),
            canonical_all(final(data).intermediates@),
            vals(final(data).intermediates@) == self.results(
                row_env(
                    *inputs,
                    idx as i32 as int,
                    rot_scale as int,
                    isize as int,
                    val(*previous_value),
                ),
                self.calculations@.len(),
            ),
    {
        let ghost at = idx as i32 as int;
        let ghost rows = rotated_rows(*self, at, rot_scale as int, isize as int);
        let ghost env = row_env(
            *inputs,
            at,
            rot_scale as int,
            isize as int,
            val(*previous_value),
        );
        for i in 0..self.rotations.len()
            invariant
                isize != 0,
                at == idx as i32 as int,
                rows == rotated_rows(*self, at, rot_scale as int, isize as int),
                data.rotations@.len() == self.rotations@.len(),
                data.intermediates == old(data).intermediates,
                forall|i: int|
                    0 <= i < self.rotations@.len() ==> rotation_fits(
                        at,
                        #[trigger] self.rotations@[i] as int,
                        rot_scale as int,
                        isize as int,
                    ),
                forall|j: int| 0 <= j < i ==> data.rotations@[j] == rows[j],
        {
            data.rotations[i] = get_rotation_idx(idx, self.rotations[i], rot_scale, isize);
        }
        assert(data.rotations@ =~= rows);
        let n = self.calculations.len();
        for i in 0..n
            invariant
                self.wf(),
                inputs.wf(),
                canonical(*previous_value),
                isize != 0,
                n == self.calculations@.len(),
                at == idx as i32 as int,
                forall|i: int|
                    0 <= i < self.rotations@.len() ==> rotation_fits(
                        at,
                        #[trigger] self.rotations@[i] as int,
                        rot_scale as int,
                        isize as int,
                    ),
                rows == rotated_rows(*self, at, rot_scale as int, isize as int),
                env == row_env(
                    *inputs,
                    at,
                    rot_scale as int,
                    isize as int,
                    val(*previous_value),
                ),
                graph_readable(*self, rows, *inputs),
                data.rotations@ == rows,
                data.intermediates@.len() == n,
                canonical_all(data.intermediates@),
                forall|j: int|
                    0 <= j < i ==> val(#[trigger] data.intermediates@[j]) == self.results(
                        env,
                        i as nat,
                    )[j],
        {
            let info = &self.calculations[i];
            let ghost before = data.intermediates@;
            let value = info.calculation.evaluate(
                data.rotations.as_slice(),
                self.constants.as_slice(),
                data.intermediates.as_slice(),
                inputs,
                previous_value,
            );
            data.intermediates[info.target] = value;
            proof {
                lemma_results_len(*self, env, i as nat);
                let earlier = self.results(env, i as nat);
                let id_env = inputs.env(|r: int| r, val(*previous_value));
                let rs = row_scope(self.constants@, before, rows);
                let gs = self.scope(earlier);
                let p = |s: ValueSource| self.knows(s, i as int);
                assert(each_source(info.calculation, p));
                assert forall|s: ValueSource| #[trigger] p(s) implies source_value(s, rs, id_env)
                    == source_value(s, gs, env) by {
                    lemma_row_source(
                        *self,
                        s,
                        before,
                        earlier,
                        *inputs,
                        at,
                        rot_scale as int,
                        isize as int,
                        val(*previous_value),
                    );
                }
                lemma_calc_congruent(info.calculation, p, rs, id_env, gs, env);
                assert(self.results(env, (i + 1) as nat) == earlier.push(val(value)));
            }
        }
        proof {
            lemma_results_len(*self, env, n as nat);
            assert(vals(data.intermediates@) =~= self.results(env, n as nat));
        }
        if n > 0 {
            let last = &self.calculations[n - 1];
            assert(canonical(data.intermediates@[n - 1]));
            data.intermediates[last.target]
        } else {
            fr_zero()
        }
    }

    /// Make every calculation for row `idx` of the given tables, and return the last result,
    /// or zero if there is none.
    pub fn evaluate(
        &self,
        data: &mut EvaluationData,
        fixed: &[Polynomial],
        advice: &[Polynomial],
        instance: &[Polynomial],
        challenges: &[Fr],
        beta: &Fr,
        gamma: &Fr,
        theta: &Fr,
        y: &Fr,
        previous_value: &Fr,
        idx: usize,
        rot_scale: i32,
        isize: i32,
    ) -> (r: Fr)
        requires
            self.wf(),
            ({
                let inputs = Inputs {
                    fixed,
                    advice,
                    instance,
                    challenges,
                    beta: *beta,
                    gamma: *gamma,
                    theta: *theta,
                    y: *y,
                };
                &&& inputs.wf()
                &&& graph_readable(
                    *self,
                    rotated_rows(*self, idx as i32 as int, rot_scale as int, isize as int),
                    inputs,
                )
            }),
            canonical(*previous_value),
            isize != 0,
            old(data).intermediates@.len() == self.num_intermediates,
            canonical_all(old(data).intermediates@),
            old(data).rotations@.len() == self.rotations@.len(),
            forall|i: int|
                0 <= i < self.rotations@.len() ==> rotation_fits(
                    idx as i32 as int,
                    #[trigger] self.rotations@[i] as int,
                    rot_scale as int,
                    isize as int,
                ),
        ensures
            canonical(r),
            ({
                let inputs = Inputs {
                    fixed,
                    advice,
                    instance,
                    challenges,
                    beta: *beta,
                    gamma: *gamma,
                    theta: *theta,
                    y: *y,
                };
                let env = row_env(
                    inputs,
                    idx as i32 as int,
                    rot_scale as int,
                    isize as int,
                    val(*previous_value),
                );
                &&& val(r) == self.result(env)
                &&& vals(final(data).intermediates@) == self.results(
                    env,
                    self.calculations@.len(),
                )
            }),
            final(data).rotations@ == rotated_rows(
                *self,
                idx as i32 as int,
                rot_scale as int,
                isize as int,
            ),
            canonical_all(final(data).intermediates@),
    {
        let inputs = Inputs {
            fixed,
            advice,
            instance,
            challenges,
            beta: *beta,
            gamma: *gamma,
            theta: *theta,
            y: *y,
        };
        self.evaluate_row(data, &inputs, previous_value, idx, rot_scale, isize)
    }
}

/// A source read through rows is the source read through rotations.
proof fn lemma_row_source(
    g: GraphEvaluator,
    s: ValueSource,
    held: Seq<Fr>,
    earlier: Seq<int>,
    inputs: Inputs,
    idx: int,
    rot_scale: int,
    isize: int,
    previous: int,
)
    requires
        isize != 0,
        g.knows(s, earlier.len() as int),
        earlier.len() <= held.len(),
        forall|j: int| 0 <= j < earlier.len() ==> val(#[trigger] held[j]) == earlier[j],
        -0x8000_0000 <= isize <= 0x7fff_ffff,
    ensures
        source_value(
            s,
            row_scope(g.constants@, held, rotated_rows(g, idx, rot_scale, isize)),
            inputs.env(|r: int| r, previous),
        ) == source_value(
            s,
            g.scope(earlier),
            row_env(inputs, idx, rot_scale, isize, previous),
        ),
{
    let rows = rotated_rows(g, idx, rot_scale, isize);
    assert forall|i: int| 0 <= i < rows.len() implies #[trigger] rows[i] as int == rotated(
        idx,
        g.rotations@[i] as int,
        rot_scale,
        isize,
    ) by {
        let a = idx + g.rotations@[i] * rot_scale;
        assert(0 <= a % isize && a % isize <= 0x8000_0000) by (nonlinear_arith)
            requires
                isize != 0,
                -0x8000_0000 <= isize <= 0x7fff_ffff,
        ;
    }
    match s {
        ValueSource::Intermediate(i) => {
            assert(val(held[i as int]) == earlier[i as int]);
        },
        _ => {},
    }
}

/// Two rows offer the same, as far as the graph looks.
pub open spec fn agree_on(g: GraphEvaluator, a: Env, b: Env) -> bool {
    &&& forall|i: int, c: int| #![trigger (a.fixed)(c, g.rotations@[i] as int)]
        0 <= i < g.rotations@.len() ==> (a.fixed)(c, g.rotations@[i] as int) == (b.fixed)(
            c,
            g.rotations@[i] as int,
        )
    &&& forall|i: int, c: int| #![trigger (a.advice)(c, g.rotations@[i] as int)]
        0 <= i < g.rotations@.len() ==> (a.advice)(c, g.rotations@[i] as int) == (b.advice)(
            c,
            g.rotations@[i] as int,
        )
    &&& forall|i: int, c: int| #![trigger (a.instance)(c, g.rotations@[i] as int)]
        0 <= i < g.rotations@.len() ==> (a.instance)(c, g.rotations@[i] as int) == (b.instance)(
            c,
            g.rotations@[i] as int,
        )
    &&& forall|i: int| #[trigger] (a.challenges)(i) == (b.challenges)(i)
    &&& a.beta == b.beta
    &&& a.gamma == b.gamma
    &&& a.theta == b.theta
    &&& a.y == b.y
    &&& a.previous == b.previous
}

/// A graph has the same results on rows that offer the same, as far as it looks.
pub proof fn law_results_local(g: GraphEvaluator, a: Env, b: Env, n: nat)
    requires
        g.wf(),
        agree_on(g, a, b),
        n <= g.calculations@.len(),
    ensures
        g.results(a, n) == g.results(b, n),
        n == g.calculations@.len() ==> g.result(a) == g.result(b),
    decreases n,
{
    if n > 0 {
        let m = (n - 1) as nat;
        law_results_local(g, a, b, m);
        lemma_results_len(g, a, m);
        let scope = g.scope(g.results(a, m));
        let c = g.calculations@[m as int].calculation;
        let p = |s: ValueSource| g.knows(s, m as int);
        assert(each_source(c, p));
        assert forall|s: ValueSource| #[trigger] p(s) implies source_value(s, scope, a)
            == source_value(s, scope, b) by {}
        lemma_calc_congruent(c, p, scope, a, scope, b);
    }
}

/// Every column has at least `n` rows.
pub open spec fn rows_at_least(columns: Seq<Polynomial>, n: int) -> bool {
    forall|c: int| 0 <= c < columns.len() ==> n <= (#[trigger] columns[c]).values@.len()
}

/// The bounds that tables set; every rotation is allowed.
pub open spec fn limits_of(inputs: Inputs) -> Limits {
    Limits {
        fixed: inputs.fixed@.len() as int,
        advice: inputs.advice@.len() as int,
        instance: inputs.instance@.len() as int,
        challenges: inputs.challenges@.len() as int,
        rotation: 0x8000_0000,
    }
}

/// Every rotation of a graph can be counted from each of `len` rows.
pub open spec fn graph_fits(g: GraphEvaluator, first: int, len: int, rot_scale: int) -> bool {
    forall|i: int|
        0 <= i < g.rotations@.len() ==> rotation_fits_all(
            first,
            len,
            #[trigger] g.rotations@[i] as int,
            rot_scale,
        )
}

/// A graph within the bounds of tables of at least `isize` rows can be evaluated on them.
pub proof fn lemma_readable(
    g: GraphEvaluator,
    inputs: Inputs,
    idx: int,
    rot_scale: int,
    isize: int,
)
    requires
        g.wf(),
        graph_within(g, limits_of(inputs)),
        0 < isize <= i32::MAX,
        rows_at_least(inputs.fixed@, isize),
        rows_at_least(inputs.advice@, isize),
        rows_at_least(inputs.instance@, isize),
    ensures
        graph_readable(g, rotated_rows(g, idx, rot_scale, isize), inputs),
{
    let lim = limits_of(inputs);
    let rows = rotated_rows(g, idx, rot_scale, isize);
    assert forall|i: int| 0 <= i < g.calculations@.len() implies each_source(
        (#[trigger] g.calculations@[i]).calculation,
        |s: ValueSource|
            source_readable(
                s,
                rows,
                g.constants@.len() as int,
                g.calculations@.len() as int,
                inputs,
            ),
    ) by {
        let c = g.calculations@[i].calculation;
        let p = |s: ValueSource| g.knows(s, i) && source_within(s, lim);
        let q = |s: ValueSource|
            source_readable(
                s,
                rows,
                g.constants@.len() as int,
                g.calculations@.len() as int,
                inputs,
            );
        assert(each_source(c, |s: ValueSource| g.knows(s, i)));
        assert(each_source(c, |s: ValueSource| source_within(s, lim)));
        lemma_each_source_both(
            c,
            |s: ValueSource| g.knows(s, i),
            |s: ValueSource| source_within(s, lim),
            p,
        );
        assert forall|s: ValueSource| #[trigger] p(s) implies q(s) by {
            assert forall|r: int| 0 <= r < rows.len() implies 0 <= #[trigger] rows[r] < isize by {
                lemma_mod_bound(idx + g.rotations@[r] * rot_scale, isize);
            }
        }
        lemma_each_source_weaken(c, p, q);
    }
}

proof fn lemma_each_source_both(
    c: Calculation,
    p: spec_fn(ValueSource) -> bool,
    q: spec_fn(ValueSource) -> bool,
    both: spec_fn(ValueSource) -> bool,
)
    requires
        each_source(c, p),
        each_source(c, q),
        forall|s: ValueSource| p(s) && q(s) ==> #[trigger] both(s),
    ensures
        each_source(c, both),
{
}

/// One shape begins with all that another holds.
pub open spec fn shape_prefix(a: GraphShape, b: GraphShape) -> bool {
    &&& a.constants.is_prefix_of(b.constants)
    &&& a.rotations.is_prefix_of(b.rotations)
    &&& a.calcs.is_prefix_of(b.calcs)
}

/// What a sequence holds, it holds at a first place.
proof fn lemma_first_exists<T>(s: Seq<T>, x: T, n: int)
    requires
        0 <= n < s.len(),
        s[n] == x,
    ensures
        first_at(s, x, first_of(s, x)),
    decreases n,
{
    if first_at(s, x, n) {
        lemma_first_of(s, x, n);
    } else {
        let j = choose|j: int| 0 <= j < n && s[j] == x;
        lemma_first_exists(s, x, j);
    }
}

/// Once an element is in, it stays at its place in every longer sequence.
proof fn lemma_with_stays<T>(s: Seq<T>, x: T, longer: Seq<T>)
    requires
        with(s, x).0.is_prefix_of(longer),
    ensures
        s.is_prefix_of(with(s, x).0),
        with(longer, x) == (longer, with(s, x).1),
{
    let (t, i) = with(s, x);
    if s.contains(x) {
        let n = choose|n: int| 0 <= n < s.len() && s[n] == x;
        lemma_first_exists(s, x, n);
    }
    assert(first_at(t, x, i));
    assert(first_at(longer, x, i)) by {
        assert forall|j: int| 0 <= j < i implies longer[j] != x by {
            assert(longer[j] == t[j]);
        }
    }
    lemma_first_of(longer, x, i);
}

/// A calculation stays as well.
proof fn lemma_calc_stays(g: GraphShape, c: CalcShape, later: GraphShape)
    requires
        shape_prefix(g.add_calc(c).0, later),
    ensures
        shape_prefix(g, g.add_calc(c).0),
        shape_prefix(g, later),
        later.add_calc(c) == (later, g.add_calc(c).1),
{
    lemma_with_stays(g.calcs, c, later.calcs);
}

/// So does an operation on two sources.
proof fn lemma_operation_stays(
    g: GraphShape,
    x: ValueSource,
    y: ValueSource,
    later: GraphShape,
)
    ensures
        shape_prefix(g.add_negation(x).0, later) ==> shape_prefix(g, g.add_negation(x).0)
            && shape_prefix(g, later) && later.add_negation(x) == (later, g.add_negation(x).1),
        shape_prefix(g.add_difference(x, y).0, later) ==> shape_prefix(g, g.add_difference(x, y).0)
            && shape_prefix(g, later) && later.add_difference(x, y) == (
            later,
            g.add_difference(x, y).1,
        ),
        shape_prefix(g.add_sum(x, y).0, later) ==> shape_prefix(g, g.add_sum(x, y).0)
            && shape_prefix(g, later) && later.add_sum(x, y) == (later, g.add_sum(x, y).1),
        shape_prefix(g.add_product(x, y).0, later) ==> shape_prefix(g, g.add_product(x, y).0)
            && shape_prefix(g, later) && later.add_product(x, y) == (
            later,
            g.add_product(x, y).1,
        ),
{
    assert forall|c: CalcShape| shape_prefix(
        (#[trigger] g.add_calc(c)).0,
        later,
    ) implies shape_prefix(g, g.add_calc(c).0) && shape_prefix(g, later) && later.add_calc(c) == (
        later,
        g.add_calc(c).1,
    ) by {
        lemma_calc_stays(g, c, later);
    }
}

proof fn lemma_prefix_trans(a: GraphShape, b: GraphShape, c: GraphShape)
    requires
        shape_prefix(a, b),
        shape_prefix(b, c),
    ensures
        shape_prefix(a, c),
{
}

/// What an expression needs of a graph is there once the expression has been added, whatever
/// is added later: adding it again changes nothing, and gives the same source.
pub proof fn law_added_once(g: GraphShape, e: ExpressionBack, later: GraphShape)
    requires
        shape_prefix(g.add_expression(e).0, later),
    ensures
        shape_prefix(g, g.add_expression(e).0),
        later.add_expression(e) == (later, g.add_expression(e).1),
    decreases e,
{
    match e {
        ExpressionBack::Constant(c) => {
            lemma_with_stays(g.constants, val(c), later.constants);
        },
        ExpressionBack::Var(VarBack::Query(q)) => {
            let r = q.rotation.0 as int;
            let (h, i) = g.add_rotation(r);
            let source = match q.column.column_type {
                Any::Fixed => ValueSource::Fixed(q.column.index, i as usize),
                Any::Advice => ValueSource::Advice(q.column.index, i as usize),
                Any::Instance => ValueSource::Instance(q.column.index, i as usize),
            };
            lemma_calc_stays(h, CalcShape::Store(source), later);
            lemma_with_stays(g.rotations, r, later.rotations);
        },
        ExpressionBack::Var(VarBack::Challenge(c)) => {
            lemma_calc_stays(g, CalcShape::Store(ValueSource::Challenge(c.index)), later);
        },
        ExpressionBack::Negated(a) => match *a {
            ExpressionBack::Constant(c) => {
                lemma_with_stays(g.constants, fneg(val(c)), later.constants);
            },
            _ => {
                let (h, x) = g.add_expression(*a);
                lemma_operation_stays(h, x, x, later);
                law_added_once(g, *a, later);
                lemma_prefix_trans(g, h, g.add_expression(e).0);
            },
        },
        ExpressionBack::Sum(a, b) => match *b {
            ExpressionBack::Negated(c) => {
                let (h, x) = g.add_expression(*a);
                let (k, y) = h.add_expression(*c);
                lemma_operation_stays(k, x, y, later);
                law_added_once(h, *c, later);
                lemma_prefix_trans(h, k, later);
                law_added_once(g, *a, later);
                lemma_prefix_trans(g, h, k);
                lemma_prefix_trans(g, k, g.add_expression(e).0);
            },
            _ => {
                let (h, x) = g.add_expression(*a);
                let (k, y) = h.add_expression(*b);
                lemma_operation_stays(k, x, y, later);
                law_added_once(h, *b, later);
                lemma_prefix_trans(h, k, later);
                law_added_once(g, *a, later);
                lemma_prefix_trans(g, h, k);
                lemma_prefix_trans(g, k, g.add_expression(e).0);
            },
        },
        ExpressionBack::Product(a, b) => {
            let (h, x) = g.add_expression(*a);
            let (k, y) = h.add_expression(*b);
            lemma_operation_stays(k, x, y, later);
            law_added_once(h, *b, later);
            lemma_prefix_trans(h, k, later);
            law_added_once(g, *a, later);
            lemma_prefix_trans(g, h, k);
            lemma_prefix_trans(g, k, g.add_expression(e).0);
        },
    }
}

} // verus!
