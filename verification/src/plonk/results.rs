//! What a graph of calculations computes, written out: the equation that each result meets, and
//! what the sources of a row are worth.

use vstd::arithmetic::div_mod::*;
use vstd::arithmetic::power::*;
use vstd::prelude::*;

use crate::field::{fadd, fmul, fneg, fsub, modulus, val, vals};
use crate::plonk::circuit::{elem, Any, Env, ExpressionBack, Inputs, VarBack};
use crate::plonk::folds::law_horner_is_sum;
use crate::plonk::graph::{
    calc_value, each_source, first_at, first_of, lemma_calc_congruent, lemma_each_source_weaken,
    lemma_first_of, lemma_results_elem, lemma_results_len, lemma_results_prefix,
    lemma_source_elem, rotated_rows, row_env, same_calc, source_le, source_readable, source_value,
    source_values, CalcShape, Calculation, GraphEvaluator, GraphShape, Scope, ValueSource,
};
use crate::sums::{lemma_sum_eq, sum};

verus! {

/// What each kind of source is worth: constants and results by their index, columns by their
/// index at the rotation that the source names, challenges by their index, and the single
/// values themselves.
pub proof fn law_source_value(s: ValueSource, scope: Scope, env: Env)
    ensures
        source_value(s, scope, env) == (match s {
            ValueSource::Constant(i) => scope.constants[i as int],
            ValueSource::Intermediate(i) => scope.results[i as int],
            ValueSource::Fixed(c, r) => (env.fixed)(c as int, scope.rotations[r as int]),
            ValueSource::Advice(c, r) => (env.advice)(c as int, scope.rotations[r as int]),
            ValueSource::Instance(c, r) => (env.instance)(c as int, scope.rotations[r as int]),
            ValueSource::Challenge(i) => (env.challenges)(i as int),
            ValueSource::Beta() => env.beta,
            ValueSource::Gamma() => env.gamma,
            ValueSource::Theta() => env.theta,
            ValueSource::Y() => env.y,
            ValueSource::PreviousValue() => env.previous,
        }),
{
}

/// What each kind of calculation gives, modulo the prime. Horner's rule gives its start and each
/// of its parts, however many there are, times a power of its factor.
pub proof fn law_calculation_value(c: Calculation, scope: Scope, env: Env)
    ensures
        ({
            let m = modulus();
            let v = |s: ValueSource| source_value(s, scope, env);
            match c {
                Calculation::Add(a, b) => calc_value(c, scope, env) == (v(a) + v(b)) % m,
                Calculation::Sub(a, b) => calc_value(c, scope, env) == (v(a) - v(b)) % m,
                Calculation::Mul(a, b) => calc_value(c, scope, env) == (v(a) * v(b)) % m,
                Calculation::Square(a) => calc_value(c, scope, env) == (v(a) * v(a)) % m,
                Calculation::Double(a) => calc_value(c, scope, env) == (2 * v(a)) % m,
                Calculation::Negate(a) => calc_value(c, scope, env) == (-v(a)) % m,
                Calculation::Horner(a, parts, f) => elem(v(a)) ==> calc_value(c, scope, env) == (
                v(a) * pow(v(f), parts@.len()) + sum(
                    |j: int| v(parts@[j]) * pow(v(f), (parts@.len() - 1 - j) as nat),
                    parts@.len(),
                )) % m,
                Calculation::Store(a) => calc_value(c, scope, env) == v(a),
            }
        }),
{
    reveal(fadd);
    reveal(fsub);
    reveal(fmul);
    reveal(fneg);
    if let Calculation::Horner(a, parts, f) = c {
        let v = |s: ValueSource| source_value(s, scope, env);
        let p = source_values(parts@, scope, env);
        let n = parts@.len();
        if elem(v(a)) {
            law_horner_is_sum(v(a), p, v(f), n);
            lemma_sum_eq(
                |j: int| p[j] * pow(v(f), (n - 1 - j) as nat),
                |j: int| v(parts@[j]) * pow(v(f), (parts@.len() - 1 - j) as nat),
                n,
            );
        }
    }
}

/// The results of a graph: one for each calculation, each what the calculation gives on the
/// graph's constants and rotations and on the other results. The graph's value is the last of
/// them, or zero if there is none.
pub proof fn law_graph_results(g: GraphEvaluator, env: Env, i: int)
    requires
        g.wf(),
        env.wf(),
        0 <= i < g.calculations@.len(),
    ensures
        ({
            let m = modulus();
            let results = g.results(env, g.calculations@.len());
            let v = |s: ValueSource|
                match s {
                    ValueSource::Constant(k) => val(g.constants@[k as int]),
                    ValueSource::Intermediate(k) => results[k as int],
                    ValueSource::Fixed(c, r) => (env.fixed)(
                        c as int,
                        g.rotations@[r as int] as int,
                    ),
                    ValueSource::Advice(c, r) => (env.advice)(
                        c as int,
                        g.rotations@[r as int] as int,
                    ),
                    ValueSource::Instance(c, r) => (env.instance)(
                        c as int,
                        g.rotations@[r as int] as int,
                    ),
                    ValueSource::Challenge(k) => (env.challenges)(k as int),
                    ValueSource::Beta() => env.beta,
                    ValueSource::Gamma() => env.gamma,
                    ValueSource::Theta() => env.theta,
                    ValueSource::Y() => env.y,
                    ValueSource::PreviousValue() => env.previous,
                };
            &&& results.len() == g.calculations@.len()
            &&& g.result(env) == results[g.calculations@.len() - 1]
            &&& match g.calculations@[i].calculation {
                Calculation::Add(a, b) => results[i] == (v(a) + v(b)) % m,
                Calculation::Sub(a, b) => results[i] == (v(a) - v(b)) % m,
                Calculation::Mul(a, b) => results[i] == (v(a) * v(b)) % m,
                Calculation::Square(a) => results[i] == (v(a) * v(a)) % m,
                Calculation::Double(a) => results[i] == (2 * v(a)) % m,
                Calculation::Negate(a) => results[i] == (-v(a)) % m,
                Calculation::Horner(a, parts, f) => results[i] == (v(a) * pow(
                    v(f),
                    parts@.len(),
                ) + sum(
                    |j: int| v(parts@[j]) * pow(v(f), (parts@.len() - 1 - j) as nat),
                    parts@.len(),
                )) % m,
                Calculation::Store(a) => results[i] == v(a),
            }
        }),
{
    let n = g.calculations@.len();
    let results = g.results(env, n);
    let scope = g.scope(results);
    let c = g.calculations@[i].calculation;
    let v = |s: ValueSource|
        match s {
            ValueSource::Constant(k) => val(g.constants@[k as int]),
            ValueSource::Intermediate(k) => results[k as int],
            ValueSource::Fixed(c, r) => (env.fixed)(c as int, g.rotations@[r as int] as int),
            ValueSource::Advice(c, r) => (env.advice)(c as int, g.rotations@[r as int] as int),
            ValueSource::Instance(c, r) => (env.instance)(c as int, g.rotations@[r as int] as int),
            ValueSource::Challenge(k) => (env.challenges)(k as int),
            ValueSource::Beta() => env.beta,
            ValueSource::Gamma() => env.gamma,
            ValueSource::Theta() => env.theta,
            ValueSource::Y() => env.y,
            ValueSource::PreviousValue() => env.previous,
        };
    lemma_results_len(g, env, n);
    lemma_results_prefix(g, env, i as nat, n);
    lemma_results_prefix(g, env, (i + 1) as nat, n);
    let earlier = g.results(env, i as nat);
    assert(results[i] == g.results(env, (i + 1) as nat)[i]);
    let p = |s: ValueSource| g.knows(s, i);
    assert(each_source(c, p));
    assert forall|s: ValueSource| #[trigger] p(s) implies source_value(s, g.scope(earlier), env)
        == source_value(s, scope, env) by {
        if let ValueSource::Intermediate(k) = s {
            assert(earlier[k as int] == results[k as int]);
        }
    }
    lemma_calc_congruent(c, p, g.scope(earlier), env, scope, env);
    law_calculation_value(c, scope, env);
    lemma_results_elem(g, env, n);
    assert forall|s: ValueSource| #[trigger] p(s) implies v(s) == source_value(s, scope, env)
        && elem(v(s)) by {
        lemma_source_elem(g, s, results, env);
        law_source_value(s, scope, env);
    }
    match c {
        Calculation::Add(a, b) => {
            assert(p(a) && p(b));
        },
        Calculation::Sub(a, b) => {
            assert(p(a) && p(b));
        },
        Calculation::Mul(a, b) => {
            assert(p(a) && p(b));
        },
        Calculation::Square(a) => {
            assert(p(a));
        },
        Calculation::Double(a) => {
            assert(p(a));
        },
        Calculation::Negate(a) => {
            assert(p(a));
        },
        Calculation::Horner(a, parts, f) => {
            assert(p(a) && p(f));
            let w = |s: ValueSource| source_value(s, scope, env);
            lemma_sum_eq(
                |j: int| w(parts@[j]) * pow(w(f), (parts@.len() - 1 - j) as nat),
                |j: int| v(parts@[j]) * pow(v(f), (parts@.len() - 1 - j) as nat),
                parts@.len(),
            );
        },
        Calculation::Store(a) => {
            assert(p(a));
        },
    }
}

/// A graph without calculations gives zero.
pub proof fn law_empty_graph(g: GraphEvaluator, env: Env)
    requires
        g.calculations@.len() == 0,
    ensures
        g.result(env) == 0,
{
}

/// What a row of tables offers to a graph: each column at the row that the rotation leads to,
/// around a domain of `isize` rows, and the values that every row shares.
pub proof fn law_row_env(
    inputs: Inputs,
    idx: int,
    rot: int,
    rot_scale: int,
    isize: int,
    previous: int,
    c: int,
)
    requires
        0 < isize,
    ensures
        ({
            let env = row_env(inputs, idx, rot_scale, isize, previous);
            let row = (idx + rot * rot_scale) % isize;
            &&& 0 <= c < inputs.fixed@.len() && row < inputs.fixed@[c].values@.len() ==> (
            env.fixed)(c, rot) == val(inputs.fixed@[c].values@[row])
            &&& 0 <= c < inputs.advice@.len() && row < inputs.advice@[c].values@.len() ==> (
            env.advice)(c, rot) == val(inputs.advice@[c].values@[row])
            &&& 0 <= c < inputs.instance@.len() && row < inputs.instance@[c].values@.len() ==> (
            env.instance)(c, rot) == val(inputs.instance@[c].values@[row])
            &&& 0 <= c < inputs.challenges@.len() ==> (env.challenges)(c) == val(
                inputs.challenges@[c],
            )
            &&& env.beta == val(inputs.beta)
            &&& env.gamma == val(inputs.gamma)
            &&& env.theta == val(inputs.theta)
            &&& env.y == val(inputs.y)
            &&& env.previous == previous
        }),
{
    lemma_mod_bound(idx + rot * rot_scale, isize);
    let t = inputs.tables();
    if 0 <= c < inputs.fixed@.len() {
        assert(t.fixed[c] == vals(inputs.fixed@[c].values@));
    }
    if 0 <= c < inputs.advice@.len() {
        assert(t.advice[c] == vals(inputs.advice@[c].values@));
    }
    if 0 <= c < inputs.instance@.len() {
        assert(t.instance[c] == vals(inputs.instance@[c].values@));
    }
}

/// The order of sources is total: any two compare, no two different ones both ways, and the
/// order carries over.
pub proof fn law_sources_are_ordered(a: ValueSource, b: ValueSource, c: ValueSource)
    ensures
        source_le(a, b) || source_le(b, a),
        source_le(a, b) && source_le(b, a) ==> a == b,
        source_le(a, b) && source_le(b, c) ==> source_le(a, c),
{
}

/// Sources are ordered by kind, and those of one kind by their first index and then the second.
pub proof fn law_source_order(i: usize, j: usize, k: usize, l: usize)
    ensures
        source_le(ValueSource::Constant(i), ValueSource::Constant(k)) == (i <= k),
        source_le(ValueSource::Intermediate(i), ValueSource::Intermediate(k)) == (i <= k),
        source_le(ValueSource::Fixed(i, j), ValueSource::Fixed(k, l)) == (i < k || (i == k && j
            <= l)),
        source_le(ValueSource::Advice(i, j), ValueSource::Advice(k, l)) == (i < k || (i == k && j
            <= l)),
        source_le(ValueSource::Instance(i, j), ValueSource::Instance(k, l)) == (i < k || (i == k
            && j <= l)),
        source_le(ValueSource::Challenge(i), ValueSource::Challenge(k)) == (i <= k),
        source_le(ValueSource::Constant(i), ValueSource::Intermediate(k)),
        source_le(ValueSource::Intermediate(i), ValueSource::Fixed(k, l)),
        source_le(ValueSource::Fixed(i, j), ValueSource::Advice(k, l)),
        source_le(ValueSource::Advice(i, j), ValueSource::Instance(k, l)),
        source_le(ValueSource::Instance(i, j), ValueSource::Challenge(k)),
        source_le(ValueSource::Challenge(i), ValueSource::Beta()),
        source_le(ValueSource::Beta(), ValueSource::Gamma()),
        source_le(ValueSource::Gamma(), ValueSource::Theta()),
        source_le(ValueSource::Theta(), ValueSource::Y()),
        source_le(ValueSource::Y(), ValueSource::PreviousValue()),
{
}

/// Sums and products do not depend on the order of their operands: either way it is the same
/// calculation. Zero and one are simplified away, doubles and squares are recognised, and
/// nothing else is.
pub proof fn law_operations(g: GraphShape, x: ValueSource, y: ValueSource)
    ensures
        ({
            let zero = ValueSource::Constant(0);
            let one = ValueSource::Constant(1);
            let two = ValueSource::Constant(2);
            &&& g.add_sum(x, y) == g.add_sum(y, x)
            &&& g.add_product(x, y) == g.add_product(y, x)
            &&& g.add_sum(x, zero) == (g, x)
            &&& g.add_product(x, zero) == (g, zero)
            &&& g.add_product(x, one) == (g, x)
            &&& g.add_difference(x, zero) == (if x == zero {
                g.add_calc(CalcShape::Negate(zero))
            } else {
                (g, x)
            })
            &&& g.add_difference(zero, y) == g.add_calc(CalcShape::Negate(y))
            &&& g.add_negation(zero) == (g, zero)
            &&& x != zero ==> g.add_negation(x) == g.add_calc(CalcShape::Negate(x))
            &&& x != zero && y != zero ==> {
                &&& g.add_difference(x, y) == g.add_calc(CalcShape::Sub(x, y))
                &&& g.add_sum(x, y) == g.add_calc(CalcShape::Add(x, y)) || g.add_sum(x, y)
                    == g.add_calc(CalcShape::Add(y, x))
            }
            &&& x != zero && x != one ==> g.add_product(x, two) == g.add_calc(CalcShape::Double(x))
            &&& x != zero && x != one && x != two ==> {
                &&& g.add_product(x, x) == g.add_calc(CalcShape::Square(x))
                &&& y != zero && y != one && y != two && y != x ==> g.add_product(x, y)
                    == g.add_calc(CalcShape::Mul(x, y)) || g.add_product(x, y) == g.add_calc(
                    CalcShape::Mul(y, x),
                )
            }
        }),
{
}

/// A calculation that a graph holds already is not made again: the graph stays as it is, and
/// the first place that holds it is the source. Another one goes to the end.
pub proof fn law_calculation_added(g: GraphShape, c: CalcShape)
    requires
        g.calcs.len() <= usize::MAX,
    ensures
        ({
            let (h, s) = g.add_calc(c);
            &&& h.constants == g.constants
            &&& h.rotations == g.rotations
            &&& h.add_calc(c) == (h, s)
            &&& g.calcs.contains(c) ==> h == g
            &&& !g.calcs.contains(c) ==> h.calcs == g.calcs.push(c) && s
                == ValueSource::Intermediate(g.calcs.len() as usize)
        }),
{
    let (h, s) = g.add_calc(c);
    if !g.calcs.contains(c) {
        let n = g.calcs.len() as int;
        assert(h.calcs[n] == c);
        assert(first_at(h.calcs, c, n)) by {
            assert forall|j: int| 0 <= j < n implies h.calcs[j] != c by {
                assert(g.calcs.contains(g.calcs[j]));
            }
        }
        lemma_first_of(h.calcs, c, n);
    }
}

/// What the sources of a graph refer to: its own constants and rotations, and the results.
pub proof fn law_scope(g: GraphEvaluator, results: Seq<int>, i: int)
    ensures
        g.scope(results).results == results,
        g.scope(results).constants.len() == g.constants@.len(),
        g.scope(results).rotations.len() == g.rotations@.len(),
        0 <= i < g.constants@.len() ==> g.scope(results).constants[i] == val(g.constants@[i]),
        0 <= i < g.rotations@.len() ==> g.scope(results).rotations[i] == g.rotations@[i],
{
}

/// The value of a source once every calculation is made.
pub proof fn law_value(g: GraphEvaluator, s: ValueSource, env: Env)
    requires
        g.knows(s, g.calculations@.len() as int),
    ensures
        g.value(s, env) == (match s {
            ValueSource::Constant(k) => val(g.constants@[k as int]),
            ValueSource::Intermediate(k) => g.results(env, g.calculations@.len())[k as int],
            ValueSource::Fixed(c, r) => (env.fixed)(c as int, g.rotations@[r as int] as int),
            ValueSource::Advice(c, r) => (env.advice)(c as int, g.rotations@[r as int] as int),
            ValueSource::Instance(c, r) => (env.instance)(c as int, g.rotations@[r as int] as int),
            ValueSource::Challenge(k) => (env.challenges)(k as int),
            ValueSource::Beta() => env.beta,
            ValueSource::Gamma() => env.gamma,
            ValueSource::Theta() => env.theta,
            ValueSource::Y() => env.y,
            ValueSource::PreviousValue() => env.previous,
        }),
{
}

/// The rows that a graph's rotations lead to, one for each rotation, around the domain.
pub proof fn law_rotated_rows(g: GraphEvaluator, idx: int, rot_scale: int, isize: int, i: int)
    requires
        0 < isize <= i32::MAX,
        0 <= i < g.rotations@.len(),
    ensures
        rotated_rows(g, idx, rot_scale, isize).len() == g.rotations@.len(),
        rotated_rows(g, idx, rot_scale, isize)[i] == (idx + g.rotations@[i] * rot_scale) % isize,
{
    lemma_mod_bound(idx + g.rotations@[i] * rot_scale, isize);
}

/// Two calculations are the same exactly when they are of one kind, on the same sources.
pub proof fn law_same_calculation(a: Calculation, b: Calculation)
    ensures
        same_calc(a, a),
        same_calc(a, b) == same_calc(b, a),
        same_calc(a, b) ==> {
            &&& (a is Add) == (b is Add)
            &&& (a is Sub) == (b is Sub)
            &&& (a is Mul) == (b is Mul)
            &&& (a is Square) == (b is Square)
            &&& (a is Double) == (b is Double)
            &&& (a is Negate) == (b is Negate)
            &&& (a is Horner) == (b is Horner)
            &&& (a is Store) == (b is Store)
        },
        a is Horner && b is Horner ==> same_calc(a, b) == (a->Horner_0 == b->Horner_0
            && a->Horner_1@ == b->Horner_1@ && a->Horner_2 == b->Horner_2),
        !(a is Horner) ==> same_calc(a, b) == (a == b),
{
}

/// What a graph in order keeps to: it begins with the constants 0, 1 and 2; each calculation is
/// kept under its own place, is like no other, and uses only constants and rotations of the
/// graph and results of earlier calculations.
pub proof fn law_graph_in_order(g: GraphEvaluator, i: int, j: int)
    requires
        g.wf(),
        0 <= i < g.calculations@.len(),
        0 <= j < g.calculations@.len(),
    ensures
        g.constants@.len() >= 3,
        val(g.constants@[0]) == 0 && val(g.constants@[1]) == 1 && val(g.constants@[2]) == 2,
        g.num_intermediates == g.calculations@.len(),
        g.calculations@[i].target == i,
        i != j ==> !same_calc(g.calculations@[i].calculation, g.calculations@[j].calculation),
        each_source(
            g.calculations@[i].calculation,
            |s: ValueSource|
                match s {
                    ValueSource::Constant(k) => k < g.constants@.len(),
                    ValueSource::Intermediate(k) => k < i,
                    ValueSource::Fixed(_, r) => r < g.rotations@.len(),
                    ValueSource::Advice(_, r) => r < g.rotations@.len(),
                    ValueSource::Instance(_, r) => r < g.rotations@.len(),
                    _ => true,
                },
        ),
{
    let p = |s: ValueSource| g.knows(s, i);
    let q = |s: ValueSource|
        match s {
            ValueSource::Constant(k) => k < g.constants@.len(),
            ValueSource::Intermediate(k) => k < i,
            ValueSource::Fixed(_, r) => r < g.rotations@.len(),
            ValueSource::Advice(_, r) => r < g.rotations@.len(),
            ValueSource::Instance(_, r) => r < g.rotations@.len(),
            _ => true,
        };
    assert(each_source(g.calculations@[i].calculation, p));
    lemma_each_source_weaken(g.calculations@[i].calculation, p, q);
    law_same_calculation(g.calculations@[i].calculation, g.calculations@[j].calculation);
}

/// How an expression is added: operands first, left to right, then the operation on their
/// sources. A difference is a sum with a negation on its right; the negation of a constant is
/// a constant.
pub proof fn law_expression_added(g: GraphShape, e: ExpressionBack)
    ensures
        match e {
            ExpressionBack::Constant(c) => g.add_expression(e) == g.add_constant(val(c)),
            ExpressionBack::Var(VarBack::Challenge(c)) => g.add_expression(e) == g.add_calc(
                CalcShape::Store(ValueSource::Challenge(c.index)),
            ),
            ExpressionBack::Var(VarBack::Query(q)) => {
                let (h, i) = g.add_rotation(q.rotation.0 as int);
                let source = match q.column.column_type {
                    Any::Fixed => ValueSource::Fixed(q.column.index, i as usize),
                    Any::Advice => ValueSource::Advice(q.column.index, i as usize),
                    Any::Instance => ValueSource::Instance(q.column.index, i as usize),
                };
                g.add_expression(e) == h.add_calc(CalcShape::Store(source))
            },
            ExpressionBack::Negated(a) => match *a {
                ExpressionBack::Constant(c) => g.add_expression(e) == g.add_constant(
                    (-val(c)) % modulus(),
                ),
                _ => {
                    let (h, x) = g.add_expression(*a);
                    g.add_expression(e) == h.add_negation(x)
                },
            },
            ExpressionBack::Sum(a, b) => {
                let (h, x) = g.add_expression(*a);
                match *b {
                    ExpressionBack::Negated(c) => {
                        let (k, y) = h.add_expression(*c);
                        g.add_expression(e) == k.add_difference(x, y)
                    },
                    _ => {
                        let (k, y) = h.add_expression(*b);
                        g.add_expression(e) == k.add_sum(x, y)
                    },
                }
            },
            ExpressionBack::Product(a, b) => {
                let (h, x) = g.add_expression(*a);
                let (k, y) = h.add_expression(*b);
                g.add_expression(e) == k.add_product(x, y)
            },
        },
{
    reveal(fneg);
}

/// A constant or a rotation that a graph holds already is not added again; another one goes to
/// the end.
pub proof fn law_constants_and_rotations_added(g: GraphShape, v: int, r: int)
    ensures
        ({
            let (h, s) = g.add_constant(v);
            let (k, i) = g.add_rotation(r);
            &&& h.rotations == g.rotations && h.calcs == g.calcs
            &&& k.constants == g.constants && k.calcs == g.calcs
            &&& g.constants.contains(v) ==> h == g
            &&& !g.constants.contains(v) ==> h.constants == g.constants.push(v) && s
                == ValueSource::Constant(g.constants.len() as usize)
            &&& g.rotations.contains(r) ==> k == g && 0 <= i < g.rotations.len()
                && g.rotations[i] == r
            &&& !g.rotations.contains(r) ==> k.rotations == g.rotations.push(r) && i
                == g.rotations.len()
        }),
{
    if g.rotations.contains(r) {
        lemma_first_exists(g.rotations, r, 0);
    }
}

/// What occurs in a sequence occurs somewhere first.
proof fn lemma_first_exists(s: Seq<int>, x: int, from: int)
    requires
        0 <= from <= s.len(),
        s.contains(x),
        forall|j: int| 0 <= j < from ==> s[j] != x,
    ensures
        first_at(s, x, first_of(s, x)),
    decreases s.len() - from,
{
    let at = choose|i: int| 0 <= i < s.len() && s[i] == x;
    if from < s.len() && s[from] == x {
        assert(first_at(s, x, from));
    } else {
        assert(at >= from);
        lemma_first_exists(s, x, from + 1);
    }
}

/// What a source needs to be read: the constant, the result, the column with the row, or the
/// challenge that it names.
pub proof fn law_source_readable(
    s: ValueSource,
    rows: Seq<usize>,
    constants: int,
    results: int,
    inputs: Inputs,
)
    ensures
        source_readable(s, rows, constants, results, inputs) == (match s {
            ValueSource::Constant(i) => i < constants,
            ValueSource::Intermediate(i) => i < results,
            ValueSource::Fixed(c, r) => r < rows.len() && c < inputs.fixed@.len() && rows[r as int]
                < inputs.fixed@[c as int].values@.len(),
            ValueSource::Advice(c, r) => r < rows.len() && c < inputs.advice@.len()
                && rows[r as int] < inputs.advice@[c as int].values@.len(),
            ValueSource::Instance(c, r) => r < rows.len() && c < inputs.instance@.len()
                && rows[r as int] < inputs.instance@[c as int].values@.len(),
            ValueSource::Challenge(i) => i < inputs.challenges@.len(),
            _ => true,
        }),
{
}

} // verus!
