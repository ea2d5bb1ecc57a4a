//! What folding by powers amounts to: Horner's rule as a sum of powers, for the gates, the
//! compressed expressions of lookups and shuffles, and the fingerprint.

use vstd::arithmetic::div_mod::*;
use vstd::arithmetic::mul::*;
use vstd::arithmetic::power::*;
use vstd::prelude::*;

use crate::field::{fadd, fmul, lemma_field_ranges, lemma_modulus_bounds, modulus};
use crate::four_step::lemma_mul_congruent;
use crate::plonk::circuit::{elem, expr_value, Env, ExpressionBack};
use crate::plonk::evaluation::fingerprint_value;
use crate::plonk::evaluator::{
    compressed, expr_values, gate_polys, gates_value, lookup_value, shuffle_value,
    ConstraintSystemBack, Evaluator, GateBack,
};
use crate::plonk::graph::horner_value;
use crate::plonk::quotient::delta;
use crate::sums::{lemma_sum_eq, lemma_sum_scale, sum};

verus! {

/// Horner's rule, up to multiples of the prime.
proof fn lemma_horner_congruent(start: int, parts: Seq<int>, y: int, n: nat)
    ensures
        horner_value(start, parts, y, n) % modulus() == (start * pow(y, n) + sum(
            |j: int| parts[j] * pow(y, (n - 1 - j) as nat),
            n,
        )) % modulus(),
    decreases n,
{
    let m = modulus();
    lemma_modulus_bounds();
    let f = |j: int| parts[j] * pow(y, (n - 1 - j) as nat);
    if n == 0 {
        lemma_pow0(y);
    } else {
        let k = (n - 1) as nat;
        let h = horner_value(start, parts, y, k);
        let g = |j: int| parts[j] * pow(y, (k - 1 - j) as nat);
        lemma_horner_congruent(start, parts, y, k);
        let raw = start * pow(y, k) + sum(g, k);
        // The earlier terms move up by one power.
        assert forall|j: int| 0 <= j < k implies #[trigger] f(j) == (|j: int| y * g(j))(j) by {
            reveal(pow);
            assert((n - 1 - j) as nat == (k - 1 - j) as nat + 1);
            assert(pow(y, (n - 1 - j) as nat) == y * pow(y, (k - 1 - j) as nat));
            let q = pow(y, (k - 1 - j) as nat);
            assert(parts[j] * (y * q) == y * (parts[j] * q)) by (nonlinear_arith);
        }
        lemma_sum_eq(f, |j: int| y * g(j), k);
        lemma_sum_scale(g, y, k);
        assert(sum(f, n) == sum(f, k) + f(k as int));
        lemma_pow0(y);
        assert(f(k as int) == parts[k as int]);
        assert(pow(y, n) == y * pow(y, k)) by {
            reveal(pow);
        }
        let p = pow(y, k);
        assert(start * (y * p) + y * sum(g, k) == y * (start * p + sum(g, k)))
            by (nonlinear_arith);
        assert(start * pow(y, n) + sum(f, n) == y * raw + parts[k as int]);
        // Up to multiples of the prime, so does the value.
        reveal(fadd);
        reveal(fmul);
        lemma_mul_congruent(h, raw, y, y, m);
        lemma_mul_is_commutative(raw, y);
        lemma_add_mod_noop(h * y, parts[k as int], m);
        lemma_add_mod_noop((h * y) % m, parts[k as int], m);
        lemma_mod_twice(h * y, m);
        lemma_add_mod_noop(y * raw, parts[k as int], m);
        lemma_mod_twice((h * y) % m + parts[k as int], m);
    }
}

/// Horner's rule folds a start and `n` parts into a sum of powers.
pub proof fn law_horner_is_sum(start: int, parts: Seq<int>, y: int, n: nat)
    requires
        elem(start),
    ensures
        horner_value(start, parts, y, n) == (start * pow(y, n) + sum(
            |j: int| parts[j] * pow(y, (n - 1 - j) as nat),
            n,
        )) % modulus(),
{
    lemma_horner_congruent(start, parts, y, n);
    lemma_field_ranges();
    let h = horner_value(start, parts, y, n);
    assert(elem(h));
    lemma_small_mod(h as nat, modulus() as nat);
}

/// The compressed value of `n` expressions is `Sum_i e_i * theta^(n - 1 - i)`.
pub proof fn law_compressed(e: Seq<ExpressionBack>, env: Env)
    ensures
        compressed(e, env) == sum(
            |i: int| expr_value(e[i], env) * pow(env.theta, (e.len() - 1 - i) as nat),
            e.len(),
        ) % modulus(),
{
    let n = e.len();
    let v = expr_values(e, env);
    lemma_modulus_bounds();
    law_horner_is_sum(0, v, env.theta, n);
    lemma_mul_basics(pow(env.theta, n));
    lemma_sum_eq(
        |j: int| v[j] * pow(env.theta, (n - 1 - j) as nat),
        |i: int| expr_value(e[i], env) * pow(env.theta, (e.len() - 1 - i) as nat),
        n,
    );
}

/// One more expression multiplies the compressed value by theta and adds the expression's
/// value.
pub proof fn law_compressed_append(e: Seq<ExpressionBack>, x: ExpressionBack, env: Env)
    ensures
        compressed(e.push(x), env) == (compressed(e, env) * env.theta + expr_value(x, env))
            % modulus(),
{
    let n = e.len();
    let v = expr_values(e, env);
    let w = expr_values(e.push(x), env);
    lemma_modulus_bounds();
    assert forall|i: int| 0 <= i < n implies w[i] == v[i] by {
        assert(e.push(x)[i] == e[i]);
    }
    assert(e.push(x)[n as int] == x);
    lemma_horner_prefix(0, w, v, env.theta, n);
    assert(horner_value(0, w, env.theta, n + 1) == fadd(
        fmul(horner_value(0, w, env.theta, n), env.theta),
        w[n as int],
    ));
    reveal(fadd);
    reveal(fmul);
    let a = compressed(e, env) * env.theta;
    lemma_add_mod_noop(a, expr_value(x, env), modulus());
    lemma_add_mod_noop(a % modulus(), expr_value(x, env), modulus());
    lemma_mod_twice(a, modulus());
}

/// Horner's rule looks only at the parts that it folds in.
pub proof fn lemma_horner_prefix(start: int, a: Seq<int>, b: Seq<int>, y: int, n: nat)
    requires
        forall|i: int| 0 <= i < n ==> #[trigger] a[i] == b[i],
    ensures
        horner_value(start, a, y, n) == horner_value(start, b, y, n),
    decreases n,
{
    if n > 0 {
        lemma_horner_prefix(start, a, b, y, (n - 1) as nat);
        assert(a[n - 1] == b[n - 1]);
    }
}

/// What a value weighs that gates are folded into, and what each of the gates weighs.
pub proof fn law_gates(gates: Seq<GateBack>, env: Env)
    requires
        elem(env.previous),
    ensures
        gates_value(gates, env) == (env.previous * pow(env.y, gates.len()) + sum(
            |i: int| expr_value(gates[i].poly, env) * pow(env.y, (gates.len() - 1 - i) as nat),
            gates.len(),
        )) % modulus(),
{
    let n = gates.len();
    let v = expr_values(gate_polys(gates), env);
    law_horner_is_sum(env.previous, v, env.y, n);
    lemma_sum_eq(
        |j: int| v[j] * pow(env.y, (n - 1 - j) as nat),
        |i: int| expr_value(gates[i].poly, env) * pow(env.y, (gates.len() - 1 - i) as nat),
        n,
    );
}

/// The graph of a system's gates gives, at every row, the previous value and each of the gates,
/// however many there are, times its power of `y`.
pub proof fn law_gates_graph(ev: Evaluator, cs: ConstraintSystemBack, env: Env)
    requires
        ev.computes(cs),
        env.wf(),
    ensures
        ev.custom_gates.result(env) == (env.previous * pow(env.y, cs.gates@.len()) + sum(
            |i: int|
                expr_value(cs.gates@[i].poly, env) * pow(
                    env.y,
                    (cs.gates@.len() - 1 - i) as nat,
                ),
            cs.gates@.len(),
        )) % modulus(),
{
    law_gates(cs.gates@, env);
    let g = cs.gates@;
    lemma_sum_eq(
        |i: int| expr_value(g[i].poly, env) * pow(env.y, (g.len() - 1 - i) as nat),
        |i: int|
            expr_value(cs.gates@[i].poly, env) * pow(env.y, (cs.gates@.len() - 1 - i) as nat),
        g.len(),
    );
}

/// The graph of a lookup gives `(a + beta) * (s + gamma)`, with `a` the sum of all the input
/// expressions, each times its power of theta, and `s` that of all the table expressions.
pub proof fn law_lookup_graph(ev: Evaluator, cs: ConstraintSystemBack, env: Env, n: int)
    requires
        ev.computes(cs),
        env.wf(),
        0 <= n < cs.lookups@.len(),
    ensures
        ({
            let input = cs.lookups@[n].input_expressions@;
            let table = cs.lookups@[n].table_expressions@;
            let a = sum(
                |i: int| expr_value(input[i], env) * pow(env.theta, (input.len() - 1 - i) as nat),
                input.len(),
            );
            let s = sum(
                |i: int| expr_value(table[i], env) * pow(env.theta, (table.len() - 1 - i) as nat),
                table.len(),
            );
            ev.lookups@[n].result(env) == ((a + env.beta) * (s + env.gamma)) % modulus()
        }),
{
    let input = cs.lookups@[n].input_expressions@;
    let table = cs.lookups@[n].table_expressions@;
    lemma_lookup_value(cs, n, env);
    assert(ev.lookups@[n].result(env) == lookup_value(cs.lookups@[n], env));
}

/// The value of a lookup's expressions, as sums of powers.
pub proof fn lemma_lookup_value(cs: ConstraintSystemBack, n: int, env: Env)
    ensures
        ({
            let input = cs.lookups@[n].input_expressions@;
            let table = cs.lookups@[n].table_expressions@;
            let a = sum(
                |i: int| expr_value(input[i], env) * pow(env.theta, (input.len() - 1 - i) as nat),
                input.len(),
            );
            let s = sum(
                |i: int| expr_value(table[i], env) * pow(env.theta, (table.len() - 1 - i) as nat),
                table.len(),
            );
            lookup_value(cs.lookups@[n], env) == ((a + env.beta) * (s + env.gamma)) % modulus()
        }),
{
    let m = modulus();
    let input = cs.lookups@[n].input_expressions@;
    let table = cs.lookups@[n].table_expressions@;
    let a = sum(
        |i: int| expr_value(input[i], env) * pow(env.theta, (input.len() - 1 - i) as nat),
        input.len(),
    );
    let s = sum(
        |i: int| expr_value(table[i], env) * pow(env.theta, (table.len() - 1 - i) as nat),
        table.len(),
    );
    lemma_modulus_bounds();
    law_compressed(input, env);
    law_compressed(table, env);
    reveal(fadd);
    reveal(fmul);
    lemma_add_mod_noop(a, env.beta, m);
    lemma_add_mod_noop(a % m, env.beta, m);
    lemma_mod_twice(a, m);
    lemma_add_mod_noop(s, env.gamma, m);
    lemma_add_mod_noop(s % m, env.gamma, m);
    lemma_mod_twice(s, m);
    lemma_mul_mod_noop_general(a + env.beta, s + env.gamma, m);
}

/// The two graphs of a shuffle give the sum of all the input expressions, each times its power
/// of theta, plus gamma, and that of all the shuffle expressions.
pub proof fn law_shuffle_graphs(ev: Evaluator, cs: ConstraintSystemBack, env: Env, n: int)
    requires
        ev.computes(cs),
        env.wf(),
        0 <= n < cs.shuffles@.len(),
    ensures
        ({
            let input = cs.shuffles@[n].input_expressions@;
            let shuffle = cs.shuffles@[n].shuffle_expressions@;
            &&& ev.shuffles@[2 * n].result(env) == (sum(
                |i: int| expr_value(input[i], env) * pow(env.theta, (input.len() - 1 - i) as nat),
                input.len(),
            ) + env.gamma) % modulus()
            &&& ev.shuffles@[2 * n + 1].result(env) == (sum(
                |i: int|
                    expr_value(shuffle[i], env) * pow(env.theta, (shuffle.len() - 1 - i) as nat),
                shuffle.len(),
            ) + env.gamma) % modulus()
        }),
{
    let input = cs.shuffles@[n].input_expressions@;
    let shuffle = cs.shuffles@[n].shuffle_expressions@;
    lemma_shuffle_value(input, env);
    lemma_shuffle_value(shuffle, env);
    assert(ev.shuffles@[2 * n].result(env) == shuffle_value(input, env));
    assert(ev.shuffles@[2 * n + 1].result(env) == shuffle_value(shuffle, env));
}

/// The value of one side of a shuffle, as a sum of powers.
pub proof fn lemma_shuffle_value(e: Seq<ExpressionBack>, env: Env)
    ensures
        shuffle_value(e, env) == (sum(
            |i: int| expr_value(e[i], env) * pow(env.theta, (e.len() - 1 - i) as nat),
            e.len(),
        ) + env.gamma) % modulus(),
{
    let m = modulus();
    let a = sum(
        |i: int| expr_value(e[i], env) * pow(env.theta, (e.len() - 1 - i) as nat),
        e.len(),
    );
    lemma_modulus_bounds();
    law_compressed(e, env);
    reveal(fadd);
    lemma_add_mod_noop(a, env.gamma, m);
    lemma_add_mod_noop(a % m, env.gamma, m);
    lemma_mod_twice(a, m);
}

/// The fingerprint of `n` values is `Sum_i v_i * 7^(2^28 * (n - 1 - i))`.
pub proof fn law_fingerprint(v: Seq<int>)
    ensures
        fingerprint_value(v) == sum(
            |i: int| v[i] * pow(delta(), (v.len() - 1 - i) as nat),
            v.len(),
        ) % modulus(),
        delta() == pow(7, vstd::arithmetic::power2::pow2(28)) % modulus(),
{
    lemma_modulus_bounds();
    law_horner_is_sum(0, v, delta(), v.len());
    lemma_mul_basics(pow(delta(), v.len()));
    lemma_sum_eq(
        |j: int| v[j] * pow(delta(), (v.len() - 1 - j) as nat),
        |i: int| v[i] * pow(delta(), (v.len() - 1 - i) as nat),
        v.len(),
    );
    reveal(crate::field::fpow);
}

} // verus!
