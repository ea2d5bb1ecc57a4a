//! What the constraints and the columns of the sample circuits are, as numbers.

use vstd::arithmetic::div_mod::*;
use vstd::arithmetic::power2::*;
use vstd::prelude::*;

use crate::field::{fadd, fmul, fneg, lemma_modulus_bounds, modulus};
use crate::plonk::arith::lemma_congruent_ops;
use crate::plonk::circuit::Env;
use crate::plonk::samples::{
    advice_sum, chain_gate_value, chain_links, chain_row, mul_gate_value, table_len, usable_rows,
    wide_cell, wide_gate_value, wide_sum,
};
use crate::sums::sum;

verus! {

/// A negation, up to multiples of the prime.
proof fn lemma_negation(a: int, x: int)
    requires
        a % modulus() == x % modulus(),
    ensures
        fneg(a) % modulus() == (-x) % modulus(),
{
    reveal(fneg);
    lemma_modulus_bounds();
    lemma_sub_mod_noop(0, a, modulus());
    lemma_sub_mod_noop(0, x, modulus());
    lemma_mod_twice(-a, modulus());
}

/// The multiplication circuit's constraint is `q * (a * b - c)`.
pub proof fn law_mul_gate_value(env: Env)
    ensures
        mul_gate_value(env) == ((env.fixed)(0, 0) * ((env.advice)(0, 0) * (env.advice)(1, 0) - (
        env.advice)(2, 0))) % modulus(),
{
    let (a, b, c) = ((env.advice)(0, 0), (env.advice)(1, 0), (env.advice)(2, 0));
    let q = (env.fixed)(0, 0);
    lemma_congruent_ops(a, b, a, b);
    lemma_negation(c, c);
    lemma_congruent_ops(fmul(a, b), fneg(c), a * b, -c);
    lemma_congruent_ops(q, fadd(fmul(a, b), fneg(c)), q, a * b - c);
}

/// The chain's constraint is `a * sa + b * sb + a * b * sm - c * sc`.
pub proof fn law_chain_gate_value(env: Env)
    ensures
        ({
            let (a, b, c) = ((env.advice)(0, 0), (env.advice)(1, 0), (env.advice)(2, 0));
            let (sm, sa) = ((env.fixed)(0, 0), (env.fixed)(1, 0));
            let (sb, sc) = ((env.fixed)(2, 0), (env.fixed)(3, 0));
            chain_gate_value(env) == (a * sa + b * sb + a * b * sm - c * sc) % modulus()
        }),
{
    let (a, b, c) = ((env.advice)(0, 0), (env.advice)(1, 0), (env.advice)(2, 0));
    let (sm, sa) = ((env.fixed)(0, 0), (env.fixed)(1, 0));
    let (sb, sc) = ((env.fixed)(2, 0), (env.fixed)(3, 0));
    lemma_congruent_ops(a, sa, a, sa);
    lemma_congruent_ops(b, sb, b, sb);
    lemma_congruent_ops(fmul(a, sa), fmul(b, sb), a * sa, b * sb);
    lemma_congruent_ops(a, b, a, b);
    lemma_congruent_ops(fmul(a, b), sm, a * b, sm);
    let s = fadd(fmul(a, sa), fmul(b, sb));
    let p = fmul(fmul(a, b), sm);
    lemma_congruent_ops(s, p, a * sa + b * sb, a * b * sm);
    lemma_congruent_ops(c, sc, c, sc);
    lemma_negation(fmul(c, sc), c * sc);
    lemma_congruent_ops(
        fadd(s, p),
        fneg(fmul(c, sc)),
        a * sa + b * sb + a * b * sm,
        -(c * sc),
    );
}

/// The sum of the first advice columns.
proof fn lemma_advice_sum(env: Env, n: nat)
    requires
        n > 0,
    ensures
        advice_sum(env, n) % modulus() == sum(|j: int| (env.advice)(j, 0), n) % modulus(),
    decreases n,
{
    let f = |j: int| (env.advice)(j, 0);
    assert(sum(f, n) == sum(f, (n - 1) as nat) + f(n - 1));
    if n > 1 {
        let k = (n - 1) as nat;
        lemma_advice_sum(env, k);
        lemma_congruent_ops(advice_sum(env, k), f(n - 1), sum(f, k), f(n - 1));
    } else {
        assert(sum(f, 0) == 0);
    }
}

/// The wide circuit's constraint is the selector times the sum of all columns but the last,
/// less the last.
pub proof fn law_wide_gate_value(env: Env, cols: nat)
    requires
        cols >= 2,
    ensures
        wide_gate_value(env, cols) == ((env.fixed)(0, 0) * (sum(
            |j: int| (env.advice)(j, 0),
            (cols - 1) as nat,
        ) - (env.advice)(cols - 1, 0))) % modulus(),
{
    let s = sum(|j: int| (env.advice)(j, 0), (cols - 1) as nat);
    let last = (env.advice)(cols - 1, 0);
    let q = (env.fixed)(0, 0);
    lemma_advice_sum(env, (cols - 1) as nat);
    lemma_negation(last, last);
    let a = advice_sum(env, (cols - 1) as nat);
    lemma_congruent_ops(a, fneg(last), s, -last);
    lemma_congruent_ops(q, fadd(a, fneg(last)), q, s - last);
}

/// The wide circuit's cells count up along rows and columns, and the last column holds their
/// sum.
pub proof fn law_wide_cells(row: int, j: int, n: nat)
    ensures
        wide_cell(row, j) == row + j + 1,
        wide_sum(row, n) == sum(|j: int| row + j + 1, n) % modulus(),
    decreases n,
{
    lemma_modulus_bounds();
    let f = |j: int| row + j + 1;
    if n > 0 {
        let k = (n - 1) as nat;
        law_wide_cells(row, j, k);
        assert(sum(f, n) == sum(f, k) + f(n - 1));
        lemma_mod_twice(sum(f, k), modulus());
        lemma_congruent_ops(wide_sum(row, k), f(n - 1), sum(f, k), f(n - 1));
    } else {
        lemma_small_mod(0, modulus() as nat);
    }
}

/// How many rows the samples use: all but sixteen; as many links of the chain as leave six of
/// `2^k` rows free; and as many table entries as leave 32 rows free, from 4 up to 256.
pub proof fn law_sample_sizes(n: int, k: nat)
    requires
        0 <= n,
    ensures
        usable_rows(n) <= n && usable_rows(n) >= 0,
        n >= 16 ==> n - usable_rows(n) == 16,
        n < 16 ==> usable_rows(n) == 0,
        k < 3 ==> chain_links(k as int) == 0,
        k >= 3 ==> pow2(k) - 2 * chain_links(k as int) == 6,
        4 <= table_len(n) <= 256,
        table_len(n) == n - 32 || (table_len(n) == 4 && n - 32 < 4) || (table_len(n) == 256 && n
            - 32 > 256),
{
    if k >= 3 {
        lemma_pow2_unfold(k);
    }
}

/// The chain's rows: a row that multiplies has `a * b = c`, a row that adds has `a + b = c`, and
/// each is selected as what it is; past the last link nothing is.
pub proof fn law_chain_row(x: int, row: int, links: int)
    requires
        0 <= row,
    ensures
        ({
            let (a, b, c, sm, sa, sb, sc) = chain_row(x, row, links);
            &&& row >= 2 * links ==> a == 0 && b == 0 && c == 0 && sm == 0 && sa == 0 && sb == 0
                && sc == 0
            &&& row < 2 * links && row % 2 == 0 ==> {
                &&& a == x && b == x && c == (x * x) % modulus()
                &&& sm == 1 && sa == 0 && sb == 0 && sc == 1
            }
            &&& row < 2 * links && row % 2 == 1 ==> {
                &&& a == x && b == (x * x) % modulus() && c == (x * x + x) % modulus()
                &&& sm == 0 && sa == 1 && sb == 1 && sc == 1
            }
        }),
{
    lemma_congruent_ops(x, x, x, x);
    lemma_congruent_ops(fmul(x, x), x, x * x, x);
}

} // verus!
