//! Why the four-step (Bailey) schedule computes the transform: a size `n1 * n2` transform
//! is `n1` row transforms of size `n2`, a twiddle, and `n2` column transforms of size `n1`.

use vstd::arithmetic::div_mod::*;
use vstd::arithmetic::mul::*;
use vstd::arithmetic::power::*;
use vstd::arithmetic::power2::*;
use vstd::prelude::*;

use crate::field::{dft_at, fmul, fpow, lemma_modulus_bounds, modulus, primitive_root};
use crate::sums::{
    lemma_sum_congruent, lemma_sum_eq, lemma_sum_grid, lemma_sum_scale, lemma_sum_swap, sum,
};

verus! {

/// Row `k1` of the `n1 x n2` matrix whose entry `(k1, k2)` is `x[k1 + n1 * k2]`.
pub open spec fn matrix_row(x: Seq<int>, n1: int, n2: int, k1: int) -> Seq<int> {
    Seq::new(n2 as nat, |k2: int| x[k1 + n1 * k2])
}

/// Entry `(k1, j2)` after the row transforms and the twiddle `w^(k1 * j2)`.
pub open spec fn twiddled(x: Seq<int>, w: int, n1: int, n2: int, k1: int, j2: int) -> int {
    fmul(
        dft_at(matrix_row(x, n1, n2, k1), fpow(w, n1 as nat), j2),
        fpow(w, (k1 * j2) as nat),
    )
}

/// Column `j2` of the twiddled matrix.
pub open spec fn twiddled_column(x: Seq<int>, w: int, n1: int, n2: int, j2: int) -> Seq<int> {
    Seq::new(n1 as nat, |k1: int| twiddled(x, w, n1, n2, k1, j2))
}

/// Entry `j2 + n2 * j1` of the result: the column transform of column `j2` at `j1`.
pub open spec fn four_step_at(x: Seq<int>, w: int, n1: int, n2: int, j1: int, j2: int) -> int {
    dft_at(twiddled_column(x, w, n1, n2, j2), fpow(w, n2 as nat), j1)
}

pub proof fn lemma_mul_congruent(a: int, b: int, c: int, d: int, m: int)
    requires
        m > 0,
        a % m == b % m,
        c % m == d % m,
    ensures
        (a * c) % m == (b * d) % m,
{
    lemma_mul_mod_noop_general(a, c, m);
    lemma_mul_mod_noop_general(b, d, m);
}

/// Powers of a power, in the field.
pub proof fn lemma_pow_of_fpow(w: int, a: nat, e: nat)
    ensures
        pow(fpow(w, a), e) % modulus() == pow(w, a * e) % modulus(),
{
    lemma_modulus_bounds();
    reveal(fpow);
    lemma_pow_mod_noop(pow(w, a), e, modulus());
    lemma_pow_multiplies(w, a, e);
}

/// Powers add in the field.
pub proof fn lemma_fpow_add(w: int, a: nat, b: nat)
    ensures
        fmul(fpow(w, a), fpow(w, b)) == fpow(w, a + b),
{
    lemma_modulus_bounds();
    reveal(fpow);
    reveal(fmul);
    lemma_pow_adds(w, a, b);
    lemma_mul_mod_noop_general(pow(w, a), pow(w, b), modulus());
}

/// Powers of a power of `w` are powers of `w`.
pub proof fn lemma_fpow_fpow(w: int, a: nat, e: nat)
    ensures
        fpow(fpow(w, a), e) == fpow(w, a * e),
{
    lemma_pow_of_fpow(w, a, e);
    reveal(fpow);
}

/// The `n`-th power of a primitive `n`-th root is one, `n` an even number.
pub proof fn lemma_primitive_root_power(w: int, n: int)
    requires
        n > 1,
        n % 2 == 0,
        primitive_root(w, n),
    ensures
        fpow(w, n as nat) == 1,
{
    let h = (n / 2) as nat;
    let m = modulus();
    lemma_modulus_bounds();
    lemma_fpow_add(w, h, h);
    assert(h + h == n);
    reveal(fmul);
    assert((m - 1) * (m - 1) == 1 + m * (m - 2)) by (nonlinear_arith);
    lemma_mod_multiples_vanish(m - 2, 1, m);
    lemma_small_mod(1, m as nat);
}

/// Multiples of the order do not change a power.
pub proof fn lemma_pow_order(w: int, n: nat, e: nat, t: nat)
    requires
        fpow(w, n) == 1,
    ensures
        pow(w, e + n * t) % modulus() == pow(w, e) % modulus(),
{
    let m = modulus();
    lemma_modulus_bounds();
    lemma_pow_of_fpow(w, n, t);
    lemma1_pow(t);
    lemma_pow_adds(w, e, n * t);
    lemma_mul_congruent(pow(w, e), pow(w, e), pow(w, n * t), 1, m);
}

/// The exponent of a grid cell, term by term.
proof fn lemma_index_product(n1: int, n2: int, j1: int, j2: int, k1: int, k2: int)
    ensures
        (j2 + n2 * j1) * (k1 + n1 * k2) == k1 * j2 + n2 * (j1 * k1) + n1 * (j2 * k2) + (n1 * n2)
            * (j1 * k2),
{
    lemma_mul_is_distributive_add_other_way(k1 + n1 * k2, j2, n2 * j1);
    lemma_mul_is_distributive_add(j2, k1, n1 * k2);
    lemma_mul_is_distributive_add(n2 * j1, k1, n1 * k2);
    assert(j2 * (n1 * k2) == n1 * (j2 * k2)) by (nonlinear_arith);
    assert((n2 * j1) * k1 == n2 * (j1 * k1)) by (nonlinear_arith);
    assert((n2 * j1) * (n1 * k2) == (n1 * n2) * (j1 * k2)) by (nonlinear_arith);
    lemma_mul_is_commutative(j2, k1);
}

/// One row's share of an output entry.
proof fn lemma_row_share(x: Seq<int>, w: int, n1: int, n2: int, j1: int, j2: int, k1: int)
    requires
        n1 > 0,
        n2 > 0,
        x.len() == n1 * n2,
        (n1 > 1 && n2 > 1) ==> fpow(w, (n1 * n2) as nat) == 1,
        0 <= j1 < n1,
        0 <= j2 < n2,
        0 <= k1 < n1,
    ensures
        (twiddled(x, w, n1, n2, k1, j2) * pow(fpow(w, n2 as nat), (j1 * k1) as nat)) % modulus()
            == sum(
            |k2: int|
                x[k1 + n1 * k2] * pow(w, ((j2 + n2 * j1) * (k1 + n1 * k2)) as nat),
            n2 as nat,
        ) % modulus(),
{
    let m = modulus();
    lemma_modulus_bounds();
    let row = matrix_row(x, n1, n2, k1);
    let wr = fpow(w, n1 as nat);
    let f = |k2: int| row[k2] * pow(wr, (j2 * k2) as nat);
    let b = sum(f, n2 as nat);
    assert(k1 * j2 >= 0 && n2 * (j1 * k1) >= 0 && j1 * k1 >= 0) by (nonlinear_arith)
        requires
            k1 >= 0,
            j2 >= 0,
            j1 >= 0,
            n2 > 0,
    ;
    let ea = (k1 * j2) as nat;
    let eb = (n2 * (j1 * k1)) as nat;
    let c = pow(w, ea + eb);
    // The twiddled entry times the column root's power is `b * c` up to the modulus.
    reveal(dft_at);
    assert(dft_at(row, wr, j2) == b % m) by {
        assert(row.len() == n2);
        lemma_sum_eq(f, |j: int| row[j] * pow(wr, (j2 * j) as nat), n2 as nat);
    }
    let a = twiddled(x, w, n1, n2, k1, j2);
    assert(a % m == (b * pow(w, ea)) % m) by {
        reveal(fmul);
        reveal(fpow);
        lemma_mul_mod_noop_general(b, pow(w, ea), m);
        lemma_mod_twice(b * pow(w, ea), m);
    }
    lemma_pow_of_fpow(w, n2 as nat, (j1 * k1) as nat);
    lemma_mul_congruent(
        a,
        b * pow(w, ea),
        pow(fpow(w, n2 as nat), (j1 * k1) as nat),
        pow(w, eb),
        m,
    );
    assert((b * pow(w, ea)) * pow(w, eb) == c * b) by {
        lemma_pow_adds(w, ea, eb);
        lemma_mul_is_associative(b, pow(w, ea), pow(w, eb));
        lemma_mul_is_commutative(b, c);
    }
    lemma_sum_scale(f, c, n2 as nat);
    let g = |k2: int| c * f(k2);
    let t = |k2: int| x[k1 + n1 * k2] * pow(w, ((j2 + n2 * j1) * (k1 + n1 * k2)) as nat);
    assert forall|k2: int| 0 <= k2 < n2 implies (#[trigger] g(k2)) % m == t(k2) % m by {
        let v = x[k1 + n1 * k2];
        assert(j2 * k2 >= 0 && j1 * k2 >= 0) by (nonlinear_arith)
            requires
                j1 >= 0,
                j2 >= 0,
                k2 >= 0,
        ;
        let er = (j2 * k2) as nat;
        lemma_pow_of_fpow(w, n1 as nat, er);
        let e0 = ea + eb + n1 as nat * er;
        assert(g(k2) == c * (v * pow(wr, er)));
        lemma_mul_congruent(v, v, pow(wr, er), pow(w, n1 as nat * er), m);
        lemma_mul_congruent(c, c, v * pow(wr, er), v * pow(w, n1 as nat * er), m);
        lemma_pow_adds(w, ea + eb, n1 as nat * er);
        assert(c * (v * pow(w, n1 as nat * er)) == v * pow(w, e0)) by {
            let p1 = pow(w, n1 as nat * er);
            assert(c * (v * p1) == v * (c * p1)) by (nonlinear_arith);
        }
        let full = (j2 + n2 * j1) * (k1 + n1 * k2);
        lemma_index_product(n1, n2, j1, j2, k1, k2);
        assert(full == ea + eb + n1 * (j2 * k2) + (n1 * n2) * (j1 * k2));
        if n1 > 1 && n2 > 1 {
            lemma_mul_strictly_positive(n1, n2);
            lemma_pow_order(w, (n1 * n2) as nat, e0, (j1 * k2) as nat);
        } else {
            // A single row or a single column: one of the two indices is zero.
            assert(j1 == 0 || k2 == 0);
            assert((n1 * n2) * (j1 * k2) == 0) by (nonlinear_arith)
                requires
                    j1 == 0 || k2 == 0,
            ;
        }
        assert(n1 as nat * er == n1 * (j2 * k2));
        assert(pow(w, e0) % m == pow(w, full as nat) % m);
        lemma_mul_congruent(v, v, pow(w, e0), pow(w, full as nat), m);
    }
    lemma_sum_congruent(g, t, n2 as nat, m);
}

/// Four small steps compute the whole transform: the entry written at `j2 + n2 * j1` is the
/// transform of the input at that index.
pub proof fn lemma_four_step(x: Seq<int>, w: int, n1: int, n2: int, j1: int, j2: int)
    requires
        n1 > 0,
        n2 > 0,
        x.len() == n1 * n2,
        (n1 > 1 && n2 > 1) ==> fpow(w, (n1 * n2) as nat) == 1,
        0 <= j1 < n1,
        0 <= j2 < n2,
    ensures
        four_step_at(x, w, n1, n2, j1, j2) == dft_at(x, w, j2 + n2 * j1),
{
    let m = modulus();
    lemma_modulus_bounds();
    let j = j2 + n2 * j1;
    let term = |k: int| x[k] * pow(w, (j * k) as nat);
    let cell = |k1: int, k2: int| x[k1 + n1 * k2] * pow(w, (j * (k1 + n1 * k2)) as nat);
    let col = twiddled_column(x, w, n1, n2, j2);
    let wc = fpow(w, n2 as nat);
    let share = |k1: int| col[k1] * pow(wc, (j1 * k1) as nat);
    let by_row = |k1: int| sum(|k2: int| cell(k1, k2), n2 as nat);
    assert forall|k1: int| 0 <= k1 < n1 implies (#[trigger] share(k1)) % m == by_row(k1) % m by {
        lemma_row_share(x, w, n1, n2, j1, j2, k1);
        lemma_sum_eq(
            |k2: int| x[k1 + n1 * k2] * pow(w, ((j2 + n2 * j1) * (k1 + n1 * k2)) as nat),
            |k2: int| cell(k1, k2),
            n2 as nat,
        );
    }
    lemma_sum_congruent(share, by_row, n1 as nat, m);
    lemma_sum_swap(cell, n1 as nat, n2 as nat);
    let by_col = |k2: int| sum(|k1: int| cell(k1, k2), n1 as nat);
    lemma_sum_grid(term, n1 as nat, n2 as nat);
    let grid = |k2: int| sum(|k1: int| term(k1 + n1 * k2), n1 as nat);
    assert forall|k2: int| 0 <= k2 < n2 implies #[trigger] by_col(k2) == grid(k2) by {
        lemma_sum_eq(|k1: int| cell(k1, k2), |k1: int| term(k1 + n1 * k2), n1 as nat);
    }
    lemma_sum_eq(by_col, grid, n2 as nat);
    reveal(dft_at);
    lemma_sum_eq(share, |k1: int| col[k1] * pow(wc, (j1 * k1) as nat), n1 as nat);
    assert(n1 as nat * n2 as nat == x.len());
}

} // verus!
