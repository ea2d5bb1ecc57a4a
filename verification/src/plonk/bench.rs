//! What the quotient's benchmark runs on: a key for the wide circuit and columns of scrambled
//! values.

use halo2curves::bn256::Fr;
use vstd::arithmetic::mul::*;
use vstd::arithmetic::power::*;
use vstd::arithmetic::power2::*;
use vstd::prelude::*;

use crate::field::{
    canonical, canonical_all, fadd, fmul, fpow, fr_add, fr_from_u64, fr_mul, fr_one, fr_pow,
    fr_root_of_unity, fr_zero, modulus, primitive_root, root_of_unity, val, vals,
};
use crate::four_step::lemma_fpow_fpow;
use crate::halo2::fft::law_extended_is_evaluation;
use crate::halo2::meaning::law_transform;
use crate::interpolate::{interpolate, interpolated, law_interpolation};
use crate::plonk::arith::lemma_congruent_ops;
use crate::plonk::circuit::{expr_value, Env, Limits, Polynomial};
use crate::plonk::evaluate::{
    coset_wf, lemma_small_power, EvaluationDomain, ProvingKey, VerifyingKey,
};
use crate::plonk::evaluator::{ConstraintSystemBack, Evaluator, GateBack};
use crate::plonk::meaning::lemma_zeta_cubed;
use crate::plonk::quotient::zeta;
use crate::plonk::samples::{usable, usable_rows, wide_gate, wide_gate_value};
use crate::powers::two_to;
use crate::sums::sum;

verus! {

/// The `i`-th value of the benchmark's columns, read one after the other: a linear
/// congruential sequence.
pub open spec fn bench_value(i: nat) -> int
    decreases i,
{
    let before = if i == 0 {
        0x9e37_79b9
    } else {
        bench_value((i - 1) as nat)
    };
    fadd(fmul(before, 6364136223846793005), 1)
}

/// Each value of the sequence is the one before times 6364136223846793005, plus one; the first
/// follows the seed.
pub proof fn law_bench_values_follow(i: nat)
    ensures
        bench_value(0) == (0x9e37_79b9int * 6364136223846793005int + 1) % modulus(),
        bench_value(i + 1) == (bench_value(i) * 6364136223846793005 + 1) % modulus(),
{
    lemma_congruent_ops(0x9e37_79b9, 6364136223846793005, 0x9e37_79b9, 6364136223846793005);
    lemma_congruent_ops(
        fmul(0x9e37_79b9, 6364136223846793005),
        1,
        0x9e37_79b9int * 6364136223846793005int,
        1,
    );
    let x = bench_value(i);
    lemma_congruent_ops(x, 6364136223846793005, x, 6364136223846793005);
    lemma_congruent_ops(fmul(x, 6364136223846793005), 1, x * 6364136223846793005, 1);
}

/// `cols` columns of `n` scrambled values.
pub fn bench_columns(n: usize, cols: usize) -> (r: Vec<Polynomial>)
    ensures
        r@.len() == cols,
        forall|c: int| 0 <= c < cols ==> (#[trigger] r@[c]).values@.len() == n,
        forall|c: int| 0 <= c < cols ==> canonical_all((#[trigger] r@[c]).values@),
        forall|c: int, i: int|
            0 <= c < cols && 0 <= i < n ==> val(#[trigger] r@[c].values@[i]) == bench_value(
                (c * n + i) as nat,
            ),
{
    let factor = fr_from_u64(6364136223846793005);
    let one = fr_one();
    let mut x = fr_from_u64(0x9e37_79b9);
    let mut r: Vec<Polynomial> = Vec::with_capacity(cols);
    let mut done: Ghost<nat> = Ghost(0);
    proof {
        lemma_mul_basics(n as int);
    }
    for c in 0..cols
        invariant
            canonical(factor),
            val(factor) == 6364136223846793005,
            canonical(one),
            val(one) == 1,
            canonical(x),
            done@ == c * n,
            val(x) == (if done@ == 0 {
                0x9e37_79b9
            } else {
                bench_value((done@ - 1) as nat)
            }),
            r@.len() == c,
            forall|q: int| 0 <= q < c ==> (#[trigger] r@[q]).values@.len() == n,
            forall|q: int| 0 <= q < c ==> canonical_all((#[trigger] r@[q]).values@),
            forall|q: int, i: int|
                0 <= q < c && 0 <= i < n ==> val(#[trigger] r@[q].values@[i]) == bench_value(
                    (q * n + i) as nat,
                ),
    {
        let mut values: Vec<Fr> = Vec::with_capacity(n);
        let ghost first = done@;
        for i in 0..n
            invariant
                canonical(factor),
                val(factor) == 6364136223846793005,
                canonical(one),
                val(one) == 1,
                canonical(x),
                first == c * n,
                done@ == first + i,
                val(x) == (if done@ == 0 {
                    0x9e37_79b9
                } else {
                    bench_value((done@ - 1) as nat)
                }),
                values@.len() == i,
                canonical_all(values@),
                forall|j: int|
                    0 <= j < i ==> val(#[trigger] values@[j]) == bench_value((first + j) as nat),
        {
            x = fr_add(&fr_mul(&x, &factor), &one);
            values.push(x);
            done = Ghost((done@ + 1) as nat);
        }
        proof {
            lemma_mul_is_distributive_add_other_way(n as int, c as int, 1);
        }
        r.push(Polynomial { values });
    }
    r
}

/// A primitive root of unity of order `2^log_n`.
fn domain_root(log_n: usize) -> (r: Fr)
    requires
        log_n <= 28,
    ensures
        canonical(r),
        val(r) == fpow(root_of_unity(), pow2((28 - log_n) as nat)),
        primitive_root(val(r), pow2(log_n as nat) as int),
{
    proof {
        lemma_small_power((28 - log_n) as nat);
        lemma2_to64();
        if log_n > 0 {
            let a = pow2((28 - log_n) as nat);
            let b = pow2((log_n - 1) as nat);
            lemma_pow2_unfold(log_n as nat);
            lemma_pow2_unfold(28);
            lemma_pow2_adds((28 - log_n) as nat, (log_n - 1) as nat);
            lemma_fpow_fpow(root_of_unity(), a, b);
        }
    }
    let root = fr_root_of_unity();
    fr_pow(&root, two_to(28 - log_n) as u64)
}

impl EvaluationDomain {
    /// The domain of `2^k` rows within the extended one of `2^extended_k`.
    pub fn new(k: usize, extended_k: usize) -> (r: Self)
        requires
            k <= extended_k <= 28,
        ensures
            r.wf(),
            r.k == k,
            r.extended_k == extended_k,
            val(r.extended_omega) == fpow(root_of_unity(), pow2((28 - extended_k) as nat)),
    {
        EvaluationDomain { k, extended_k, extended_omega: domain_root(extended_k) }
    }

    /// The values over the extended domain of the polynomial with the given values over the
    /// circuit's rows.
    pub open spec fn coset_of(&self, column: Seq<int>) -> Seq<int> {
        let omega = fpow(root_of_unity(), pow2((28 - self.k) as nat));
        self.extend(interpolated(column, omega, self.k as nat))
    }

    /// The values over the extended domain of the polynomial with the given values over the
    /// circuit's rows.
    pub fn lagrange_to_extended(&self, column: &Polynomial) -> (r: Polynomial)
        requires
            self.wf(),
            self.k <= 28,
            self.poly_wf(*column),
        ensures
            coset_wf(r, self.size()),
            vals(r.values@) == self.coset_of(vals(column.values@)),
    {
        let omega = domain_root(self.k);
        let values = interpolate(column.values.as_slice(), omega, self.k);
        self.coeff_to_extended(&Polynomial { values })
    }
}

/// The coset of a column holds the values of one polynomial, of degree below `2^k`: the
/// polynomial that takes the column's values at the powers of the circuit's root of unity, here
/// evaluated at the points of the coset.
pub proof fn law_coset_of_column(
    domain: EvaluationDomain,
    column: Seq<int>,
    row: int,
    i: int,
) -> (coeffs: Seq<int>)
    requires
        domain.wf(),
        domain.k <= 28,
        primitive_root(
            fpow(root_of_unity(), pow2((28 - domain.k) as nat)),
            pow2(domain.k as nat) as int,
        ),
        column.len() == pow2(domain.k as nat),
        forall|j: int| 0 <= j < column.len() ==> 0 <= #[trigger] column[j] < modulus(),
        0 <= row < pow2(domain.extended_k as nat),
        0 <= i < column.len(),
    ensures
        coeffs.len() == column.len(),
        sum(
            |j: int|
                coeffs[j] * pow(
                    fpow(root_of_unity(), pow2((28 - domain.k) as nat)),
                    (i * j) as nat,
                ),
            coeffs.len(),
        ) % modulus() == column[i],
        domain.coset_of(column)[row] == sum(
            |j: int|
                coeffs[j] * pow(
                    zeta() * pow(val(domain.extended_omega), row as nat),
                    j as nat,
                ),
            coeffs.len(),
        ) % modulus(),
{
    let w = fpow(root_of_unity(), pow2((28 - domain.k) as nat));
    let coeffs = interpolated(column, w, domain.k as nat);
    law_interpolation(column, w, domain.k as nat);
    law_transform(coeffs, w, i);
    if domain.k < domain.extended_k {
        lemma_pow2_strictly_increases(domain.k as nat, domain.extended_k as nat);
    }
    lemma_zeta_cubed();
    law_extended_is_evaluation(
        coeffs,
        zeta(),
        val(domain.extended_omega),
        domain.size() as nat,
        row,
    );
    coeffs
}

/// An indicator is one in the rows from `from` up to `to`, and zero in the others.
pub proof fn law_indicator(n: nat, from: int, to: int, row: int)
    requires
        0 <= row < n,
    ensures
        indicator(n, from, to).len() == n,
        from <= row < to ==> indicator(n, from, to)[row] == 1,
        row < from || to <= row ==> indicator(n, from, to)[row] == 0,
{
}

/// A column that is one in the rows from `from` up to `to` and zero elsewhere.
pub open spec fn indicator(n: nat, from: int, to: int) -> Seq<int> {
    Seq::new(
        n,
        |row: int|
            if from <= row < to {
                1
            } else {
                0
            },
    )
}

fn indicator_column(n: usize, from: usize, to: usize) -> (r: Polynomial)
    ensures
        canonical_all(r.values@),
        r.values@.len() == n,
        vals(r.values@) == indicator(n as nat, from as int, to as int),
{
    let one = fr_one();
    let zero = fr_zero();
    let mut values: Vec<Fr> = Vec::with_capacity(n);
    for row in 0..n
        invariant
            canonical(one),
            val(one) == 1,
            canonical(zero),
            val(zero) == 0,
            values@.len() == row,
            canonical_all(values@),
            forall|j: int|
                0 <= j < row ==> val(#[trigger] values@[j]) == indicator(
                    n as nat,
                    from as int,
                    to as int,
                )[j],
    {
        if from <= row && row < to {
            values.push(one);
        } else {
            values.push(zero);
        }
    }
    assert(vals(values@) =~= indicator(n as nat, from as int, to as int));
    Polynomial { values }
}

/// The bounds that the wide circuit's columns set; no rotation is needed.
pub open spec fn wide_limits(cols: int) -> Limits {
    Limits { fixed: 1, advice: cols, instance: 0, challenges: 0, rotation: 0 }
}

/// A key for the wide circuit of `2^k` rows and `cols` advice columns: its one constraint, and
/// a selector for the rows in use. The last six rows are kept for blinding.
pub fn wide_key(k: usize, cols: usize) -> (r: ProvingKey)
    requires
        3 <= k < 28,
        cols >= 2,
    ensures
        r.wf(),
        r.ev.wf(),
        r.ev.computes(r.vk.cs),
        r.ev.within(wide_limits(cols as int)),
        r.vk.domain.k == k,
        r.vk.domain.extended_k == k + 1,
        r.vk.cs.gates@.len() == 1,
        forall|env: Env| #[trigger]
            expr_value(r.vk.cs.gates@[0].poly, env) == wide_gate_value(env, cols as nat),
        r.vk.cs.lookups@.len() == 0,
        r.vk.cs.shuffles@.len() == 0,
        r.vk.cs.permutation@.len() == 0,
        r.vk.cs.blinding_factors == 5,
        r.vk.cs.degree == 3,
        r.fixed_cosets@.len() == 1,
        ({
            let n = pow2(k as nat);
            &&& vals(r.fixed_cosets@[0].values@) == r.vk.domain.coset_of(
                indicator(n, 0, usable_rows(n as int)),
            )
            &&& vals(r.l0.values@) == r.vk.domain.coset_of(indicator(n, 0, 1))
            &&& vals(r.l_last.values@) == r.vk.domain.coset_of(indicator(n, n - 6, n - 5))
            &&& vals(r.l_active_row.values@) == r.vk.domain.coset_of(indicator(n, 0, n - 6))
        }),
{
    proof {
        lemma_small_power(k as nat);
        lemma2_to64();
        if k > 3 {
            lemma_pow2_strictly_increases(3, k as nat);
        }
    }
    let domain = EvaluationDomain::new(k, k + 1);
    let n = two_to(k);
    let mut gates: Vec<GateBack> = Vec::new();
    gates.push(wide_gate(cols));
    let cs = ConstraintSystemBack {
        gates,
        lookups: Vec::new(),
        shuffles: Vec::new(),
        permutation: Vec::new(),
        blinding_factors: 5,
        degree: 3,
    };
    let ev = Evaluator::new(&cs);
    assert(cs.within(wide_limits(cols as int)));
    let mut fixed_cosets: Vec<Polynomial> = Vec::new();
    let selector = domain.lagrange_to_extended(&indicator_column(n, 0, usable(n)));
    fixed_cosets.push(selector);
    let l0 = domain.lagrange_to_extended(&indicator_column(n, 0, 1));
    let l_last = domain.lagrange_to_extended(&indicator_column(n, n - 6, n - 5));
    let l_active_row = domain.lagrange_to_extended(&indicator_column(n, 0, n - 6));
    ProvingKey {
        vk: VerifyingKey { domain, cs },
        fixed_cosets,
        l0,
        l_last,
        l_active_row,
        permutation_cosets: Vec::new(),
        ev,
    }
}

} // verus!
